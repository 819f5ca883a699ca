//! The writer: appends objects to the output, records where each begins, and ends
//! with the offset table and the trailer.
use vstd::prelude::*;

use crate::bytes::{
    be_bytes, be_signed_bytes, lemma_pow256_monotone, lemma_pow256_values,
    pow2, pow2_usize, pow256, push_be, twos_complement,
};
use crate::de::has_magic;
use crate::trailer::{is_ref_size, trailer_bytes, Trailer};
use vstd::string::StringSliceAdditionalSpecFns;

verus! {

/// The smallest of 1, 2, 4 and 8 bytes that holds `value`.
pub open spec fn spec_bytes_needed(value: nat) -> u8 {
    if value <= 0xff {
        1
    } else if value <= 0xffff {
        2
    } else if value <= 0xffff_ffff {
        4
    } else {
        8
    }
}

/// The smallest of 1, 2, 4 and 8 bytes that holds `value`.
pub fn bytes_needed(value: usize) -> (r: u8)
    ensures
        r == spec_bytes_needed(value as nat),
{
    if value <= 0xff {
        return 1;
    }
    if value <= 0xffff {
        return 2;
    }
    if value as u64 <= 0xffff_ffff {
        return 4;
    }
    8
}

/// Appends `value` as a big-endian number of `bytes_needed` bytes.
pub fn write_varint(value: usize, bytes_needed: u8, output: &mut Vec<u8>)
    requires
        is_ref_size(bytes_needed as int),
        value < pow256(bytes_needed as nat),
    ensures
        final(output)@ == old(output)@ + be_bytes(value as nat, bytes_needed as nat),
{
    push_be(output, value as u128, bytes_needed as usize);
}

/// References (or offsets) one after the other, each a big-endian number of `w` bytes.
pub open spec fn refs_bytes(refs: Seq<usize>, w: nat) -> Seq<u8>
    decreases refs.len(),
{
    if refs.len() == 0 {
        seq![]
    } else {
        refs_bytes(refs.drop_last(), w) + be_bytes(refs.last() as nat, w)
    }
}

/// The largest of `s`, or 0 for none.
pub open spec fn seq_max(s: Seq<usize>) -> usize
    decreases s.len(),
{
    if s.len() == 0 {
        0
    } else if seq_max(s.drop_last()) >= s.last() {
        seq_max(s.drop_last())
    } else {
        s.last()
    }
}

/// The count that follows a marker whose high half is `mask`: in the marker's low
/// half below 15; else 15 there, then an integer object of 1, 2, 4 or 8 bytes.
pub open spec fn count_bytes(mask: u8, count: nat) -> Seq<u8> {
    if count < 15 {
        seq![mask | (count as u8)]
    } else {
        seq![mask | 15u8] + large_count_bytes(count)
    }
}

/// A count as an integer object of the fewest bytes among 1, 2, 4 and 8.
pub open spec fn large_count_bytes(count: nat) -> Seq<u8> {
    if count <= 0xff {
        seq![0x10u8] + be_bytes(count, 1)
    } else if count <= 0xffff {
        seq![0x11u8] + be_bytes(count, 2)
    } else if count <= 0xffff_ffff {
        seq![0x12u8] + be_bytes(count, 4)
    } else {
        seq![0x13u8] + be_bytes(count, 8)
    }
}

/// The bytes `bplist00` that begin the output.
pub open spec fn header_bytes() -> Seq<u8> {
    seq![98u8, 112u8, 108u8, 105u8, 115u8, 116u8, 48u8, 48u8]
}

/// A boolean object.
pub open spec fn bool_object(v: bool) -> Seq<u8> {
    seq![if v { 0x09u8 } else { 0x08u8 }]
}

/// The null object.
pub open spec fn unit_object() -> Seq<u8> {
    seq![0x00u8]
}

/// An integer object of `2^p` bytes holding `v`.
pub open spec fn unsigned_object(v: nat, p: u8) -> Seq<u8> {
    seq![0x10u8 | p] + be_bytes(v, pow2(p as nat))
}

/// An integer object of `2^p` bytes holding `v` in two's complement.
pub open spec fn signed_object(v: int, p: u8) -> Seq<u8> {
    seq![0x10u8 | p] + be_signed_bytes(v, pow2(p as nat))
}

/// A real number object of `2^p` bytes whose bits are `bits`.
pub open spec fn real_object(bits: nat, p: u8) -> Seq<u8> {
    seq![0x20u8 | p] + be_bytes(bits, pow2(p as nat))
}

/// A UTF-8 string object holding the bytes `b`.
pub open spec fn str_object(b: Seq<u8>) -> Seq<u8> {
    count_bytes(0x70, b.len()) + b
}

/// A data object holding the bytes `b`.
pub open spec fn bytes_object(b: Seq<u8>) -> Seq<u8> {
    count_bytes(0x40, b.len()) + b
}

/// An array object referring to the objects `refs`, references being `w` bytes.
pub open spec fn array_object(refs: Seq<usize>, w: nat) -> Seq<u8> {
    count_bytes(0xa0, refs.len()) + refs_bytes(refs, w)
}

/// A dictionary object with the keys `keys` and the values `values`, references
/// being `w` bytes; its count is that of the keys.
pub open spec fn dict_object(keys: Seq<usize>, values: Seq<usize>, w: nat) -> Seq<u8> {
    count_bytes(0xd0, keys.len()) + refs_bytes(keys, w) + refs_bytes(values, w)
}

/// The state of a serializer: what it has written, where each object begins (in
/// the order of their indices), and the size of its object references.
pub struct SerView {
    pub output: Seq<u8>,
    pub offsets: Seq<usize>,
    pub object_ref_size: u8,
}

/// A fresh serializer whose references take `object_ref_size` bytes: the header
/// written, no objects yet.
pub open spec fn initial_state(object_ref_size: u8) -> SerView {
    SerView { output: header_bytes(), offsets: seq![], object_ref_size }
}

impl SerView {
    /// A serializer state that can be reached: references of 1, 2, 4 or 8 bytes, and
    /// the output begins with `bplist`.
    pub open spec fn wf(self) -> bool {
        is_ref_size(self.object_ref_size as int) && has_magic(self.output)
    }

    /// This state with one more object, `bytes`, appended.
    pub open spec fn push_object(self, bytes: Seq<u8>) -> SerView {
        SerView {
            output: self.output + bytes,
            offsets: self.offsets.push(self.output.len() as usize),
            object_ref_size: self.object_ref_size,
        }
    }
}

/// The trailer that `finish` writes: as many objects as offsets, the top object
/// first, the offset table right after the objects.
pub open spec fn finish_trailer(s: SerView) -> Trailer {
    Trailer {
        num_objects: s.offsets.len() as u64,
        top_object: 0,
        offset_table_offset: s.output.len() as u64,
        offset_int_size: spec_bytes_needed(seq_max(s.offsets) as nat),
        object_ref_size: s.object_ref_size,
    }
}

/// The whole property list that `finish` returns: the objects, the offset table and
/// the trailer.
pub open spec fn finished_bytes(s: SerView) -> Seq<u8> {
    s.output + refs_bytes(s.offsets, spec_bytes_needed(seq_max(s.offsets) as nat) as nat)
        + trailer_bytes(finish_trailer(s))
}

proof fn lemma_magic_kept(a: Seq<u8>, b: Seq<u8>)
    requires
        has_magic(a),
    ensures
        has_magic(a + b),
{
    assert((a + b).take(6) =~= a.take(6));
}

/// Property list serializer.
pub struct Serializer {
    output: Vec<u8>,
    offsets: Vec<usize>,
    object_ref_size: u8,
}

impl View for Serializer {
    type V = SerView;

    closed spec fn view(&self) -> SerView {
        SerView {
            output: self.output@,
            offsets: self.offsets@,
            object_ref_size: self.object_ref_size,
        }
    }
}

impl Serializer {
    /// Create new serializer with the default object reference size (8).
    pub fn new() -> (r: Self)
        ensures
            r@ == initial_state(8),
            r@.wf(),
    {
        Self::with_object_ref_size(8)
    }

    /// Create new serializer with the specified object reference size.
    ///
    /// Object reference is an object index. If the object being serialized has less than
    /// `u16::MAX` fields in total (inclusing array and map elements), then you can set it to 2
    /// bytes to reduce the serialized object size. Valid values are 1, 2, 4 or 8 bytes.
    pub fn with_object_ref_size(object_ref_size: u8) -> (r: Self)
        requires
            is_ref_size(object_ref_size as int),
        ensures
            r@ == initial_state(object_ref_size),
            r@.wf(),
    {
        let mut output = Vec::with_capacity(4096);
        output.push(98);
        output.push(112);
        output.push(108);
        output.push(105);
        output.push(115);
        output.push(116);
        output.push(48);
        output.push(48);
        assert(output@ =~= header_bytes());
        assert(output@.take(6) =~= seq![98u8, 112u8, 108u8, 105u8, 115u8, 116u8]);
        Self { output, offsets: Vec::new(), object_ref_size }
    }

    /// Finish serializing.
    ///
    /// This function writes offset table and trailer.
    ///
    /// Returns the resulting serialized property list.
    pub fn finish(self) -> (r: Vec<u8>)
        ensures
            r@ == finished_bytes(self@),
    {
        let ghost s = self@;
        let mut max_offset: usize = 0;
        let mut i: usize = 0;
        while i < self.offsets.len()
            invariant
                i <= self.offsets@.len(),
                max_offset == seq_max(self.offsets@.take(i as int)),
            decreases self.offsets@.len() - i,
        {
            assert(self.offsets@.take(i + 1).drop_last() =~= self.offsets@.take(i as int));
            if self.offsets[i] > max_offset {
                max_offset = self.offsets[i];
            }
            i = i + 1;
        }
        assert(self.offsets@.take(i as int) =~= self.offsets@);
        let offset_int_size = bytes_needed(max_offset);
        let offset_table_offset = self.output.len();
        let trailer = Trailer {
            num_objects: self.offsets.len() as u64,
            top_object: 0,
            offset_table_offset: offset_table_offset as u64,
            offset_int_size,
            object_ref_size: self.object_ref_size,
        };
        let offsets = self.offsets;
        let mut output = self.output;
        let mut j: usize = 0;
        while j < offsets.len()
            invariant
                j <= offsets@.len(),
                offsets@ == s.offsets,
                offset_int_size == spec_bytes_needed(seq_max(s.offsets) as nat),
                output@ == s.output + refs_bytes(s.offsets.take(j as int), offset_int_size as nat),
            decreases offsets@.len() - j,
        {
            proof {
                lemma_seq_max(s.offsets, j as int);
                lemma_bytes_needed_fits(seq_max(s.offsets) as nat);
                lemma_bytes_needed_fits(offsets@[j as int] as nat);
                lemma_bytes_needed_monotone(offsets@[j as int] as nat, seq_max(s.offsets) as nat);
                assert(s.offsets.take(j + 1).drop_last() =~= s.offsets.take(j as int));
            }
            write_varint(offsets[j], offset_int_size, &mut output);
            j = j + 1;
        }
        assert(s.offsets.take(j as int) =~= s.offsets);
        trailer.write(&mut output);
        output
    }

    /// Appends a count after a marker whose high half is `mask`.
    fn write_count(&mut self, mask: u8, count: usize)
        ensures
            final(self)@ == (SerView {
                output: old(self)@.output + count_bytes(mask, count as nat),
                ..old(self)@
            }),
    {
        let p: u8 = if count < 0b1111 {
            count as u8
        } else {
            0b1111
        };
        self.output.push(mask | p);
        if p == 0b1111 {
            self.write_large_count(count);
        }
        assert(self@.output =~= old(self)@.output + count_bytes(mask, count as nat));
    }

    /// Appends a count as an integer object of the fewest bytes.
    fn write_large_count(&mut self, count: usize)
        ensures
            final(self)@ == (SerView {
                output: old(self)@.output + large_count_bytes(count as nat),
                ..old(self)@
            }),
    {
        proof {
            lemma_pow256_values();
        }
        if count <= 0xff {
            self.output.push(0b0001_0000_u8);
            push_be(&mut self.output, count as u128, 1);
        } else if count <= 0xffff {
            self.output.push(0b0001_0000_u8 | 1_u8);
            push_be(&mut self.output, count as u128, 2);
        } else if count as u64 <= 0xffff_ffff {
            self.output.push(0b0001_0000_u8 | 2_u8);
            push_be(&mut self.output, count as u128, 4);
        } else {
            self.output.push(0b0001_0000_u8 | 3_u8);
            push_be(&mut self.output, count as u128, 8);
        }
        assert(0b0001_0000_u8 | 1_u8 == 0x11u8) by (bit_vector);
        assert(0b0001_0000_u8 | 2_u8 == 0x12u8) by (bit_vector);
        assert(0b0001_0000_u8 | 3_u8 == 0x13u8) by (bit_vector);
        assert(self@.output =~= old(self)@.output + large_count_bytes(count as nat));
    }

    /// Appends an object reference of the serializer's reference size.
    fn write_object_index(&mut self, index: usize)
        requires
            is_ref_size(old(self)@.object_ref_size as int),
            index < pow256(old(self)@.object_ref_size as nat),
        ensures
            final(self)@ == (SerView {
                output: old(self)@.output + be_bytes(
                    index as nat,
                    old(self)@.object_ref_size as nat,
                ),
                ..old(self)@
            }),
    {
        write_varint(index, self.object_ref_size, &mut self.output);
    }
}

/// `seq_max` is at least every element.
pub proof fn lemma_seq_max(s: Seq<usize>, i: int)
    requires
        0 <= i < s.len(),
    ensures
        s[i] <= seq_max(s),
    decreases s.len(),
{
    if i < s.len() - 1 {
        lemma_seq_max(s.drop_last(), i);
    }
}

/// A value fits in the bytes that `spec_bytes_needed` gives it.
pub proof fn lemma_bytes_needed_fits(v: nat)
    ensures
        v <= 0xffff_ffff_ffff_ffff ==> v < pow256(spec_bytes_needed(v) as nat),
        is_ref_size(spec_bytes_needed(v) as int),
{
    lemma_pow256_values();
}

/// A larger value needs no fewer bytes.
pub proof fn lemma_bytes_needed_monotone(a: nat, b: nat)
    requires
        a <= b,
    ensures
        spec_bytes_needed(a) <= spec_bytes_needed(b),
        pow256(spec_bytes_needed(a) as nat) <= pow256(spec_bytes_needed(b) as nat),
{
    lemma_pow256_monotone(spec_bytes_needed(a) as nat, spec_bytes_needed(b) as nat);
}


/// Appends all of `b` to `output`.
fn push_all(output: &mut Vec<u8>, b: &[u8])
    ensures
        final(output)@ == old(output)@ + b@,
{
    let mut i: usize = 0;
    while i < b.len()
        invariant
            i <= b@.len(),
            output@ == old(output)@ + b@.take(i as int),
        decreases b@.len() - i,
    {
        output.push(b[i]);
        i = i + 1;
        assert(output@ =~= old(output)@ + b@.take(i as int));
    }
    assert(b@.take(i as int) =~= b@);
}

impl Serializer {
    /// Records that a new object begins here.
    fn begin_object(&mut self)
        ensures
            final(self)@ == old(self)@.push_object(seq![]),
    {
        let at = self.output.len();
        self.offsets.push(at);
        assert(self@.output =~= old(self)@.output + seq![]);
    }

    /// Writes a boolean.
    pub fn serialize_bool(&mut self, v: bool)
        ensures
            final(self)@ == old(self)@.push_object(bool_object(v)),
            old(self)@.wf() ==> final(self)@.wf(),
    {
        self.begin_object();
        self.output.push(if v { 0b0000_1001 } else { 0b0000_1000 });
        proof {
            assert(self@.output =~= old(self)@.output + bool_object(v));
            if old(self)@.wf() {
                lemma_magic_kept(old(self)@.output, bool_object(v));
            }
        }
    }

    /// Writes an unsigned integer of `2^p` bytes (`p` from 0 for `u8` to 4 for `u128`).
    pub fn serialize_unsigned(&mut self, v: u128, p: u8)
        requires
            p <= 4,
            v < pow256(pow2(p as nat)),
        ensures
            final(self)@ == old(self)@.push_object(unsigned_object(v as nat, p)),
            old(self)@.wf() ==> final(self)@.wf(),
    {
        self.begin_object();
        self.output.push(0b0001_0000_u8 | p);
        let n = pow2_usize(p);
        push_be(&mut self.output, v, n);
        proof {
            assert(self@.output =~= old(self)@.output + unsigned_object(v as nat, p));
            if old(self)@.wf() {
                lemma_magic_kept(old(self)@.output, unsigned_object(v as nat, p));
            }
        }
    }

    /// Writes a signed integer of `2^p` bytes in two's complement (`p` from 0 for `i8`
    /// to 4 for `i128`).
    pub fn serialize_signed(&mut self, v: i128, p: u8)
        requires
            p <= 4,
            -(pow256(pow2(p as nat)) as int) <= 2 * v < pow256(pow2(p as nat)),
        ensures
            final(self)@ == old(self)@.push_object(signed_object(v as int, p)),
            old(self)@.wf() ==> final(self)@.wf(),
    {
        self.begin_object();
        self.output.push(0b0001_0000_u8 | p);
        let n = pow2_usize(p);
        proof {
            reveal_with_fuel(pow2, 5);
        }
        let u = twos_complement(v, n);
        push_be(&mut self.output, u, n);
        proof {
            assert(self@.output =~= old(self)@.output + signed_object(v as int, p));
            if old(self)@.wf() {
                lemma_magic_kept(old(self)@.output, signed_object(v as int, p));
            }
        }
    }

    /// Writes a real number from its bits: single precision (`p` = 2, 4 bytes) or
    /// double precision (`p` = 3, 8 bytes).
    pub fn serialize_real(&mut self, bits: u64, p: u8)
        requires
            (p == 2 && bits <= u32::MAX) || p == 3,
        ensures
            final(self)@ == old(self)@.push_object(real_object(bits as nat, p)),
            old(self)@.wf() ==> final(self)@.wf(),
    {
        self.begin_object();
        self.output.push(0b0010_0000_u8 | p);
        let n = pow2_usize(p);
        push_be(&mut self.output, bits as u128, n);
        proof {
            assert(self@.output =~= old(self)@.output + real_object(bits as nat, p));
            if old(self)@.wf() {
                lemma_magic_kept(old(self)@.output, real_object(bits as nat, p));
            }
        }
    }

    /// Writes a string as UTF-8.
    pub fn serialize_str(&mut self, v: &str)
        ensures
            final(self)@ == old(self)@.push_object(str_object(v.spec_bytes())),
            old(self)@.wf() ==> final(self)@.wf(),
    {
        self.begin_object();
        let b = v.as_bytes();
        self.write_count(0b0111_0000, b.len());
        push_all(&mut self.output, b);
        proof {
            assert(self@.output =~= old(self)@.output + str_object(v.spec_bytes()));
            if old(self)@.wf() {
                lemma_magic_kept(old(self)@.output, str_object(v.spec_bytes()));
            }
        }
    }

    /// Writes bytes as a data object.
    pub fn serialize_bytes(&mut self, v: &[u8])
        ensures
            final(self)@ == old(self)@.push_object(bytes_object(v@)),
            old(self)@.wf() ==> final(self)@.wf(),
    {
        self.begin_object();
        self.write_count(0b0100_0000, v.len());
        push_all(&mut self.output, v);
        proof {
            assert(self@.output =~= old(self)@.output + bytes_object(v@));
            if old(self)@.wf() {
                lemma_magic_kept(old(self)@.output, bytes_object(v@));
            }
        }
    }

    /// Writes the null object.
    pub fn serialize_unit(&mut self)
        ensures
            final(self)@ == old(self)@.push_object(unit_object()),
            old(self)@.wf() ==> final(self)@.wf(),
    {
        self.begin_object();
        self.output.push(0b0000_0000_u8);
        proof {
            assert(self@.output =~= old(self)@.output + unit_object());
            if old(self)@.wf() {
                lemma_magic_kept(old(self)@.output, unit_object());
            }
        }
    }

    /// The number of objects begun so far.
    pub fn num_objects(&self) -> (r: usize)
        ensures
            r == self@.offsets.len(),
    {
        self.offsets.len()
    }

    /// Whether every reference in `refs` fits in the serializer's reference size.
    pub fn refs_fit(&self, refs: &Vec<usize>) -> (r: bool)
        requires
            is_ref_size(self@.object_ref_size as int),
        ensures
            r == forall|i: int|
                0 <= i < refs@.len() ==> #[trigger] refs@[i] < pow256(
                    self@.object_ref_size as nat,
                ),
    {
        let limit = max_ref(self.object_ref_size);
        let mut i: usize = 0;
        while i < refs.len()
            invariant
                i <= refs@.len(),
                limit == pow256(self@.object_ref_size as nat) - 1,
                forall|k: int|
                    0 <= k < i ==> #[trigger] refs@[k] < pow256(self@.object_ref_size as nat),
            decreases refs@.len() - i,
        {
            if refs[i] as u64 > limit {
                return false;
            }
            i = i + 1;
        }
        true
    }

    /// Writes the references `refs`.
    fn write_refs(&mut self, refs: &Vec<usize>)
        requires
            is_ref_size(old(self)@.object_ref_size as int),
            forall|i: int|
                0 <= i < refs@.len() ==> #[trigger] refs@[i] < pow256(
                    old(self)@.object_ref_size as nat,
                ),
        ensures
            final(self)@ == (SerView {
                output: old(self)@.output + refs_bytes(
                    refs@,
                    old(self)@.object_ref_size as nat,
                ),
                ..old(self)@
            }),
    {
        let ghost w = self@.object_ref_size as nat;
        let mut i: usize = 0;
        while i < refs.len()
            invariant
                i <= refs@.len(),
                is_ref_size(self@.object_ref_size as int),
                w == self@.object_ref_size as nat,
                forall|k: int| 0 <= k < refs@.len() ==> #[trigger] refs@[k] < pow256(w),
                self@ == (SerView {
                    output: old(self)@.output + refs_bytes(refs@.take(i as int), w),
                    ..old(self)@
                }),
            decreases refs@.len() - i,
        {
            assert(refs@.take(i + 1).drop_last() =~= refs@.take(i as int));
            self.write_object_index(refs[i]);
            i = i + 1;
            assert(self@.output =~= old(self)@.output + refs_bytes(refs@.take(i as int), w));
        }
        assert(refs@.take(i as int) =~= refs@);
    }
}

/// The largest reference that `size` bytes hold.
fn max_ref(size: u8) -> (r: u64)
    requires
        is_ref_size(size as int),
    ensures
        r == pow256(size as nat) - 1,
{
    proof {
        lemma_pow256_values();
    }
    if size == 1 {
        0xff
    } else if size == 2 {
        0xffff
    } else if size == 4 {
        0xffff_ffff
    } else {
        0xffff_ffff_ffff_ffff
    }
}

/// The state of an array being written: the index reserved for the array, and the
/// indices of its elements.
pub struct SeqSerView {
    pub index: usize,
    pub values: Seq<usize>,
}

/// Writer of an array: its elements are written first, then the array object.
pub struct SeqSerializer {
    index: usize,
    values: Vec<usize>,
}

impl View for SeqSerializer {
    type V = SeqSerView;

    closed spec fn view(&self) -> SeqSerView {
        SeqSerView { index: self.index, values: self.values@ }
    }
}

impl SeqSerializer {
    /// Begins an array: reserves the next index for it, so that the first container
    /// begun is the top object.
    pub fn new(parent: &mut Serializer, len: Option<usize>) -> (r: Self)
        ensures
            r@ == (SeqSerView { index: old(parent)@.offsets.len() as usize, values: seq![] }),
            final(parent)@ == (SerView {
                offsets: old(parent)@.offsets.push(usize::MAX),
                ..old(parent)@
            }),
    {
        // Reserve offset so that top object is always 0.
        let index = parent.offsets.len();
        parent.offsets.push(usize::MAX);
        let capacity = match len {
            Some(n) => n,
            None => 0,
        };
        Self { index, values: Vec::with_capacity(capacity) }
    }

    /// Records that the next object of `parent` is the array's next element.
    pub fn record_element(&mut self, parent: &Serializer)
        ensures
            final(self)@ == (SeqSerView {
                values: old(self)@.values.push(parent@.offsets.len() as usize),
                ..old(self)@
            }),
    {
        self.values.push(parent.offsets.len());
    }

    /// Whether `end` may be called with `parent`: the array's index is one of its
    /// objects and every element's index fits in a reference.
    pub fn can_end(&self, parent: &Serializer) -> (r: bool)
        requires
            is_ref_size(parent@.object_ref_size as int),
        ensures
            r == (self@.index < parent@.offsets.len() && forall|i: int|
                0 <= i < self@.values.len() ==> #[trigger] self@.values[i] < pow256(
                    parent@.object_ref_size as nat,
                )),
    {
        let fit = parent.refs_fit(&self.values);
        assert(self@.values == self.values@);
        self.index < parent.offsets.len() && fit
    }

    /// Ends the array: writes the array object and records where it begins.
    pub fn end(self, parent: &mut Serializer)
        requires
            old(parent)@.wf(),
            self@.index < old(parent)@.offsets.len(),
            forall|i: int|
                0 <= i < self@.values.len() ==> #[trigger] self@.values[i] < pow256(
                    old(parent)@.object_ref_size as nat,
                ),
        ensures
            final(parent)@ == (SerView {
                output: old(parent)@.output + array_object(
                    self@.values,
                    old(parent)@.object_ref_size as nat,
                ),
                offsets: old(parent)@.offsets.update(
                    self@.index as int,
                    old(parent)@.output.len() as usize,
                ),
                object_ref_size: old(parent)@.object_ref_size,
            }),
            final(parent)@.wf(),
    {
        let at = parent.output.len();
        parent.offsets.set(self.index, at);
        parent.write_count(0b1010_0000_u8, self.values.len());
        parent.write_refs(&self.values);
        proof {
            assert(parent@.output =~= old(parent)@.output + array_object(
                self@.values,
                old(parent)@.object_ref_size as nat,
            ));
            lemma_magic_kept(
                old(parent)@.output,
                array_object(self@.values, old(parent)@.object_ref_size as nat),
            );
        }
    }
}

/// The state of a dictionary being written: the index reserved for it, and the
/// indices of its keys and of its values.
pub struct MapSerView {
    pub index: usize,
    pub keys: Seq<usize>,
    pub values: Seq<usize>,
}

/// Writer of a dictionary: its keys and values are written first, then the
/// dictionary object.
pub struct MapSerializer {
    index: usize,
    keys: Vec<usize>,
    values: Vec<usize>,
}

impl View for MapSerializer {
    type V = MapSerView;

    closed spec fn view(&self) -> MapSerView {
        MapSerView { index: self.index, keys: self.keys@, values: self.values@ }
    }
}

impl MapSerializer {
    /// Begins a dictionary: reserves the next index for it.
    pub fn new(parent: &mut Serializer, len: Option<usize>) -> (r: Self)
        ensures
            r@ == (MapSerView {
                index: old(parent)@.offsets.len() as usize,
                keys: seq![],
                values: seq![],
            }),
            final(parent)@ == (SerView {
                offsets: old(parent)@.offsets.push(usize::MAX),
                ..old(parent)@
            }),
    {
        // Reserve offset so that top object is always 0.
        let index = parent.offsets.len();
        parent.offsets.push(usize::MAX);
        let capacity = match len {
            Some(n) => n,
            None => 0,
        };
        Self { index, keys: Vec::with_capacity(capacity), values: Vec::with_capacity(capacity) }
    }

    /// Records that the next object of `parent` is the dictionary's next key.
    pub fn record_key(&mut self, parent: &Serializer)
        ensures
            final(self)@ == (MapSerView {
                keys: old(self)@.keys.push(parent@.offsets.len() as usize),
                ..old(self)@
            }),
    {
        self.keys.push(parent.offsets.len());
    }

    /// Records that the next object of `parent` is the dictionary's next value.
    pub fn record_value(&mut self, parent: &Serializer)
        ensures
            final(self)@ == (MapSerView {
                values: old(self)@.values.push(parent@.offsets.len() as usize),
                ..old(self)@
            }),
    {
        self.values.push(parent.offsets.len());
    }

    /// Whether `end` may be called with `parent`: the dictionary's index is one of
    /// its objects and every key's and value's index fits in a reference.
    pub fn can_end(&self, parent: &Serializer) -> (r: bool)
        requires
            is_ref_size(parent@.object_ref_size as int),
        ensures
            r == (self@.index < parent@.offsets.len() && (forall|i: int|
                0 <= i < self@.keys.len() ==> #[trigger] self@.keys[i] < pow256(
                    parent@.object_ref_size as nat,
                )) && forall|i: int|
                0 <= i < self@.values.len() ==> #[trigger] self@.values[i] < pow256(
                    parent@.object_ref_size as nat,
                )),
    {
        let keys_fit = parent.refs_fit(&self.keys);
        let values_fit = parent.refs_fit(&self.values);
        assert(self@.keys == self.keys@ && self@.values == self.values@);
        self.index < parent.offsets.len() && keys_fit && values_fit
    }

    /// Ends the dictionary: writes the dictionary object and records where it begins.
    pub fn end(self, parent: &mut Serializer)
        requires
            old(parent)@.wf(),
            self@.index < old(parent)@.offsets.len(),
            forall|i: int|
                0 <= i < self@.keys.len() ==> #[trigger] self@.keys[i] < pow256(
                    old(parent)@.object_ref_size as nat,
                ),
            forall|i: int|
                0 <= i < self@.values.len() ==> #[trigger] self@.values[i] < pow256(
                    old(parent)@.object_ref_size as nat,
                ),
        ensures
            final(parent)@ == (SerView {
                output: old(parent)@.output + dict_object(
                    self@.keys,
                    self@.values,
                    old(parent)@.object_ref_size as nat,
                ),
                offsets: old(parent)@.offsets.update(
                    self@.index as int,
                    old(parent)@.output.len() as usize,
                ),
                object_ref_size: old(parent)@.object_ref_size,
            }),
            final(parent)@.wf(),
    {
        let at = parent.output.len();
        parent.offsets.set(self.index, at);
        parent.write_count(0b1101_0000_u8, self.keys.len());
        parent.write_refs(&self.keys);
        parent.write_refs(&self.values);
        proof {
            let w = old(parent)@.object_ref_size as nat;
            assert(parent@.output =~= old(parent)@.output + dict_object(
                self@.keys,
                self@.values,
                w,
            ));
            lemma_magic_kept(old(parent)@.output, dict_object(self@.keys, self@.values, w));
        }
    }
}

/// The writer for enum variants with fields, which the format does not support.
pub struct Unimplemented;

} // verus!
