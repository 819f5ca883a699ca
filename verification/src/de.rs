//! The reader: finds objects through the trailer and the offset table, and decodes
//! the object that a deserializer points at.
use vstd::prelude::*;

use crate::bytes::{
    be_signed, be_value, is_int_width, lemma_be_value_bound, lemma_pow256_monotone,
    lemma_pow256_values, pow2, pow2_usize, read_be, read_be_signed,
};
use crate::error::InvalidPropertyList;
use crate::text::{is_scalar_value, utf16_decoding, Text};
use crate::trailer::{is_ref_size, trailer_from_bytes, Trailer};
use vstd::utf8::{decode_utf8, valid_utf8};

verus! {

/// What a fallible step gave: its value, or `None` for an error.
pub open spec fn outcome<T>(r: Result<T, InvalidPropertyList>) -> Option<T> {
    match r {
        Ok(v) => Some(v),
        Err(_) => None,
    }
}

/// What a step that makes a deserializer gave: its state, or `None` for an error.
pub open spec fn de_outcome<'a>(r: Result<Deserializer<'a>, InvalidPropertyList>) -> Option<
    DeView,
> {
    match r {
        Ok(de) => Some(de@),
        Err(_) => None,
    }
}

/// The value of an offset or an object reference: a big-endian number of 1, 2, 4
/// or 8 bytes.
pub open spec fn spec_u64_from_bytes(b: Seq<u8>) -> Option<u64> {
    if is_ref_size(b.len() as int) {
        Some(be_value(b) as u64)
    } else {
        None
    }
}

/// An unsigned integer of 1, 2, 4, 8 or 16 big-endian bytes, where it is at most `max`.
pub open spec fn spec_uint_from_bytes(b: Seq<u8>, max: u128) -> Option<u128> {
    if is_int_width(b.len() as int) && be_value(b) <= max {
        Some(be_value(b) as u128)
    } else {
        None
    }
}

/// A two's-complement integer of 1, 2, 4, 8 or 16 big-endian bytes, where it lies
/// in `min..=max`.
pub open spec fn spec_int_from_bytes(b: Seq<u8>, min: i128, max: i128) -> Option<i128> {
    if is_int_width(b.len() as int) && min <= be_signed(b) <= max {
        Some(be_signed(b) as i128)
    } else {
        None
    }
}

/// Reads an offset or object reference: 1, 2, 4 or 8 big-endian bytes.
pub fn u64_from_bytes(bytes: &[u8]) -> (r: Result<u64, InvalidPropertyList>)
    ensures
        outcome(r) == spec_u64_from_bytes(bytes@),
{
    let n = bytes.len();
    if n == 1 || n == 2 || n == 4 || n == 8 {
        proof {
            lemma_be_value_bound(bytes@);
            lemma_pow256_monotone(n as nat, 8);
            lemma_pow256_values();
        }
        Ok(read_be(bytes) as u64)
    } else {
        Err(InvalidPropertyList)
    }
}

/// Reads an unsigned integer of 1, 2, 4, 8 or 16 bytes that must not exceed `max`
/// (the largest value of the type that it is read into).
pub fn uint_from_bytes(bytes: &[u8], max: u128) -> (r: Result<u128, InvalidPropertyList>)
    ensures
        outcome(r) == spec_uint_from_bytes(bytes@, max),
{
    let n = bytes.len();
    if n == 1 || n == 2 || n == 4 || n == 8 || n == 16 {
        let v = read_be(bytes);
        if v <= max {
            Ok(v)
        } else {
            Err(InvalidPropertyList)
        }
    } else {
        Err(InvalidPropertyList)
    }
}

/// Reads a two's-complement integer of 1, 2, 4, 8 or 16 bytes that must lie in
/// `min..=max` (the range of the type that it is read into).
pub fn int_from_bytes(bytes: &[u8], min: i128, max: i128) -> (r: Result<
    i128,
    InvalidPropertyList,
>)
    ensures
        outcome(r) == spec_int_from_bytes(bytes@, min, max),
{
    let n = bytes.len();
    if n == 1 || n == 2 || n == 4 || n == 8 || n == 16 {
        let v = read_be_signed(bytes);
        if min <= v && v <= max {
            Ok(v)
        } else {
            Err(InvalidPropertyList)
        }
    } else {
        Err(InvalidPropertyList)
    }
}

/// The state of a deserializer: the objects' bytes (the input without its trailer),
/// the bytes that it has yet to read of its object, the trailer, and how many more
/// levels of nesting it may enter.
pub struct DeView {
    pub data: Seq<u8>,
    pub slice: Seq<u8>,
    pub trailer: Trailer,
    pub level: u32,
}

impl DeView {
    pub open spec fn with_slice(self, slice: Seq<u8>) -> DeView {
        DeView { slice, ..self }
    }

    /// The same deserializer with `level` nesting levels left.
    pub open spec fn with_level(self, level: u32) -> DeView {
        DeView { level, ..self }
    }
}

/// The bytes `bplist` with which every binary property list begins.
pub open spec fn has_magic(data: Seq<u8>) -> bool {
    data.len() >= 6 && data.take(6) == seq![98u8, 112u8, 108u8, 105u8, 115u8, 116u8]
}

/// Where the offset table says that object `index` begins: the entry of
/// `offset_int_size` bytes at position `index` of the table, which starts at the
/// trailer's offset and must lie within `data`.
pub open spec fn spec_object_offset(data: Seq<u8>, t: Trailer, index: nat) -> Option<u64> {
    let table = (t.offset_table_offset as usize) as nat;
    let size = t.offset_int_size as nat;
    let start = table + index * size;
    if table <= data.len() && start + size <= data.len() {
        spec_u64_from_bytes(data.subrange(start as int, (start + size) as int))
    } else {
        None
    }
}

/// The bytes of object `index`: from its offset to the start of the offset table.
pub open spec fn spec_object_slice(data: Seq<u8>, t: Trailer, index: nat) -> Option<Seq<u8>> {
    let table = (t.offset_table_offset as usize) as nat;
    match spec_object_offset(data, t, index) {
        Some(offset) => if offset <= table {
            Some(data.subrange(offset as int, table as int))
        } else {
            None
        },
        None => None,
    }
}

/// The deserializer for object `index`, `level` nesting levels left.
pub open spec fn spec_for_object(data: Seq<u8>, t: Trailer, index: nat, level: u32) -> Option<
    DeView,
> {
    match spec_object_slice(data, t, index) {
        Some(slice) => Some(DeView { data, slice, trailer: t, level }),
        None => None,
    }
}

/// The deserializer for the top object of the property list `data`: the input must
/// begin with `bplist` and end with a valid trailer.
pub open spec fn spec_from_slice(data: Seq<u8>, max_recursion: u32) -> Option<DeView> {
    if !has_magic(data) || data.len() < Trailer::LEN {
        None
    } else {
        let body = data.take(data.len() - Trailer::LEN);
        let t = trailer_from_bytes(data.skip(data.len() - Trailer::LEN));
        if !t.valid() {
            None
        } else {
            spec_for_object(body, t, (t.top_object as usize) as nat, max_recursion)
        }
    }
}

/// `s` without the fill bytes (`0x0f`) that may precede an object's marker.
pub open spec fn skip_pad(s: Seq<u8>) -> Seq<u8>
    decreases s.len(),
{
    if s.len() > 0 && s[0] == 0x0f {
        skip_pad(s.drop_first())
    } else {
        s
    }
}

/// Reading a marker byte after the fill: the marker and the bytes left after it.
pub open spec fn spec_marker(s: Seq<u8>) -> (Option<u8>, Seq<u8>) {
    let t = skip_pad(s);
    if t.len() == 0 {
        (None, t)
    } else {
        (Some(t[0]), t.drop_first())
    }
}

/// Reading an unsigned integer of `n` bytes, at most `max`: the value and the bytes
/// left. The bytes are consumed even where the value is refused.
pub open spec fn spec_parse_uint(s: Seq<u8>, n: nat, max: u128) -> (Option<u128>, Seq<u8>) {
    if n <= s.len() {
        (spec_uint_from_bytes(s.take(n as int), max), s.skip(n as int))
    } else {
        (None, s)
    }
}

/// Reading a two's-complement integer of `n` bytes in `min..=max`.
pub open spec fn spec_parse_int(s: Seq<u8>, n: nat, min: i128, max: i128) -> (
    Option<i128>,
    Seq<u8>,
) {
    if n <= s.len() {
        (spec_int_from_bytes(s.take(n as int), min, max), s.skip(n as int))
    } else {
        (None, s)
    }
}

/// Reading the element count of an object whose marker holds `p` in its low half:
/// `p` itself below 15; at 15, an integer object that follows (a marker `0x1q`
/// and `2^q` bytes).
pub open spec fn spec_parse_count(s: Seq<u8>, p: u8) -> (Option<usize>, Seq<u8>) {
    if p == 15 {
        let (m, s1) = spec_marker(s);
        match m {
            Some(m) => if m >> 4u8 == 1 {
                let (v, s2) = spec_parse_uint(s1, pow2((m & 15u8) as nat), usize::MAX as u128);
                match v {
                    Some(v) => (Some(v as usize), s2),
                    None => (None, s2),
                }
            } else {
                (None, s1)
            },
            None => (None, s1),
        }
    } else {
        (Some(p as usize), s)
    }
}

/// Property list deserializer.
pub struct Deserializer<'a> {
    // All data.
    data: &'a [u8],
    // Particular slice that we read currently.
    slice: &'a [u8],
    trailer: Trailer,
    level: u32,
}

impl<'a> View for Deserializer<'a> {
    type V = DeView;

    closed spec fn view(&self) -> DeView {
        DeView { data: self.data@, slice: self.slice@, trailer: self.trailer, level: self.level }
    }
}

impl<'a> Deserializer<'a> {
    /// Every deserializer reads under a valid trailer.
    #[verifier::type_invariant]
    spec fn inv(&self) -> bool {
        self.trailer.valid()
    }

    /// Create new deserializer from the provided slice.
    ///
    /// `max_recursion` controls how many nesting levels an object being deserialized can have.
    pub fn from_slice(data: &'a [u8], max_recursion: u32) -> (r: Result<
        Self,
        InvalidPropertyList,
    >)
        ensures
            match r {
                Ok(de) => spec_from_slice(data@, max_recursion) == Some(de@),
                Err(_) => spec_from_slice(data@, max_recursion) is None,
            },
    {
        let n = data.len();
        if n < 6 || data[0] != 98 || data[1] != 112 || data[2] != 108 || data[3] != 105
            || data[4] != 115 || data[5] != 116 {
            proof {
                if n >= 6 {
                    let m = seq![98u8, 112u8, 108u8, 105u8, 115u8, 116u8];
                    if data@.take(6) == m {
                        assert(data@[0] == data@.take(6)[0]);
                        assert(data@[1] == data@.take(6)[1]);
                        assert(data@[2] == data@.take(6)[2]);
                        assert(data@[3] == data@.take(6)[3]);
                        assert(data@[4] == data@.take(6)[4]);
                        assert(data@[5] == data@.take(6)[5]);
                    }
                }
            }
            return Err(InvalidPropertyList);
        }
        assert(data@.take(6) =~= seq![98u8, 112u8, 108u8, 105u8, 115u8, 116u8]);
        if n < Trailer::LEN {
            return Err(InvalidPropertyList);
        }
        let trailer_offset = n - Trailer::LEN;
        let (body, t) = data.split_at(trailer_offset);
        let trailer_bytes: [u8; 32] = [
            t[0], t[1], t[2], t[3], t[4], t[5], t[6], t[7], t[8], t[9], t[10], t[11], t[12],
            t[13], t[14], t[15], t[16], t[17], t[18], t[19], t[20], t[21], t[22], t[23], t[24],
            t[25], t[26], t[27], t[28], t[29], t[30], t[31],
        ];
        assert(trailer_bytes@ =~= data@.skip(trailer_offset as int));
        let trailer = Trailer::parse(&trailer_bytes)?;
        let top_object = trailer.top_object as usize;
        Self::for_object(body, trailer, top_object, max_recursion)
    }

    /// The deserializer for object `object_index` of `data`.
    pub fn for_object(data: &'a [u8], trailer: Trailer, object_index: usize, level: u32) -> (r:
        Result<Self, InvalidPropertyList>)
        requires
            trailer.valid(),
        ensures
            match r {
                Ok(de) => spec_for_object(data@, trailer, object_index as nat, level) == Some(
                    de@,
                ),
                Err(_) => spec_for_object(data@, trailer, object_index as nat, level) is None,
            },
    {
        let table = trailer.offset_table_offset as usize;
        if table > data.len() {
            return Err(InvalidPropertyList);
        }
        let size = trailer.offset_int_size as usize;
        let start = match object_index.checked_mul(size) {
            Some(x) => x,
            None => {
                assert(object_index * size > usize::MAX) by (nonlinear_arith)
                    requires
                        object_index * size > usize::MAX || object_index * size < 0,
                        object_index >= 0,
                        size >= 0,
                ;
                return Err(InvalidPropertyList);
            },
        };
        if start > data.len() - table || size > data.len() - table - start {
            return Err(InvalidPropertyList);
        }
        let entry = vstd::slice::slice_subrange(data, table + start, table + start + size);
        let object_offset = u64_from_bytes(entry)?;
        if object_offset > table as u64 {
            return Err(InvalidPropertyList);
        }
        let slice = vstd::slice::slice_subrange(data, object_offset as usize, table);
        Ok(Self { data, slice, trailer, level })
    }

    /// Drops the fill bytes before the next marker.
    pub fn skip_padding(&mut self)
        ensures
            final(self)@ == old(self)@.with_slice(skip_pad(old(self)@.slice)),
    {
        while self.slice.len() > 0 && self.slice[0] == 0x0f
            invariant
                self@.data == old(self)@.data,
                self@.trailer == old(self)@.trailer,
                self@.level == old(self)@.level,
                skip_pad(self@.slice) == skip_pad(old(self)@.slice),
            decreases self@.slice.len(),
        {
            proof {
                use_type_invariant(&*self);
            }
            let ghost prev = self@.slice;
            self.slice = vstd::slice::slice_subrange(self.slice, 1, self.slice.len());
            assert(self@.slice =~= prev.drop_first());
        }
    }

    /// Takes the first `n` bytes of the object, where there are that many.
    fn take_front(&mut self, n: usize) -> (r: Option<&'a [u8]>)
        ensures
            r is Some <==> n <= old(self)@.slice.len(),
            r matches Some(b) ==> b@ == old(self)@.slice.take(n as int) && final(self)@ == old(
                self,
            )@.with_slice(old(self)@.slice.skip(n as int)),
            r is None ==> final(self)@ == old(self)@,
    {
        proof {
            use_type_invariant(&*self);
        }
        if n <= self.slice.len() {
            let (b, rest) = self.slice.split_at(n);
            self.slice = rest;
            Some(b)
        } else {
            None
        }
    }

    /// Reads the marker byte of the next object.
    pub fn parse_marker(&mut self) -> (r: Result<u8, InvalidPropertyList>)
        ensures
            outcome(r) == spec_marker(old(self)@.slice).0,
            final(self)@ == old(self)@.with_slice(spec_marker(old(self)@.slice).1),
    {
        self.skip_padding();
        match self.take_front(1) {
            Some(b) => Ok(b[0]),
            None => Err(InvalidPropertyList),
        }
    }

    /// Reads an unsigned integer of `num_bytes` bytes that must not exceed `max`.
    pub fn parse_uint(&mut self, num_bytes: usize, max: u128) -> (r: Result<
        u128,
        InvalidPropertyList,
    >)
        ensures
            outcome(r) == spec_parse_uint(old(self)@.slice, num_bytes as nat, max).0,
            final(self)@ == old(self)@.with_slice(
                spec_parse_uint(old(self)@.slice, num_bytes as nat, max).1,
            ),
    {
        match self.take_front(num_bytes) {
            Some(b) => uint_from_bytes(b, max),
            None => Err(InvalidPropertyList),
        }
    }

    /// Reads a two's-complement integer of `num_bytes` bytes in `min..=max`.
    pub fn parse_int(&mut self, num_bytes: usize, min: i128, max: i128) -> (r: Result<
        i128,
        InvalidPropertyList,
    >)
        ensures
            outcome(r) == spec_parse_int(old(self)@.slice, num_bytes as nat, min, max).0,
            final(self)@ == old(self)@.with_slice(
                spec_parse_int(old(self)@.slice, num_bytes as nat, min, max).1,
            ),
    {
        match self.take_front(num_bytes) {
            Some(b) => int_from_bytes(b, min, max),
            None => Err(InvalidPropertyList),
        }
    }

    /// Reads the element count of an object whose marker holds `p` in its low half.
    pub fn parse_count(&mut self, p: u8) -> (r: Result<usize, InvalidPropertyList>)
        ensures
            outcome(r) == spec_parse_count(old(self)@.slice, p).0,
            final(self)@ == old(self)@.with_slice(spec_parse_count(old(self)@.slice, p).1),
    {
        if p == 0b1111 {
            let marker = self.parse_marker()?;
            if marker >> 4u8 != 0b0001 {
                return Err(InvalidPropertyList);
            }
            let q = marker & 0b1111u8;
            assert(q <= 15) by (bit_vector)
                requires
                    q == marker & 0b1111u8,
            ;
            let n = pow2_usize(q);
            let v = self.parse_uint(n, usize::MAX as u128)?;
            Ok(v as usize)
        } else {
            Ok(p as usize)
        }
    }
}


/// The state of a dictionary reader: the key references, the value references, the
/// size of one reference, how many keys and values it has handed out, and the
/// deserializer that it reads with.
pub struct DictView {
    pub keys: Seq<u8>,
    pub values: Seq<u8>,
    pub elem_len: usize,
    pub next_key: nat,
    pub next_value: nat,
    pub de: DeView,
}

/// The state of an array reader: the element references, the size of one reference,
/// how many elements it has handed out, and the deserializer that it reads with.
pub struct SeqView {
    pub values: Seq<u8>,
    pub elem_len: usize,
    pub next: nat,
    pub de: DeView,
}

/// Reading the body of a dictionary whose marker holds `p`: its count `n`, then `n`
/// key references and `n` value references of the trailer's reference size.
pub open spec fn spec_parse_dict(d: DeView, p: u8) -> Option<DictView> {
    let (len, s1) = spec_parse_count(d.slice, p);
    match len {
        Some(len) => {
            let e = d.trailer.object_ref_size as nat;
            let half = len * e;
            if 2 * half <= s1.len() {
                Some(
                    DictView {
                        keys: s1.take(half as int),
                        values: s1.subrange(half as int, 2 * half),
                        elem_len: e as usize,
                        next_key: 0,
                        next_value: 0,
                        de: d.with_slice(s1.skip(2 * half)),
                    },
                )
            } else {
                None
            }
        },
        None => None,
    }
}

/// Reading the body of an array or set whose marker holds `p`: its count `n`, then
/// `n` element references.
pub open spec fn spec_parse_seq(d: DeView, p: u8) -> Option<SeqView> {
    let (len, s1) = spec_parse_count(d.slice, p);
    match len {
        Some(len) => {
            let e = d.trailer.object_ref_size as nat;
            let total = len * e;
            if total <= s1.len() {
                Some(
                    SeqView {
                        values: s1.take(total as int),
                        elem_len: e as usize,
                        next: 0,
                        de: d.with_slice(s1.skip(total as int)),
                    },
                )
            } else {
                None
            }
        },
        None => None,
    }
}

/// Reference number `index` of a list of references of `e` bytes each, where the
/// list holds that many whole references.
pub open spec fn spec_ref_chunk(region: Seq<u8>, index: nat, e: nat) -> Option<Seq<u8>> {
    if (index + 1) * e <= region.len() {
        Some(region.subrange((index * e) as int, (index * e + e) as int))
    } else {
        None
    }
}

/// The deserializer for the object that the reference `chunk` names, one nesting
/// level deeper than `d`: the reference must name one of the objects, and a level
/// must be left.
pub open spec fn spec_child(d: DeView, chunk: Seq<u8>) -> Option<DeView> {
    match spec_u64_from_bytes(chunk) {
        Some(r) => if r >= d.trailer.num_objects || d.level == 0 {
            None
        } else {
            spec_for_object(d.data, d.trailer, (r as usize) as nat, (d.level - 1) as u32)
        },
        None => None,
    }
}

/// An unsigned integer as it was stored: of 1, 2, 4, 8 or 16 bytes.
#[derive(Debug, Clone, Copy, PartialEq, Eq)]
pub enum UnsignedValue {
    U8(u8),
    U16(u16),
    U32(u32),
    U64(u64),
    U128(u128),
}

/// The bit pattern of a real number, single or double precision.
#[derive(Debug, Clone, Copy, PartialEq, Eq)]
pub enum RealBits {
    Single(u32),
    Double(u64),
}

/// An integer read from a property list: a number, or the bit pattern of the
/// double-precision seconds of a date, which the caller converts.
#[derive(Debug, PartialEq, Eq)]
pub enum Integer<T> {
    Value(T),
    Date(u64),
}

/// The unsigned integer that the bytes `b` store, by their width.
pub open spec fn spec_unsigned_value(b: Seq<u8>) -> Option<UnsignedValue> {
    if b.len() == 1 {
        Some(UnsignedValue::U8(be_value(b) as u8))
    } else if b.len() == 2 {
        Some(UnsignedValue::U16(be_value(b) as u16))
    } else if b.len() == 4 {
        Some(UnsignedValue::U32(be_value(b) as u32))
    } else if b.len() == 8 {
        Some(UnsignedValue::U64(be_value(b) as u64))
    } else if b.len() == 16 {
        Some(UnsignedValue::U128(be_value(b) as u128))
    } else {
        None
    }
}

/// The real number bits that the bytes `b` store: 4 bytes single, 8 bytes double.
pub open spec fn spec_real_value(b: Seq<u8>) -> Option<RealBits> {
    if b.len() == 4 {
        Some(RealBits::Single(be_value(b) as u32))
    } else if b.len() == 8 {
        Some(RealBits::Double(be_value(b) as u64))
    } else {
        None
    }
}

/// Reading `n` bytes.
pub open spec fn spec_take(s: Seq<u8>, n: nat) -> (Option<Seq<u8>>, Seq<u8>) {
    if n <= s.len() {
        (Some(s.take(n as int)), s.skip(n as int))
    } else {
        (None, s)
    }
}

/// Reading a real number of `2^p` bytes.
pub open spec fn spec_parse_real(s: Seq<u8>, p: u8) -> (Option<RealBits>, Seq<u8>) {
    let (b, rest) = spec_take(s, pow2(p as nat));
    match b {
        Some(b) => (spec_real_value(b), rest),
        None => (None, rest),
    }
}

/// Reading a date: the 8 bytes of a double.
pub open spec fn spec_parse_date(s: Seq<u8>) -> (Option<u64>, Seq<u8>) {
    let (b, rest) = spec_take(s, 8);
    match b {
        Some(b) => (Some(be_value(b) as u64), rest),
        None => (None, rest),
    }
}

/// Reading the body of a data or string object whose marker holds `p`: its count,
/// then that many bytes.
pub open spec fn spec_parse_bytes(s: Seq<u8>, p: u8) -> (Option<Seq<u8>>, Seq<u8>) {
    let (len, s1) = spec_parse_count(s, p);
    match len {
        Some(len) => spec_take(s1, len as nat),
        None => (None, s1),
    }
}

/// Reading a UTF-8 string whose marker holds `p`.
pub open spec fn spec_parse_utf8_string(s: Seq<u8>, p: u8) -> (Option<Seq<char>>, Seq<u8>) {
    let (b, rest) = spec_parse_bytes(s, p);
    match b {
        Some(b) => if valid_utf8(b) {
            (Some(decode_utf8(b)), rest)
        } else {
            (None, rest)
        },
        None => (None, rest),
    }
}

/// The big-endian 16-bit code units that the bytes `b` hold, two bytes each.
pub open spec fn utf16_units(b: Seq<u8>) -> Seq<u16> {
    Seq::new(b.len() / 2, |i: int| (b[2 * i] * 256 + b[2 * i + 1]) as u16)
}

/// Reading a UTF-16 string whose marker holds `p`: `2 * p` is taken as its byte
/// count, so a marker of 15 or more code units does not read an extended count.
pub open spec fn spec_parse_utf16_string(s: Seq<u8>, p: u8) -> (Option<Seq<char>>, Seq<u8>) {
    let (b, rest) = spec_parse_bytes(s, (2 * p) as u8);
    match b {
        Some(b) => if b.len() % 2 != 0 {
            (None, rest)
        } else {
            (utf16_decoding(utf16_units(b)), rest)
        },
        None => (None, rest),
    }
}

/// Reading a string object, marker included: ASCII (`0x5`) and UTF-8 (`0x7`)
/// strings as UTF-8, UTF-16 (`0x6`) strings as UTF-16.
pub open spec fn spec_parse_string(s: Seq<u8>) -> (Option<Seq<char>>, Seq<u8>) {
    let (m, s1) = spec_marker(s);
    match m {
        Some(m) => {
            let hi = m >> 4u8;
            let p = m & 15u8;
            if hi == 5 || hi == 7 {
                spec_parse_utf8_string(s1, p)
            } else if hi == 6 {
                spec_parse_utf16_string(s1, p)
            } else {
                (None, s1)
            }
        },
        None => (None, s1),
    }
}

/// Whether reading a string object, marker included, borrows its characters from the
/// input: ASCII (`0x5`) and UTF-8 (`0x7`) strings are borrowed; UTF-16 strings are
/// decoded into a new string.
pub open spec fn string_is_borrowed(s: Seq<u8>) -> bool {
    match spec_marker(s).0 {
        Some(m) => m >> 4u8 == 5 || m >> 4u8 == 7,
        None => false,
    }
}

/// Whether `deserialize_str` borrows the string it reads from the input: data,
/// ASCII and UTF-8 strings are borrowed, and a whole URL (`0x0D`) whose string is
/// ASCII or UTF-8; UTF-16 strings and URLs with a base are new strings.
pub open spec fn str_is_borrowed(s: Seq<u8>) -> bool {
    let (m, s1) = spec_marker(s);
    match m {
        Some(m) => {
            let hi = m >> 4u8;
            hi == 4 || hi == 5 || hi == 7 || (m == 0x0d && string_is_borrowed(s1))
        },
        None => false,
    }
}

/// Whether `deserialize_enum` borrows the variant's name from the input: data,
/// ASCII and UTF-8 strings are borrowed, UTF-16 strings are not.
pub open spec fn enum_name_is_borrowed(s: Seq<u8>) -> bool {
    match spec_marker(s).0 {
        Some(m) => m >> 4u8 == 4 || m >> 4u8 == 5 || m >> 4u8 == 7,
        None => false,
    }
}

/// A URL from its base and its path: a `/` goes between them unless the base ends
/// with one or the path begins with one.
pub open spec fn join_url(base: Seq<char>, path: Seq<char>) -> Seq<char> {
    if !(base.len() > 0 && base.last() == '/') && !(path.len() > 0 && path[0] == '/') {
        base + seq!['/'] + path
    } else {
        base + path
    }
}

/// Reading a URL given as a base string and a path string.
pub open spec fn spec_parse_url_with_base(s: Seq<u8>) -> (Option<Seq<char>>, Seq<u8>) {
    let (base, s1) = spec_parse_string(s);
    match base {
        Some(base) => {
            let (path, s2) = spec_parse_string(s1);
            match path {
                Some(path) => (Some(join_url(base, path)), s2),
                None => (None, s2),
            }
        },
        None => (None, s1),
    }
}

impl<'a> Deserializer<'a> {
    /// Reads the body of a dictionary whose marker holds `p`.
    pub fn parse_dict(self, p: u8) -> (r: Result<DictParser<'a>, InvalidPropertyList>)
        ensures
            match r {
                Ok(d) => spec_parse_dict(self@, p) == Some(d@),
                Err(_) => spec_parse_dict(self@, p) is None,
            },
    {
        proof {
            use_type_invariant(&self);
        }
        let ghost d0 = self@;
        let mut this = self;
        let len = this.parse_count(p)?;
        let avail = this.slice.len();
        let elem_len = this.trailer.object_ref_size as usize;
        let half = match len.checked_mul(elem_len) {
            Some(x) => x,
            None => {
                proof {
                    assert(len * elem_len > usize::MAX) by (nonlinear_arith)
                        requires
                            len * elem_len > usize::MAX || len * elem_len < 0,
                            len >= 0,
                            elem_len >= 0,
                    ;
                }
                return Err(InvalidPropertyList);
            },
        };
        let dict_end = match half.checked_mul(2) {
            Some(x) => x,
            None => {
                return Err(InvalidPropertyList);
            },
        };
        proof {
            assert(this@.slice.len() == avail);
        }
        let dict_bytes = match this.take_front(dict_end) {
            Some(b) => b,
            None => {
                return Err(InvalidPropertyList);
            },
        };
        let (keys, values) = dict_bytes.split_at(half);
        proof {
            assert(keys@ =~= spec_parse_count(d0.slice, p).1.take(half as int));
            assert(values@ =~= spec_parse_count(d0.slice, p).1.subrange(half as int, 2 * half));
        }
        let de = this;
        Ok(DictParser { keys, values, elem_len, next_key: 0, next_value: 0, de })
    }

    /// Reads the body of an array or set whose marker holds `p`.
    pub fn parse_seq(self, p: u8) -> (r: Result<SeqParser<'a>, InvalidPropertyList>)
        ensures
            match r {
                Ok(d) => spec_parse_seq(self@, p) == Some(d@),
                Err(_) => spec_parse_seq(self@, p) is None,
            },
    {
        proof {
            use_type_invariant(&self);
        }
        let mut this = self;
        let len = this.parse_count(p)?;
        let avail = this.slice.len();
        let elem_len = this.trailer.object_ref_size as usize;
        let end = match len.checked_mul(elem_len) {
            Some(x) => x,
            None => {
                proof {
                    assert(len * elem_len > usize::MAX) by (nonlinear_arith)
                        requires
                            len * elem_len > usize::MAX || len * elem_len < 0,
                            len >= 0,
                            elem_len >= 0,
                    ;
                }
                return Err(InvalidPropertyList);
            },
        };
        proof {
            assert(this@.slice.len() == avail);
        }
        let values = match this.take_front(end) {
            Some(b) => b,
            None => {
                return Err(InvalidPropertyList);
            },
        };
        let de = this;
        Ok(SeqParser { values, elem_len, next: 0, de })
    }
}

/// Reader of a dictionary's keys and values, in turn.
pub struct DictParser<'a> {
    keys: &'a [u8],
    values: &'a [u8],
    elem_len: usize,
    next_key: usize,
    next_value: usize,
    de: Deserializer<'a>,
}

impl<'a> View for DictParser<'a> {
    type V = DictView;

    closed spec fn view(&self) -> DictView {
        DictView {
            keys: self.keys@,
            values: self.values@,
            elem_len: self.elem_len,
            next_key: self.next_key as nat,
            next_value: self.next_value as nat,
            de: self.de@,
        }
    }
}

/// Reader of an array's elements, in turn.
pub struct SeqParser<'a> {
    values: &'a [u8],
    elem_len: usize,
    next: usize,
    de: Deserializer<'a>,
}

impl<'a> View for SeqParser<'a> {
    type V = SeqView;

    closed spec fn view(&self) -> SeqView {
        SeqView { values: self.values@, elem_len: self.elem_len, next: self.next as nat, de: self.de@ }
    }
}


impl<'a> DictParser<'a> {
    /// Every dictionary reader reads references of the trailer's reference size.
    #[verifier::type_invariant]
    spec fn inv(&self) -> bool {
        self.elem_len == self.de.trailer.object_ref_size && self.elem_len >= 1
    }

    /// The deserializer for the next key, or `None` after the last key.
    pub fn next_key(&mut self) -> (r: Result<Option<Deserializer<'a>>, InvalidPropertyList>)
        ensures
            match spec_ref_chunk(old(self)@.keys, old(self)@.next_key, old(self)@.elem_len as nat) {
                Some(chunk) => {
                    &&& final(self)@ == DictView { next_key: old(self)@.next_key + 1, ..old(self)@ }
                    &&& match r {
                        Ok(Some(de)) => spec_child(old(self)@.de, chunk) == Some(de@),
                        Ok(None) => false,
                        Err(_) => spec_child(old(self)@.de, chunk) is None,
                    }
                },
                None => r matches Ok(None) && final(self)@ == old(self)@,
            },
    {
        proof {
            use_type_invariant(&*self);
        }
        let chunk = match next_chunk(self.keys, self.next_key, self.elem_len) {
            Some(c) => c,
            None => {
                return Ok(None);
            },
        };
        self.next_key = self.next_key + 1;
        let de = self.de.child(chunk)?;
        Ok(Some(de))
    }

    /// The deserializer for the next value; an error after the last value.
    pub fn next_value(&mut self) -> (r: Result<Deserializer<'a>, InvalidPropertyList>)
        ensures
            match spec_ref_chunk(
                old(self)@.values,
                old(self)@.next_value,
                old(self)@.elem_len as nat,
            ) {
                Some(chunk) => {
                    &&& final(self)@ == DictView {
                        next_value: old(self)@.next_value + 1,
                        ..old(self)@
                    }
                    &&& de_outcome(r) == spec_child(old(self)@.de, chunk)
                },
                None => r is Err && final(self)@ == old(self)@,
            },
    {
        proof {
            use_type_invariant(&*self);
        }
        let chunk = match next_chunk(self.values, self.next_value, self.elem_len) {
            Some(c) => c,
            None => {
                return Err(InvalidPropertyList);
            },
        };
        self.next_value = self.next_value + 1;
        self.de.child(chunk)
    }
}

impl<'a> SeqParser<'a> {
    /// Every array reader reads references of the trailer's reference size.
    #[verifier::type_invariant]
    spec fn inv(&self) -> bool {
        self.elem_len == self.de.trailer.object_ref_size && self.elem_len >= 1
    }

    /// The deserializer for the next element, or `None` after the last element.
    pub fn next_element(&mut self) -> (r: Result<Option<Deserializer<'a>>, InvalidPropertyList>)
        ensures
            match spec_ref_chunk(old(self)@.values, old(self)@.next, old(self)@.elem_len as nat) {
                Some(chunk) => {
                    &&& final(self)@ == SeqView { next: old(self)@.next + 1, ..old(self)@ }
                    &&& match r {
                        Ok(Some(de)) => spec_child(old(self)@.de, chunk) == Some(de@),
                        Ok(None) => false,
                        Err(_) => spec_child(old(self)@.de, chunk) is None,
                    }
                },
                None => r matches Ok(None) && final(self)@ == old(self)@,
            },
    {
        proof {
            use_type_invariant(&*self);
        }
        let chunk = match next_chunk(self.values, self.next, self.elem_len) {
            Some(c) => c,
            None => {
                return Ok(None);
            },
        };
        self.next = self.next + 1;
        let de = self.de.child(chunk)?;
        Ok(Some(de))
    }
}

/// Reference number `index` of `region`, references being `e` bytes each.
fn next_chunk<'a>(region: &'a [u8], index: usize, e: usize) -> (r: Option<&'a [u8]>)
    requires
        e >= 1,
    ensures
        match spec_ref_chunk(region@, index as nat, e as nat) {
            Some(c) => r matches Some(b) && b@ == c && index + 1 <= usize::MAX,
            None => r is None,
        },
{
    let n = region.len();
    let start = match index.checked_mul(e) {
        Some(x) => x,
        None => {
            proof {
                assert(index * e > usize::MAX) by (nonlinear_arith)
                    requires
                        index * e > usize::MAX || index * e < 0,
                        index >= 0,
                        e >= 0,
                ;
                assert((index + 1) * e == index * e + e) by (nonlinear_arith);
                assert(region@.len() == n);
            }
            return None;
        },
    };
    proof {
        assert((index + 1) * e == index * e + e) by (nonlinear_arith);
    }
    if start > region.len() || e > region.len() - start {
        return None;
    }
    proof {
        assert(index + 1 <= usize::MAX) by (nonlinear_arith)
            requires
                (index + 1) * e <= region@.len(),
                region@.len() <= usize::MAX,
                e >= 1,
        ;
    }
    Some(vstd::slice::slice_subrange(region, start, start + e))
}

impl<'a> Deserializer<'a> {
    /// The deserializer for the object that the reference `chunk` names, one nesting
    /// level deeper.
    fn child(&self, chunk: &[u8]) -> (r: Result<Deserializer<'a>, InvalidPropertyList>)
        ensures
            de_outcome(r) == spec_child(self@, chunk@),
    {
        proof {
            use_type_invariant(self);
        }
        let objref = u64_from_bytes(chunk)?;
        if objref >= self.trailer.num_objects {
            return Err(InvalidPropertyList);
        }
        let level = match self.level.checked_sub(1) {
            Some(l) => l,
            None => {
                return Err(InvalidPropertyList);
            },
        };
        Deserializer::for_object(self.data, self.trailer, objref as usize, level)
    }
}


/// Reading an unsigned integer whose marker, still unread, holds `p`: the `2^p`
/// bytes that begin at the marker are the number.
pub open spec fn spec_visit_uint(s: Seq<u8>, p: u8) -> Option<UnsignedValue> {
    let (b, _) = spec_take(s, pow2(p as nat));
    match b {
        Some(b) => spec_unsigned_value(b),
        None => None,
    }
}

impl<'a> Deserializer<'a> {
    /// Reads an unsigned integer of `2^p` bytes from where the deserializer stands.
    pub fn visit_uint(self, p: u8) -> (r: Result<UnsignedValue, InvalidPropertyList>)
        requires
            p <= 16,
        ensures
            outcome(r) == spec_visit_uint(self@.slice, p),
    {
        let mut this = self;
        let num_bytes = pow2_usize(p);
        let bytes = match this.take_front(num_bytes) {
            Some(b) => b,
            None => {
                return Err(InvalidPropertyList);
            },
        };
        let n = bytes.len();
        proof {
            lemma_be_value_bound(bytes@);
            lemma_pow256_values();
        }
        if n == 1 {
            Ok(UnsignedValue::U8(read_be(bytes) as u8))
        } else if n == 2 {
            Ok(UnsignedValue::U16(read_be(bytes) as u16))
        } else if n == 4 {
            Ok(UnsignedValue::U32(read_be(bytes) as u32))
        } else if n == 8 {
            Ok(UnsignedValue::U64(read_be(bytes) as u64))
        } else if n == 16 {
            Ok(UnsignedValue::U128(read_be(bytes)))
        } else {
            Err(InvalidPropertyList)
        }
    }

    /// Reads the bits of a real number of `2^p` bytes.
    pub fn parse_real(&mut self, p: u8) -> (r: Result<RealBits, InvalidPropertyList>)
        requires
            p <= 16,
        ensures
            outcome(r) == spec_parse_real(old(self)@.slice, p).0,
            final(self)@ == old(self)@.with_slice(spec_parse_real(old(self)@.slice, p).1),
    {
        let len = pow2_usize(p);
        let bytes = match self.take_front(len) {
            Some(b) => b,
            None => {
                return Err(InvalidPropertyList);
            },
        };
        proof {
            lemma_be_value_bound(bytes@);
            lemma_pow256_values();
        }
        if bytes.len() == 4 {
            Ok(RealBits::Single(read_be(bytes) as u32))
        } else if bytes.len() == 8 {
            Ok(RealBits::Double(read_be(bytes) as u64))
        } else {
            Err(InvalidPropertyList)
        }
    }

    /// Reads the 8 bytes of a date: the bits of its double-precision seconds since
    /// 2001-01-01.
    pub fn parse_date_bits(&mut self) -> (r: Result<u64, InvalidPropertyList>)
        ensures
            outcome(r) == spec_parse_date(old(self)@.slice).0,
            final(self)@ == old(self)@.with_slice(spec_parse_date(old(self)@.slice).1),
    {
        let b = match self.take_front(8) {
            Some(b) => b,
            None => {
                return Err(InvalidPropertyList);
            },
        };
        proof {
            lemma_be_value_bound(b@);
            lemma_pow256_values();
        }
        Ok(read_be(b) as u64)
    }

    /// Reads the bytes of a data or string object whose marker holds `p`.
    pub fn parse_bytes(&mut self, p: u8) -> (r: Result<&'a [u8], InvalidPropertyList>)
        ensures
            match r {
                Ok(b) => spec_parse_bytes(old(self)@.slice, p).0 == Some(b@),
                Err(_) => spec_parse_bytes(old(self)@.slice, p).0 is None,
            },
            final(self)@ == old(self)@.with_slice(spec_parse_bytes(old(self)@.slice, p).1),
    {
        let len = self.parse_count(p)?;
        match self.take_front(len) {
            Some(b) => Ok(b),
            None => Err(InvalidPropertyList),
        }
    }

    /// Reads the 16 bytes of a UUID.
    pub fn parse_uuid(&mut self) -> (r: Result<&'a [u8], InvalidPropertyList>)
        ensures
            match r {
                Ok(b) => spec_take(old(self)@.slice, 16).0 == Some(b@),
                Err(_) => spec_take(old(self)@.slice, 16).0 is None,
            },
            final(self)@ == old(self)@.with_slice(spec_take(old(self)@.slice, 16).1),
    {
        match self.take_front(16) {
            Some(b) => Ok(b),
            None => Err(InvalidPropertyList),
        }
    }

    /// Reads a UTF-8 string whose marker holds `p`, borrowed from the input.
    pub fn parse_utf8_string(&mut self, p: u8) -> (r: Result<&'a str, InvalidPropertyList>)
        ensures
            match r {
                Ok(s) => spec_parse_utf8_string(old(self)@.slice, p).0 == Some(s@),
                Err(_) => spec_parse_utf8_string(old(self)@.slice, p).0 is None,
            },
            final(self)@ == old(self)@.with_slice(spec_parse_utf8_string(old(self)@.slice, p).1),
    {
        let bytes = self.parse_bytes(p)?;
        match crate::text::str_from_utf8(bytes) {
            Some(s) => Ok(s),
            None => Err(InvalidPropertyList),
        }
    }

    /// Reads a UTF-16 string whose marker holds `p`.
    pub fn parse_utf16_string(&mut self, p: u8) -> (r: Result<String, InvalidPropertyList>)
        requires
            p < 128,
        ensures
            match r {
                Ok(s) => spec_parse_utf16_string(old(self)@.slice, p).0 == Some(s@),
                Err(_) => spec_parse_utf16_string(old(self)@.slice, p).0 is None,
            },
            final(self)@ == old(self)@.with_slice(spec_parse_utf16_string(old(self)@.slice, p).1),
    {
        let bytes = self.parse_bytes(2 * p)?;
        if bytes.len() % 2 != 0 {
            return Err(InvalidPropertyList);
        }
        let n = bytes.len() / 2;
        assert(bytes@.len() == 2 * n);
        let mut units: Vec<u16> = Vec::new();
        let mut i: usize = 0;
        while i < n
            invariant
                bytes@.len() == 2 * n,
                2 * n <= usize::MAX,
                i <= n,
                units@ =~= utf16_units(bytes@).take(i as int),
            decreases n - i,
        {
            let unit = (bytes[2 * i] as u16) * 256 + bytes[2 * i + 1] as u16;
            units.push(unit);
            i = i + 1;
        }
        assert(units@ =~= utf16_units(bytes@));
        match crate::text::decode_utf16(units.as_slice()) {
            Some(s) => Ok(s),
            None => Err(InvalidPropertyList),
        }
    }

    /// Reads a string object, marker included.
    pub fn parse_text(&mut self) -> (r: Result<Text<'a>, InvalidPropertyList>)
        ensures
            match r {
                Ok(t) => spec_parse_string(old(self)@.slice).0 == Some(t@) && (t is Borrowed
                    <==> string_is_borrowed(old(self)@.slice)),
                Err(_) => spec_parse_string(old(self)@.slice).0 is None,
            },
            final(self)@ == old(self)@.with_slice(spec_parse_string(old(self)@.slice).1),
    {
        let marker = self.parse_marker()?;
        let hi = marker >> 4u8;
        let p = marker & 0b1111u8;
        assert(p <= 15) by (bit_vector)
            requires
                p == marker & 0b1111u8,
        ;
        if hi == 0b0101 || hi == 0b0111 {
            Ok(Text::Borrowed(self.parse_utf8_string(p)?))
        } else if hi == 0b0110 {
            Ok(Text::Owned(self.parse_utf16_string(p)?))
        } else {
            Err(InvalidPropertyList)
        }
    }

    /// Reads a URL given as a base string and a path string.
    pub fn parse_url_with_base(&mut self) -> (r: Result<String, InvalidPropertyList>)
        ensures
            match r {
                Ok(s) => spec_parse_url_with_base(old(self)@.slice).0 == Some(s@),
                Err(_) => spec_parse_url_with_base(old(self)@.slice).0 is None,
            },
            final(self)@ == old(self)@.with_slice(spec_parse_url_with_base(old(self)@.slice).1),
    {
        let base = self.parse_text()?;
        let path = self.parse_text()?;
        let mut full_url = base.into_string();
        let path_str = path.as_str();
        let n = full_url.as_str().unicode_len();
        let ends_with_slash = n > 0 && full_url.as_str().get_char(n - 1) == '/';
        let starts_with_slash = path_str.unicode_len() > 0 && path_str.get_char(0) == '/';
        if !ends_with_slash && !starts_with_slash {
            proof {
                reveal_strlit("/");
            }
            full_url.append("/");
        }
        full_url.append(path_str);
        Ok(full_url)
    }

    /// Reads a URL given whole.
    pub fn parse_full_url(&mut self) -> (r: Result<Text<'a>, InvalidPropertyList>)
        ensures
            match r {
                Ok(t) => spec_parse_string(old(self)@.slice).0 == Some(t@) && (t is Borrowed
                    <==> string_is_borrowed(old(self)@.slice)),
                Err(_) => spec_parse_string(old(self)@.slice).0 is None,
            },
            final(self)@ == old(self)@.with_slice(spec_parse_string(old(self)@.slice).1),
    {
        self.parse_text()
    }
}


/// What the next object is, as its marker tells, for a caller that takes any
/// value: for most kinds the deserializer to read it with, standing at its marker;
/// for integers and reals the value itself.
pub enum AnyValue<'a> {
    Option(Deserializer<'a>),
    Bool(Deserializer<'a>),
    Str(Deserializer<'a>),
    Bytes(Deserializer<'a>),
    U64(Deserializer<'a>),
    Unsigned(UnsignedValue),
    Real(RealBits),
    Array(Deserializer<'a>),
    Dict(Deserializer<'a>),
}

/// The model of an `AnyValue`.
pub enum AnyView {
    Option(DeView),
    Bool(DeView),
    Str(DeView),
    Bytes(DeView),
    U64(DeView),
    Unsigned(UnsignedValue),
    Real(RealBits),
    Array(DeView),
    Dict(DeView),
}

impl<'a> View for AnyValue<'a> {
    type V = AnyView;

    open spec fn view(&self) -> AnyView {
        match self {
            AnyValue::Option(d) => AnyView::Option(d@),
            AnyValue::Bool(d) => AnyView::Bool(d@),
            AnyValue::Str(d) => AnyView::Str(d@),
            AnyValue::Bytes(d) => AnyView::Bytes(d@),
            AnyValue::U64(d) => AnyView::U64(d@),
            AnyValue::Unsigned(v) => AnyView::Unsigned(*v),
            AnyValue::Real(v) => AnyView::Real(*v),
            AnyValue::Array(d) => AnyView::Array(d@),
            AnyValue::Dict(d) => AnyView::Dict(d@),
        }
    }
}

/// Reading a dictionary: a marker `0xDp`, then its body.
pub open spec fn spec_deserialize_map(d: DeView) -> Option<DictView> {
    let (m, s1) = spec_marker(d.slice);
    match m {
        Some(m) => if m >> 4u8 == 13 {
            spec_parse_dict(d.with_slice(s1), m & 15u8)
        } else {
            None
        },
        None => None,
    }
}

/// Reading an array or a set: a marker `0xAp`, `0xBp` or `0xCp`, then its body.
pub open spec fn spec_deserialize_seq(d: DeView) -> Option<SeqView> {
    let (m, s1) = spec_marker(d.slice);
    match m {
        Some(m) => if 10 <= m >> 4u8 <= 12 {
            spec_parse_seq(d.with_slice(s1), m & 15u8)
        } else {
            None
        },
        None => None,
    }
}

/// Reading the null object `0x00`.
pub open spec fn spec_deserialize_unit(s: Seq<u8>) -> bool {
    spec_marker(s).0 == Some(0u8)
}

/// Reading a boolean: `0x08` is false, `0x09` true.
pub open spec fn spec_deserialize_bool(s: Seq<u8>) -> Option<bool> {
    match spec_marker(s).0 {
        Some(m) => if m == 8 {
            Some(false)
        } else if m == 9 {
            Some(true)
        } else {
            None
        },
        None => None,
    }
}

/// Reading an unsigned integer of at most `max`: an integer object (`0x1p`, of `2^p`
/// bytes), a UID (`0x8p`, of `p + 1` bytes), or a date (`0x33`).
pub open spec fn spec_deserialize_unsigned(s: Seq<u8>, max: u128) -> Option<Integer<u128>> {
    let (m, s1) = spec_marker(s);
    match m {
        Some(m) => {
            let hi = m >> 4u8;
            let p = m & 15u8;
            let v = if hi == 1 {
                spec_parse_uint(s1, pow2(p as nat), max).0
            } else if hi == 8 {
                spec_parse_uint(s1, (p + 1) as nat, max).0
            } else {
                None
            };
            if hi == 1 || hi == 8 {
                match v {
                    Some(v) => Some(Integer::Value(v)),
                    None => None,
                }
            } else if m == 0x33 {
                match spec_parse_date(s1).0 {
                    Some(bits) => Some(Integer::Date(bits)),
                    None => None,
                }
            } else {
                None
            }
        },
        None => None,
    }
}

/// Reading a signed integer in `min..=max`, as `spec_deserialize_unsigned` reads an
/// unsigned one.
pub open spec fn spec_deserialize_signed(s: Seq<u8>, min: i128, max: i128) -> Option<
    Integer<i128>,
> {
    let (m, s1) = spec_marker(s);
    match m {
        Some(m) => {
            let hi = m >> 4u8;
            let p = m & 15u8;
            let v = if hi == 1 {
                spec_parse_int(s1, pow2(p as nat), min, max).0
            } else if hi == 8 {
                spec_parse_int(s1, (p + 1) as nat, min, max).0
            } else {
                None
            };
            if hi == 1 || hi == 8 {
                match v {
                    Some(v) => Some(Integer::Value(v)),
                    None => None,
                }
            } else if m == 0x33 {
                match spec_parse_date(s1).0 {
                    Some(bits) => Some(Integer::Date(bits)),
                    None => None,
                }
            } else {
                None
            }
        },
        None => None,
    }
}

/// Reading a character: an integer object or a UID whose value is a Unicode
/// scalar value; the character's number.
pub open spec fn spec_deserialize_char(s: Seq<u8>) -> Option<u32> {
    let (m, s1) = spec_marker(s);
    match m {
        Some(m) => {
            let hi = m >> 4u8;
            let p = m & 15u8;
            let v = if hi == 1 {
                spec_parse_uint(s1, pow2(p as nat), u32::MAX as u128).0
            } else if hi == 8 {
                spec_parse_uint(s1, (p + 1) as nat, u32::MAX as u128).0
            } else {
                None
            };
            match v {
                Some(v) => if is_scalar_value(v as u32) {
                    Some(v as u32)
                } else {
                    None
                },
                None => None,
            }
        },
        None => None,
    }
}

/// Reading a real number: a marker `0x2p`, then `2^p` bytes.
pub open spec fn spec_deserialize_real(s: Seq<u8>) -> Option<RealBits> {
    let (m, s1) = spec_marker(s);
    match m {
        Some(m) => if m >> 4u8 == 2 {
            spec_parse_real(s1, m & 15u8).0
        } else {
            None
        },
        None => None,
    }
}

/// Reading a string: data (`0x4p`), ASCII and UTF-8 strings as UTF-8; UTF-16
/// strings; a URL with a base (`0x0C`) or a whole URL (`0x0D`).
pub open spec fn spec_deserialize_str(s: Seq<u8>) -> Option<Seq<char>> {
    let (m, s1) = spec_marker(s);
    match m {
        Some(m) => {
            let hi = m >> 4u8;
            let p = m & 15u8;
            if hi == 4 || hi == 5 || hi == 7 {
                spec_parse_utf8_string(s1, p).0
            } else if hi == 6 {
                spec_parse_utf16_string(s1, p).0
            } else if m == 0x0c {
                spec_parse_url_with_base(s1).0
            } else if m == 0x0d {
                spec_parse_string(s1).0
            } else {
                None
            }
        },
        None => None,
    }
}

/// Reading the name of an enum's variant: data, ASCII, UTF-8 or UTF-16 strings.
pub open spec fn spec_deserialize_enum(s: Seq<u8>) -> Option<Seq<char>> {
    let (m, s1) = spec_marker(s);
    match m {
        Some(m) => {
            let hi = m >> 4u8;
            let p = m & 15u8;
            if hi == 4 || hi == 5 || hi == 7 {
                spec_parse_utf8_string(s1, p).0
            } else if hi == 6 {
                spec_parse_utf16_string(s1, p).0
            } else {
                None
            }
        },
        None => None,
    }
}

/// Reading bytes: a UUID (`0x0E`, 16 bytes), or the bytes of a data or string object.
pub open spec fn spec_deserialize_bytes(s: Seq<u8>) -> Option<Seq<u8>> {
    let (m, s1) = spec_marker(s);
    match m {
        Some(m) => {
            let hi = m >> 4u8;
            let p = m & 15u8;
            if m == 0x0e {
                spec_take(s1, 16).0
            } else if hi == 4 || hi == 5 || hi == 7 || hi == 6 {
                spec_parse_bytes(s1, p).0
            } else {
                None
            }
        },
        None => None,
    }
}

/// Reading an optional value: the null object (`0x00`, not preceded by fill) is
/// none; anything else is a value, read by the same deserializer.
pub open spec fn spec_deserialize_option(d: DeView) -> Option<Option<DeView>> {
    if d.slice.len() == 0 {
        None
    } else if d.slice[0] == 0 {
        Some(None)
    } else {
        Some(Some(d))
    }
}

/// What `deserialize_any` makes of the next object, by its marker.
pub open spec fn spec_deserialize_any(d: DeView) -> Option<AnyView> {
    let t = skip_pad(d.slice);
    let d2 = d.with_slice(t);
    if t.len() == 0 {
        None
    } else {
        let m = t[0];
        let hi = m >> 4u8;
        let p = m & 15u8;
        if m == 0 {
            Some(AnyView::Option(d2))
        } else if m == 8 || m == 9 {
            Some(AnyView::Bool(d2))
        } else if m == 12 || m == 13 {
            Some(AnyView::Str(d2))
        } else if m == 14 {
            Some(AnyView::Bytes(d2))
        } else if m == 0x33 {
            Some(AnyView::U64(d2))
        } else if hi == 1 || hi == 8 {
            let q = if hi == 1 {
                p
            } else {
                (p + 1) as u8
            };
            match spec_visit_uint(t, q) {
                Some(v) => Some(AnyView::Unsigned(v)),
                None => None,
            }
        } else if hi == 2 {
            match spec_parse_real(t.drop_first(), p).0 {
                Some(v) => Some(AnyView::Real(v)),
                None => None,
            }
        } else if hi == 4 {
            Some(AnyView::Bytes(d2))
        } else if hi == 5 || hi == 7 || hi == 6 {
            Some(AnyView::Str(d2))
        } else if 10 <= hi <= 12 {
            Some(AnyView::Array(d2))
        } else if hi == 13 {
            Some(AnyView::Dict(d2))
        } else {
            None
        }
    }
}

/// The number that dates are counted from: 978303600, the seconds from
/// 1970-01-01T00:00Z to 2000-12-31T23:00Z (midnight of 2001-01-01 at UTC+1).
pub const CORE_DATA_EPOCH: u64 = 978303600;

/// A date as an unsigned integer of at most `max`: the epoch plus the date's
/// nanoseconds.
pub open spec fn spec_date_unsigned(nanos: u64, max: u128) -> Option<u128> {
    let t = CORE_DATA_EPOCH + nanos;
    if t <= u64::MAX && t <= max {
        Some(t as u128)
    } else {
        None
    }
}

/// A date as a signed integer in `min..=max`.
pub open spec fn spec_date_signed(nanos: u64, min: i128, max: i128) -> Option<i128> {
    let t = CORE_DATA_EPOCH + nanos;
    if t <= u64::MAX && min <= t <= max {
        Some(t as i128)
    } else {
        None
    }
}

/// The timestamp of a date, given its nanoseconds (computed by the caller from the
/// date's seconds), as an unsigned integer of at most `max`.
pub fn date_unsigned(nanos: u64, max: u128) -> (r: Result<u128, InvalidPropertyList>)
    ensures
        outcome(r) == spec_date_unsigned(nanos, max),
{
    match CORE_DATA_EPOCH.checked_add(nanos) {
        Some(t) => if t as u128 <= max {
            Ok(t as u128)
        } else {
            Err(InvalidPropertyList)
        },
        None => Err(InvalidPropertyList),
    }
}

/// The timestamp of a date as a signed integer in `min..=max`.
pub fn date_signed(nanos: u64, min: i128, max: i128) -> (r: Result<i128, InvalidPropertyList>)
    ensures
        outcome(r) == spec_date_signed(nanos, min, max),
{
    match CORE_DATA_EPOCH.checked_add(nanos) {
        Some(t) => if min <= t as i128 && t as i128 <= max {
            Ok(t as i128)
        } else {
            Err(InvalidPropertyList)
        },
        None => Err(InvalidPropertyList),
    }
}

impl<'a> Deserializer<'a> {
    /// Reads the marker of a dictionary and its body.
    pub fn deserialize_map(self) -> (r: Result<DictParser<'a>, InvalidPropertyList>)
        ensures
            match r {
                Ok(d) => spec_deserialize_map(self@) == Some(d@),
                Err(_) => spec_deserialize_map(self@) is None,
            },
    {
        let mut this = self;
        let marker = this.parse_marker()?;
        if marker >> 4u8 == 0b1101 {
            this.parse_dict(marker & 0b1111u8)
        } else {
            Err(InvalidPropertyList)
        }
    }

    /// Reads the marker of an array or a set and its body.
    pub fn deserialize_seq(self) -> (r: Result<SeqParser<'a>, InvalidPropertyList>)
        ensures
            match r {
                Ok(d) => spec_deserialize_seq(self@) == Some(d@),
                Err(_) => spec_deserialize_seq(self@) is None,
            },
    {
        let mut this = self;
        let marker = this.parse_marker()?;
        let hi = marker >> 4u8;
        if 0b1010 <= hi && hi <= 0b1100 {
            this.parse_seq(marker & 0b1111u8)
        } else {
            Err(InvalidPropertyList)
        }
    }

    /// Reads the null object.
    pub fn deserialize_unit(self) -> (r: Result<(), InvalidPropertyList>)
        ensures
            r is Ok <==> spec_deserialize_unit(self@.slice),
    {
        let mut this = self;
        match this.parse_marker()? {
            0b0000_0000 => Ok(()),
            _ => Err(InvalidPropertyList),
        }
    }

    /// Reads the name of an enum's variant.
    pub fn deserialize_enum(self) -> (r: Result<Text<'a>, InvalidPropertyList>)
        ensures
            match r {
                Ok(t) => spec_deserialize_enum(self@.slice) == Some(t@) && (t is Borrowed
                    <==> enum_name_is_borrowed(self@.slice)),
                Err(_) => spec_deserialize_enum(self@.slice) is None,
            },
    {
        let mut this = self;
        let marker = this.parse_marker()?;
        let hi = marker >> 4u8;
        let p = marker & 0b1111u8;
        assert(p <= 15) by (bit_vector)
            requires
                p == marker & 0b1111u8,
        ;
        if hi == 0b0100 || hi == 0b0101 || hi == 0b0111 {
            Ok(Text::Borrowed(this.parse_utf8_string(p)?))
        } else if hi == 0b0110 {
            Ok(Text::Owned(this.parse_utf16_string(p)?))
        } else {
            Err(InvalidPropertyList)
        }
    }

    /// Reads a boolean.
    pub fn deserialize_bool(self) -> (r: Result<bool, InvalidPropertyList>)
        ensures
            outcome(r) == spec_deserialize_bool(self@.slice),
    {
        let mut this = self;
        let marker = this.parse_marker()?;
        match marker {
            0b0000_1000 => Ok(false),
            0b0000_1001 => Ok(true),
            _ => Err(InvalidPropertyList),
        }
    }

    /// Reads an unsigned integer of at most `max` (the largest value of the type that
    /// the caller reads into), or the bits of a date.
    pub fn deserialize_unsigned(self, max: u128) -> (r: Result<Integer<u128>, InvalidPropertyList>)
        ensures
            outcome(r) == spec_deserialize_unsigned(self@.slice, max),
    {
        let mut this = self;
        let marker = this.parse_marker()?;
        let hi = marker >> 4u8;
        let p = marker & 0b1111u8;
        assert(p <= 15) by (bit_vector)
            requires
                p == marker & 0b1111u8,
        ;
        if hi == 0b0001 {
            let len = pow2_usize(p);
            Ok(Integer::Value(this.parse_uint(len, max)?))
        } else if hi == 0b1000 {
            let len = (p + 1) as usize;
            Ok(Integer::Value(this.parse_uint(len, max)?))
        } else if marker == 0b0011_0011 {
            Ok(Integer::Date(this.parse_date_bits()?))
        } else {
            Err(InvalidPropertyList)
        }
    }

    /// Reads a signed integer in `min..=max` (the range of the type that the caller
    /// reads into), or the bits of a date.
    pub fn deserialize_signed(self, min: i128, max: i128) -> (r: Result<
        Integer<i128>,
        InvalidPropertyList,
    >)
        ensures
            outcome(r) == spec_deserialize_signed(self@.slice, min, max),
    {
        let mut this = self;
        let marker = this.parse_marker()?;
        let hi = marker >> 4u8;
        let p = marker & 0b1111u8;
        assert(p <= 15) by (bit_vector)
            requires
                p == marker & 0b1111u8,
        ;
        if hi == 0b0001 {
            let len = pow2_usize(p);
            Ok(Integer::Value(this.parse_int(len, min, max)?))
        } else if hi == 0b1000 {
            let len = (p + 1) as usize;
            Ok(Integer::Value(this.parse_int(len, min, max)?))
        } else if marker == 0b0011_0011 {
            Ok(Integer::Date(this.parse_date_bits()?))
        } else {
            Err(InvalidPropertyList)
        }
    }

    /// Reads a character.
    pub fn deserialize_char(self) -> (r: Result<char, InvalidPropertyList>)
        ensures
            match r {
                Ok(c) => spec_deserialize_char(self@.slice) == Some(c as u32),
                Err(_) => spec_deserialize_char(self@.slice) is None,
            },
    {
        let mut this = self;
        let marker = this.parse_marker()?;
        let hi = marker >> 4u8;
        let p = marker & 0b1111u8;
        assert(p <= 15) by (bit_vector)
            requires
                p == marker & 0b1111u8,
        ;
        let len = if hi == 0b0001 {
            pow2_usize(p)
        } else if hi == 0b1000 {
            (p + 1) as usize
        } else {
            return Err(InvalidPropertyList);
        };
        let v = this.parse_uint(len, u32::MAX as u128)?;
        match crate::text::char_from_u32(v as u32) {
            Some(c) => Ok(c),
            None => Err(InvalidPropertyList),
        }
    }

    /// Reads the bits of a real number.
    pub fn deserialize_real(self) -> (r: Result<RealBits, InvalidPropertyList>)
        ensures
            outcome(r) == spec_deserialize_real(self@.slice),
    {
        let mut this = self;
        let marker = this.parse_marker()?;
        let p = marker & 0b1111u8;
        assert(p <= 15) by (bit_vector)
            requires
                p == marker & 0b1111u8,
        ;
        if marker >> 4u8 == 0b0010 {
            this.parse_real(p)
        } else {
            Err(InvalidPropertyList)
        }
    }

    /// Reads a string.
    pub fn deserialize_str(self) -> (r: Result<Text<'a>, InvalidPropertyList>)
        ensures
            match r {
                Ok(t) => spec_deserialize_str(self@.slice) == Some(t@) && (t is Borrowed
                    <==> str_is_borrowed(self@.slice)),
                Err(_) => spec_deserialize_str(self@.slice) is None,
            },
    {
        let mut this = self;
        let marker = this.parse_marker()?;
        let hi = marker >> 4u8;
        let p = marker & 0b1111u8;
        assert(p <= 15) by (bit_vector)
            requires
                p == marker & 0b1111u8,
        ;
        assert(marker == 0x0du8 ==> marker >> 4u8 == 0u8) by (bit_vector);
        if hi == 0b0100 || hi == 0b0101 || hi == 0b0111 {
            Ok(Text::Borrowed(this.parse_utf8_string(p)?))
        } else if hi == 0b0110 {
            Ok(Text::Owned(this.parse_utf16_string(p)?))
        } else if marker == 0b0000_1100 {
            Ok(Text::Owned(this.parse_url_with_base()?))
        } else if marker == 0b0000_1101 {
            let ghost s1 = this@.slice;
            let r = this.parse_full_url();
            proof {
                assert(spec_marker(self@.slice).1 == s1);
            }
            r
        } else {
            Err(InvalidPropertyList)
        }
    }

    /// Reads bytes.
    pub fn deserialize_bytes(self) -> (r: Result<&'a [u8], InvalidPropertyList>)
        ensures
            match r {
                Ok(b) => spec_deserialize_bytes(self@.slice) == Some(b@),
                Err(_) => spec_deserialize_bytes(self@.slice) is None,
            },
    {
        let mut this = self;
        let marker = this.parse_marker()?;
        let hi = marker >> 4u8;
        let p = marker & 0b1111u8;
        if marker == 0b0000_1110 {
            this.parse_uuid()
        } else if hi == 0b0100 || hi == 0b0101 || hi == 0b0111 || hi == 0b0110 {
            this.parse_bytes(p)
        } else {
            Err(InvalidPropertyList)
        }
    }

    /// Reads an optional value: `None` for the null object, else the deserializer
    /// that reads the value.
    pub fn deserialize_option(self) -> (r: Result<Option<Deserializer<'a>>, InvalidPropertyList>)
        ensures
            match r {
                Ok(Some(d)) => spec_deserialize_option(self@) == Some(Some(d@)),
                Ok(None) => spec_deserialize_option(self@) == Some(None::<DeView>),
                Err(_) => spec_deserialize_option(self@) is None,
            },
    {
        if self.slice.len() == 0 {
            return Err(InvalidPropertyList);
        }
        if self.slice[0] == 0b0000_0000 {
            Ok(None)
        } else {
            Ok(Some(self))
        }
    }

    /// Tells what the next object is, by its marker, for a caller that takes any value.
    pub fn deserialize_any(self) -> (r: Result<AnyValue<'a>, InvalidPropertyList>)
        ensures
            match r {
                Ok(v) => spec_deserialize_any(self@) == Some(v@),
                Err(_) => spec_deserialize_any(self@) is None,
            },
    {
        let mut this = self;
        this.skip_padding();
        if this.slice.len() == 0 {
            return Err(InvalidPropertyList);
        }
        let marker = this.slice[0];
        let hi = marker >> 4u8;
        let p = marker & 0b1111u8;
        assert(p <= 15) by (bit_vector)
            requires
                p == marker & 0b1111u8,
        ;
        if marker == 0b0000_0000 {
            Ok(AnyValue::Option(this))
        } else if marker == 0b0000_1000 || marker == 0b0000_1001 {
            Ok(AnyValue::Bool(this))
        } else if marker == 0b0000_1100 || marker == 0b0000_1101 {
            Ok(AnyValue::Str(this))
        } else if marker == 0b0000_1110 {
            Ok(AnyValue::Bytes(this))
        } else if marker == 0b0011_0011 {
            Ok(AnyValue::U64(this))
        } else if hi == 0b0001 {
            Ok(AnyValue::Unsigned(this.visit_uint(p)?))
        } else if hi == 0b1000 {
            Ok(AnyValue::Unsigned(this.visit_uint(p + 1)?))
        } else if hi == 0b0010 {
            let _ = this.take_front(1);
            Ok(AnyValue::Real(this.parse_real(p)?))
        } else if hi == 0b0100 {
            Ok(AnyValue::Bytes(this))
        } else if hi == 0b0101 || hi == 0b0111 || hi == 0b0110 {
            Ok(AnyValue::Str(this))
        } else if 0b1010 <= hi && hi <= 0b1100 {
            Ok(AnyValue::Array(this))
        } else if hi == 0b1101 {
            Ok(AnyValue::Dict(this))
        } else {
            Err(InvalidPropertyList)
        }
    }
}

} // verus!
