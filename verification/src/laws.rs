//! What the reader gives back of what the writer wrote: object by object, and
//! through the offset table and the trailer that end the output.
use vstd::prelude::*;

use crate::bytes::{
    be_bytes, be_signed_bytes, is_int_width, lemma_be_bytes_len,
    lemma_be_roundtrip, lemma_be_signed_roundtrip, lemma_pow256_values, pow2, pow256,
};
use crate::de::{
    skip_pad, spec_deserialize_any, spec_deserialize_char, spec_deserialize_enum,
    spec_parse_string, utf16_units, AnyView, spec_deserialize_bool, spec_deserialize_bytes, spec_deserialize_option,
    spec_deserialize_real, spec_deserialize_signed, spec_deserialize_str,
    spec_deserialize_map, spec_deserialize_seq, spec_deserialize_unit, spec_deserialize_unsigned,
    spec_child, spec_for_object, spec_from_slice, spec_marker, spec_parse_bytes, spec_parse_count, spec_ref_chunk,
    spec_u64_from_bytes, DeView, DictView, Integer, RealBits, SeqView,
};
use crate::ser::{
    array_object, bool_object, bytes_object, count_bytes, dict_object, large_count_bytes,
    real_object, refs_bytes, signed_object, str_object, unit_object, unsigned_object,
    finish_trailer, finished_bytes, lemma_bytes_needed_fits, lemma_bytes_needed_monotone,
    lemma_seq_max, seq_max, SerView,
};
use crate::trailer::{is_ref_size, lemma_trailer_roundtrip, trailer_bytes, Trailer};
use crate::text::{is_scalar_value, utf16_decoding};
use vstd::utf8::{decode_utf8, encode_utf8, encode_utf8_decode_utf8, encode_utf8_valid_utf8, valid_utf8};

verus! {

/// A byte sequence that begins with something other than fill begins with its marker.
proof fn lemma_marker_first(s: Seq<u8>)
    requires
        s.len() > 0,
        s[0] != 0x0f,
    ensures
        spec_marker(s) == (Some(s[0]), s.drop_first()),
{
    assert(skip_pad(s) == s);
}

proof fn lemma_split(x: Seq<u8>, rest: Seq<u8>)
    ensures
        (x + rest).take(x.len() as int) == x,
        (x + rest).skip(x.len() as int) == rest,
{
    assert((x + rest).take(x.len() as int) =~= x);
    assert((x + rest).skip(x.len() as int) =~= rest);
}

/// An offset or a reference, written in 1, 2, 4 or 8 bytes, reads back as itself.
pub proof fn lemma_ref_roundtrip(v: nat, w: nat)
    requires
        is_ref_size(w as int),
        v < pow256(w),
    ensures
        spec_u64_from_bytes(be_bytes(v, w)) == Some(v as u64),
{
    lemma_be_bytes_len(v, w);
    lemma_be_roundtrip(v, w);
}

/// A count written after a marker (of high half `mask`) reads back as itself, and
/// what follows it is left.
pub proof fn lemma_count_roundtrip(mask: u8, count: nat, rest: Seq<u8>)
    requires
        mask & 15u8 == 0,
        mask != 0,
        count <= usize::MAX,
    ensures
        ({
            let b = count_bytes(mask, count) + rest;
            &&& b.len() > 0
            &&& spec_marker(b) == (Some(b[0]), b.drop_first())
            &&& b[0] >> 4u8 == mask >> 4u8
            &&& spec_parse_count(b.drop_first(), b[0] & 15u8) == (Some(count as usize), rest)
        }),
{
    let b = count_bytes(mask, count) + rest;
    lemma_pow256_values();
    if count < 15 {
        let c = count as u8;
        assert((mask | c) >> 4u8 == mask >> 4u8 && (mask | c) & 15u8 == c && (mask | c) != 0x0fu8)
            by (bit_vector)
            requires
                mask & 15u8 == 0,
                mask != 0,
                c < 15,
        ;
        assert(b[0] == mask | c);
        lemma_marker_first(b);
        assert(b.drop_first() =~= rest);
    } else {
        assert((mask | 15u8) >> 4u8 == mask >> 4u8 && (mask | 15u8) & 15u8 == 15u8 && (mask
            | 15u8) != 0x0fu8) by (bit_vector)
            requires
                mask & 15u8 == 0,
                mask != 0,
        ;
        assert(b[0] == mask | 15u8);
        lemma_marker_first(b);
        let l = large_count_bytes(count) + rest;
        assert(b.drop_first() =~= l);
        let (q, n): (u8, nat) = if count <= 0xff {
            (0u8, 1nat)
        } else if count <= 0xffff {
            (1u8, 2nat)
        } else if count <= 0xffff_ffff {
            (2u8, 4nat)
        } else {
            (3u8, 8nat)
        };
        assert(large_count_bytes(count) == seq![0x10u8 | q] + be_bytes(count, n)) by {
            assert(0x10u8 | 0u8 == 0x10u8) by (bit_vector);
            assert(0x10u8 | 1u8 == 0x11u8) by (bit_vector);
            assert(0x10u8 | 2u8 == 0x12u8) by (bit_vector);
            assert(0x10u8 | 3u8 == 0x13u8) by (bit_vector);
        }
        assert((0x10u8 | q) >> 4u8 == 1 && (0x10u8 | q) & 15u8 == q && (0x10u8 | q) != 0x0fu8)
            by (bit_vector)
            requires
                q <= 3,
        ;
        lemma_marker_first(l);
        reveal_with_fuel(pow2, 4);
        assert(pow2(q as nat) == n);
        lemma_be_bytes_len(count, n);
        lemma_be_roundtrip(count, n);
        let after = l.drop_first();
        assert(after =~= be_bytes(count, n) + rest);
        lemma_split(be_bytes(count, n), rest);
    }
}

/// A boolean object reads back as its value.
pub proof fn lemma_bool_roundtrip(v: bool, rest: Seq<u8>)
    ensures
        spec_deserialize_bool(bool_object(v) + rest) == Some(v),
{
    lemma_marker_first(bool_object(v) + rest);
}

/// The null object reads back as the unit value, and as an absent optional value.
pub proof fn lemma_unit_roundtrip(d: DeView, rest: Seq<u8>)
    ensures
        spec_deserialize_unit(unit_object() + rest),
        spec_deserialize_option(d.with_slice(unit_object() + rest)) == Some(None::<DeView>),
{
    lemma_marker_first(unit_object() + rest);
}

/// An unsigned integer object reads back as its value, for any type that holds it.
pub proof fn lemma_unsigned_roundtrip(v: nat, p: u8, max: u128, rest: Seq<u8>)
    requires
        p <= 4,
        v < pow256(pow2(p as nat)),
        v <= max,
    ensures
        spec_deserialize_unsigned(unsigned_object(v, p) + rest, max) == Some(
            Integer::Value(v as u128),
        ),
{
    let b = unsigned_object(v, p) + rest;
    let n = pow2(p as nat);
    reveal_with_fuel(pow2, 5);
    assert((0x10u8 | p) >> 4u8 == 1 && (0x10u8 | p) & 15u8 == p && (0x10u8 | p) != 0x0fu8)
        by (bit_vector)
        requires
            p <= 4,
    ;
    lemma_marker_first(b);
    lemma_be_bytes_len(v, n);
    lemma_be_roundtrip(v, n);
    assert(b.drop_first() =~= be_bytes(v, n) + rest);
    lemma_split(be_bytes(v, n), rest);
    assert(is_int_width(n as int));
}

/// A signed integer object reads back as its value, for any type that holds it.
pub proof fn lemma_signed_roundtrip(v: int, p: u8, min: i128, max: i128, rest: Seq<u8>)
    requires
        p <= 4,
        -(pow256(pow2(p as nat)) as int) <= 2 * v < pow256(pow2(p as nat)),
        min <= v <= max,
    ensures
        spec_deserialize_signed(signed_object(v, p) + rest, min, max) == Some(
            Integer::Value(v as i128),
        ),
{
    let b = signed_object(v, p) + rest;
    let n = pow2(p as nat);
    reveal_with_fuel(pow2, 5);
    assert((0x10u8 | p) >> 4u8 == 1 && (0x10u8 | p) & 15u8 == p && (0x10u8 | p) != 0x0fu8)
        by (bit_vector)
        requires
            p <= 4,
    ;
    lemma_marker_first(b);
    let e = be_signed_bytes(v, n);
    lemma_pow256_values();
    lemma_be_bytes_len((v % (pow256(n) as int)) as nat, n);
    lemma_be_signed_roundtrip(v, n);
    assert(b.drop_first() =~= e + rest);
    lemma_split(e, rest);
    assert(is_int_width(n as int));
}

/// A real number object reads back as the same bits.
pub proof fn lemma_real_roundtrip(bits: nat, p: u8, rest: Seq<u8>)
    requires
        (p == 2 && bits <= u32::MAX) || (p == 3 && bits <= u64::MAX),
    ensures
        spec_deserialize_real(real_object(bits, p) + rest) == Some(
            if p == 2 {
                RealBits::Single(bits as u32)
            } else {
                RealBits::Double(bits as u64)
            },
        ),
{
    let b = real_object(bits, p) + rest;
    let n = pow2(p as nat);
    reveal_with_fuel(pow2, 5);
    lemma_pow256_values();
    assert((0x20u8 | p) >> 4u8 == 2 && (0x20u8 | p) & 15u8 == p && (0x20u8 | p) != 0x0fu8)
        by (bit_vector)
        requires
            p <= 4,
    ;
    lemma_marker_first(b);
    lemma_be_bytes_len(bits, n);
    lemma_be_roundtrip(bits, n);
    assert(b.drop_first() =~= be_bytes(bits, n) + rest);
    lemma_split(be_bytes(bits, n), rest);
}

/// A string object, as the writer writes it, reads back as the same characters.
pub proof fn lemma_str_roundtrip(chars: Seq<char>, rest: Seq<u8>)
    requires
        encode_utf8(chars).len() <= usize::MAX,
    ensures
        spec_deserialize_str(str_object(encode_utf8(chars)) + rest) == Some(chars),
{
    let bytes = encode_utf8(chars);
    let b = str_object(bytes) + rest;
    assert(0x70u8 & 15u8 == 0) by (bit_vector);
    lemma_count_roundtrip(0x70, bytes.len(), bytes + rest);
    assert(b =~= count_bytes(0x70, bytes.len()) + (bytes + rest));
    assert((0x70u8 >> 4u8) == 7u8) by (bit_vector);
    lemma_split(bytes, rest);
    encode_utf8_valid_utf8(chars);
    encode_utf8_decode_utf8(chars);
}

/// A data object reads back as the same bytes.
pub proof fn lemma_bytes_roundtrip(bytes: Seq<u8>, rest: Seq<u8>)
    requires
        bytes.len() <= usize::MAX,
    ensures
        spec_deserialize_bytes(bytes_object(bytes) + rest) == Some(bytes),
{
    let b = bytes_object(bytes) + rest;
    assert(0x40u8 & 15u8 == 0) by (bit_vector);
    lemma_count_roundtrip(0x40, bytes.len(), bytes + rest);
    assert(b =~= count_bytes(0x40, bytes.len()) + (bytes + rest));
    assert((0x40u8 >> 4u8) == 4u8) by (bit_vector);
    let m = b[0];
    assert(m >> 4u8 == 4u8 ==> m != 0x0eu8) by (bit_vector);
    lemma_split(bytes, rest);
    assert(spec_parse_bytes(b.drop_first(), m & 15u8) == (Some(bytes), rest));
}


/// The references `refs`, `w` bytes each, take `refs.len() * w` bytes.
pub proof fn lemma_refs_bytes_len(refs: Seq<usize>, w: nat)
    ensures
        refs_bytes(refs, w).len() == refs.len() * w,
    decreases refs.len(),
{
    if refs.len() > 0 {
        lemma_refs_bytes_len(refs.drop_last(), w);
        lemma_be_bytes_len(refs.last() as nat, w);
        let n = refs.len() as int;
        assert((n - 1) * w + w == n * w) by (nonlinear_arith);
    }
}

/// Reference `i` of the references `refs` lies at bytes `i * w .. i * w + w`.
pub proof fn lemma_refs_bytes_chunk(refs: Seq<usize>, w: nat, i: int)
    requires
        0 <= i < refs.len(),
    ensures
        refs_bytes(refs, w).subrange(i * w, i * w + w) == be_bytes(refs[i] as nat, w),
    decreases refs.len(),
{
    let prefix = refs_bytes(refs.drop_last(), w);
    lemma_refs_bytes_len(refs.drop_last(), w);
    lemma_be_bytes_len(refs.last() as nat, w);
    let n = refs.len() as int;
    if i == n - 1 {
        assert(refs_bytes(refs, w).subrange(i * w, i * w + w) =~= be_bytes(refs[i] as nat, w));
    } else {
        lemma_refs_bytes_chunk(refs.drop_last(), w, i);
        assert(i * w + w <= (n - 1) * w) by (nonlinear_arith)
            requires
                i + 1 <= n - 1,
                w >= 0,
        ;
        assert(0 <= i * w) by (nonlinear_arith)
            requires
                i >= 0,
                w >= 0,
        ;
        assert(refs_bytes(refs, w).subrange(i * w, i * w + w) =~= prefix.subrange(
            i * w,
            i * w + w,
        ));
    }
}

/// An array object reads back as a reader of its element references, positioned
/// after the object.
pub proof fn lemma_array_roundtrip(d: DeView, refs: Seq<usize>, rest: Seq<u8>)
    requires
        is_ref_size(d.trailer.object_ref_size as int),
        refs.len() <= usize::MAX,
    ensures
        spec_deserialize_seq(
            d.with_slice(array_object(refs, d.trailer.object_ref_size as nat) + rest),
        ) == Some(
            SeqView {
                values: refs_bytes(refs, d.trailer.object_ref_size as nat),
                elem_len: d.trailer.object_ref_size as usize,
                next: 0,
                de: d.with_slice(rest),
            },
        ),
{
    let w = d.trailer.object_ref_size as nat;
    let r = refs_bytes(refs, w);
    let b = array_object(refs, w) + rest;
    assert(0xa0u8 & 15u8 == 0) by (bit_vector);
    lemma_count_roundtrip(0xa0, refs.len(), r + rest);
    assert(b =~= count_bytes(0xa0, refs.len()) + (r + rest));
    let m = b[0];
    assert(m >> 4u8 == 0xa0u8 >> 4u8 ==> 10 <= m >> 4u8 <= 12) by (bit_vector);
    lemma_refs_bytes_len(refs, w);
    lemma_split(r, rest);
}

/// A dictionary object, with as many values as keys, reads back as a reader of its
/// key and value references, positioned after the object.
pub proof fn lemma_dict_roundtrip(
    d: DeView,
    keys: Seq<usize>,
    values: Seq<usize>,
    rest: Seq<u8>,
)
    requires
        is_ref_size(d.trailer.object_ref_size as int),
        keys.len() <= usize::MAX,
        keys.len() == values.len(),
    ensures
        spec_deserialize_map(
            d.with_slice(dict_object(keys, values, d.trailer.object_ref_size as nat) + rest),
        ) == Some(
            DictView {
                keys: refs_bytes(keys, d.trailer.object_ref_size as nat),
                values: refs_bytes(values, d.trailer.object_ref_size as nat),
                elem_len: d.trailer.object_ref_size as usize,
                next_key: 0,
                next_value: 0,
                de: d.with_slice(rest),
            },
        ),
{
    let w = d.trailer.object_ref_size as nat;
    let rk = refs_bytes(keys, w);
    let rv = refs_bytes(values, w);
    let b = dict_object(keys, values, w) + rest;
    assert(0xd0u8 & 15u8 == 0) by (bit_vector);
    lemma_count_roundtrip(0xd0, keys.len(), rk + rv + rest);
    assert(b =~= count_bytes(0xd0, keys.len()) + (rk + rv + rest));
    assert(0xd0u8 >> 4u8 == 13u8) by (bit_vector);
    lemma_refs_bytes_len(keys, w);
    lemma_refs_bytes_len(values, w);
    let s1 = rk + rv + rest;
    let half = keys.len() * w;
    assert(s1.take(half as int) =~= rk);
    assert(s1.subrange(half as int, (2 * half) as int) =~= rv);
    assert(s1.skip((2 * half) as int) =~= rest);
}

/// Element (or key, or value) `i` of a container written with the references `refs`
/// reads back as the deserializer for object `refs[i]`, one level deeper, where that
/// object exists and a level is left.
pub proof fn lemma_element_roundtrip(d: DeView, refs: Seq<usize>, i: int)
    requires
        is_ref_size(d.trailer.object_ref_size as int),
        0 <= i < refs.len(),
        refs[i] < pow256(d.trailer.object_ref_size as nat),
    ensures
        ({
            let w = d.trailer.object_ref_size as nat;
            &&& spec_ref_chunk(refs_bytes(refs, w), i as nat, w) == Some(
                be_bytes(refs[i] as nat, w),
            )
            &&& spec_child(d, be_bytes(refs[i] as nat, w)) == if (refs[i] as u64)
                < d.trailer.num_objects && d.level > 0 {
                spec_for_object(d.data, d.trailer, refs[i] as nat, (d.level - 1) as u32)
            } else {
                None
            }
        }),
{
    let w = d.trailer.object_ref_size as nat;
    lemma_refs_bytes_len(refs, w);
    lemma_refs_bytes_chunk(refs, w, i);
    assert((i + 1) * w <= refs.len() * w) by (nonlinear_arith)
        requires
            i + 1 <= refs.len(),
            w >= 0,
    ;
    assert((i + 1) * w == i * w + w) by (nonlinear_arith);
    lemma_ref_roundtrip(refs[i] as nat, w);
}


/// After `finish`, the reader finds every object where the writer began it: the
/// trailer is valid, the property list's top object is object 0, and the
/// deserializer for object `i` reads from its offset to the end of the objects.
/// This holds once every container begun has ended (no offset lies past the output).
pub proof fn lemma_finish_roundtrip(s: SerView, level: u32, i: int)
    requires
        s.wf(),
        0 <= i < s.offsets.len(),
        forall|k: int| 0 <= k < s.offsets.len() ==> #[trigger] s.offsets[k] <= s.output.len(),
        finished_bytes(s).len() <= usize::MAX,
    ensures
        ({
            let t = finish_trailer(s);
            let data = s.output + refs_bytes(s.offsets, t.offset_int_size as nat);
            &&& t.valid()
            &&& spec_from_slice(finished_bytes(s), level) == spec_for_object(data, t, 0, level)
            &&& spec_for_object(data, t, i as nat, level) == Some(
                DeView {
                    data,
                    slice: s.output.subrange(s.offsets[i] as int, s.output.len() as int),
                    trailer: t,
                    level,
                },
            )
        }),
{
    let t = finish_trailer(s);
    let w = t.offset_int_size as nat;
    let n = s.offsets.len();
    let table = refs_bytes(s.offsets, w);
    let tb = trailer_bytes(t);
    let data = s.output + table;
    let f = finished_bytes(s);
    lemma_bytes_needed_fits(seq_max(s.offsets) as nat);
    lemma_refs_bytes_len(s.offsets, w);
    lemma_trailer_roundtrip(t);
    assert(n <= n * w) by (nonlinear_arith)
        requires
            w >= 1,
    ;
    assert(f =~= data + tb);
    assert(f.take(f.len() - Trailer::LEN) =~= data);
    assert(f.skip(f.len() - Trailer::LEN) =~= tb);
    assert(f.take(6) =~= s.output.take(6));
    assert(t.valid());
    // The entry of object `i` in the offset table.
    lemma_seq_max(s.offsets, i);
    lemma_bytes_needed_monotone(s.offsets[i] as nat, seq_max(s.offsets) as nat);
    lemma_refs_bytes_chunk(s.offsets, w, i);
    assert((i + 1) * w <= n * w) by (nonlinear_arith)
        requires
            i + 1 <= n,
            w >= 0,
    ;
    assert((i + 1) * w == i * w + w) by (nonlinear_arith);
    assert(0 <= i * w) by (nonlinear_arith)
        requires
            i >= 0,
            w >= 0,
    ;
    let start = s.output.len() + i * w;
    assert(data.subrange(start, start + w) =~= table.subrange(i * w, i * w + w));
    lemma_ref_roundtrip(s.offsets[i] as nat, w);
    assert(data.subrange(s.offsets[i] as int, s.output.len() as int) =~= s.output.subrange(
        s.offsets[i] as int,
        s.output.len() as int,
    ));
}

/// A property list written as one object `x` (a value that is not a container) is
/// read from its top object exactly as `x`.
pub proof fn lemma_single_object_roundtrip(s: SerView, x: Seq<u8>, level: u32)
    requires
        s.wf(),
        s.offsets.len() == 0,
        finished_bytes(s.push_object(x)).len() <= usize::MAX,
    ensures
        spec_from_slice(finished_bytes(s.push_object(x)), level) matches Some(d) && d.slice
            == x && d.level == level,
{
    let s1 = s.push_object(x);
    assert(s1.wf()) by {
        assert(s1.output.take(6) =~= s.output.take(6));
    }
    assert forall|k: int| 0 <= k < s1.offsets.len() implies #[trigger] s1.offsets[k]
        <= s1.output.len() by {
        assert(k == 0);
    }
    lemma_finish_roundtrip(s1, level, 0);
    assert(s1.output.subrange(s.output.len() as int, s1.output.len() as int) =~= x);
}


/// Entering a container's element costs one nesting level: the deserializer for the
/// element reads the same data under the same trailer with one level fewer, so a
/// reader given `max_recursion` levels enters at most that many.
pub proof fn lemma_child_level(d: DeView, chunk: Seq<u8>)
    ensures
        spec_child(d, chunk) matches Some(c) ==> c.level + 1 == d.level && c.data == d.data
            && c.trailer == d.trailer,
{
}

/// A string object, as the writer writes it, is taken by the string reader as its
/// characters, leaving what follows it.
proof fn lemma_parse_string_of_str_object(chars: Seq<char>, rest: Seq<u8>)
    requires
        encode_utf8(chars).len() <= usize::MAX,
    ensures
        spec_parse_string(str_object(encode_utf8(chars)) + rest) == (Some(chars), rest),
{
    let bytes = encode_utf8(chars);
    let b = str_object(bytes) + rest;
    assert(0x70u8 & 15u8 == 0) by (bit_vector);
    lemma_count_roundtrip(0x70, bytes.len(), bytes + rest);
    assert(b =~= count_bytes(0x70, bytes.len()) + (bytes + rest));
    assert((0x70u8 >> 4u8) == 7u8) by (bit_vector);
    lemma_split(bytes, rest);
    encode_utf8_valid_utf8(chars);
    encode_utf8_decode_utf8(chars);
}

/// The object `count_bytes(mask, n) + tail` begins with its marker, of high half
/// `mask >> 4`, not preceded by fill.
proof fn lemma_counted_marker(mask: u8, count: nat, tail: Seq<u8>)
    requires
        mask & 15u8 == 0,
        mask >= 0x40,
        count <= usize::MAX,
    ensures
        ({
            let b = count_bytes(mask, count) + tail;
            &&& b.len() > 0
            &&& skip_pad(b) == b
            &&& b[0] >> 4u8 == mask >> 4u8
            &&& b[0] >= 0x40
        }),
{
    lemma_count_roundtrip(mask, count, tail);
    let b = count_bytes(mask, count) + tail;
    let m = b[0];
    assert(m >> 4u8 == mask >> 4u8 && mask >= 0x40u8 ==> m >= 0x40u8) by (bit_vector);
    assert(skip_pad(b) == b);
}

/// The self-describing reader takes a string the writer wrote for a string, and
/// data for bytes, each handed on at its marker; as an optional value, each is
/// present.
pub proof fn lemma_any_str_and_bytes(d: DeView, chars: Seq<char>, bytes: Seq<u8>, rest: Seq<u8>)
    requires
        encode_utf8(chars).len() <= usize::MAX,
        bytes.len() <= usize::MAX,
    ensures
        ({
            let s = str_object(encode_utf8(chars)) + rest;
            &&& spec_deserialize_any(d.with_slice(s)) == Some(AnyView::Str(d.with_slice(s)))
            &&& spec_deserialize_option(d.with_slice(s)) == Some(Some(d.with_slice(s)))
        }),
        ({
            let s = bytes_object(bytes) + rest;
            &&& spec_deserialize_any(d.with_slice(s)) == Some(AnyView::Bytes(d.with_slice(s)))
            &&& spec_deserialize_option(d.with_slice(s)) == Some(Some(d.with_slice(s)))
        }),
{
    let e = encode_utf8(chars);
    let s = str_object(e) + rest;
    assert(0x70u8 & 15u8 == 0 && 0x70u8 >> 4u8 == 7u8) by (bit_vector);
    lemma_counted_marker(0x70, e.len(), e + rest);
    assert(s =~= count_bytes(0x70, e.len()) + (e + rest));
    assert(d.with_slice(s).with_slice(s) == d.with_slice(s));
    let t = bytes_object(bytes) + rest;
    assert(0x40u8 & 15u8 == 0 && 0x40u8 >> 4u8 == 4u8) by (bit_vector);
    lemma_counted_marker(0x40, bytes.len(), bytes + rest);
    assert(t =~= count_bytes(0x40, bytes.len()) + (bytes + rest));
    assert(d.with_slice(t).with_slice(t) == d.with_slice(t));
}

/// The self-describing reader takes an array the writer wrote for an array and a
/// dictionary for a dictionary; as an optional value, each is present.
pub proof fn lemma_any_containers(
    d: DeView,
    refs: Seq<usize>,
    keys: Seq<usize>,
    values: Seq<usize>,
    w: nat,
    rest: Seq<u8>,
)
    requires
        refs.len() <= usize::MAX,
        keys.len() <= usize::MAX,
    ensures
        ({
            let s = array_object(refs, w) + rest;
            &&& spec_deserialize_any(d.with_slice(s)) == Some(AnyView::Array(d.with_slice(s)))
            &&& spec_deserialize_option(d.with_slice(s)) == Some(Some(d.with_slice(s)))
        }),
        ({
            let s = dict_object(keys, values, w) + rest;
            &&& spec_deserialize_any(d.with_slice(s)) == Some(AnyView::Dict(d.with_slice(s)))
            &&& spec_deserialize_option(d.with_slice(s)) == Some(Some(d.with_slice(s)))
        }),
{
    let s = array_object(refs, w) + rest;
    let r = refs_bytes(refs, w);
    assert(0xa0u8 & 15u8 == 0 && 0xa0u8 >> 4u8 == 10u8) by (bit_vector);
    lemma_counted_marker(0xa0, refs.len(), r + rest);
    assert(s =~= count_bytes(0xa0, refs.len()) + (r + rest));
    assert(d.with_slice(s).with_slice(s) == d.with_slice(s));
    let t = dict_object(keys, values, w) + rest;
    let kv = refs_bytes(keys, w) + refs_bytes(values, w);
    assert(0xd0u8 & 15u8 == 0 && 0xd0u8 >> 4u8 == 13u8) by (bit_vector);
    lemma_counted_marker(0xd0, keys.len(), kv + rest);
    assert(t =~= count_bytes(0xd0, keys.len()) + (kv + rest));
    assert(d.with_slice(t).with_slice(t) == d.with_slice(t));
}

/// The self-describing reader takes a boolean for a boolean, null for an optional
/// value, and a real number for its bits. An optional value is absent exactly where
/// its object is null: a boolean, an integer or a real number is present.
pub proof fn lemma_any_scalars(d: DeView, b: bool, bits: nat, p: u8, v: nat, q: u8, rest: Seq<u8>)
    requires
        (p == 2 && bits <= u32::MAX) || (p == 3 && bits <= u64::MAX),
        q <= 4,
    ensures
        ({
            let s = bool_object(b) + rest;
            &&& spec_deserialize_any(d.with_slice(s)) == Some(AnyView::Bool(d.with_slice(s)))
            &&& spec_deserialize_option(d.with_slice(s)) == Some(Some(d.with_slice(s)))
        }),
        ({
            let s = unit_object() + rest;
            &&& spec_deserialize_any(d.with_slice(s)) == Some(AnyView::Option(d.with_slice(s)))
            &&& spec_deserialize_option(d.with_slice(s)) == Some(None::<DeView>)
        }),
        ({
            let s = real_object(bits, p) + rest;
            &&& spec_deserialize_any(d.with_slice(s)) == Some(
                AnyView::Real(
                    if p == 2 {
                        RealBits::Single(bits as u32)
                    } else {
                        RealBits::Double(bits as u64)
                    },
                ),
            )
            &&& spec_deserialize_option(d.with_slice(s)) == Some(Some(d.with_slice(s)))
        }),
        spec_deserialize_option(d.with_slice(unsigned_object(v, q) + rest)) == Some(
            Some(d.with_slice(unsigned_object(v, q) + rest)),
        ),
        forall|n: int|
            spec_deserialize_option(d.with_slice(#[trigger] signed_object(n, q) + rest)) == Some(
                Some(d.with_slice(signed_object(n, q) + rest)),
            ),
{
    let sb = bool_object(b) + rest;
    lemma_marker_first(sb);
    assert(skip_pad(sb) == sb);
    assert(d.with_slice(sb).with_slice(sb) == d.with_slice(sb));
    let su = unit_object() + rest;
    assert(skip_pad(su) == su);
    assert(d.with_slice(su).with_slice(su) == d.with_slice(su));
    let sr = real_object(bits, p) + rest;
    let m = 0x20u8 | p;
    assert(m >> 4u8 == 2u8 && m & 15u8 == p && 0x20u8 <= m < 0x30u8) by (bit_vector)
        requires
            m == 0x20u8 | p,
            p <= 4,
    ;
    assert(sr[0] == m);
    assert(skip_pad(sr) == sr);
    lemma_real_roundtrip(bits, p, rest);
    lemma_marker_first(sr);
    assert(0x10u8 | q != 0u8) by (bit_vector);
    assert((unsigned_object(v, q) + rest)[0] == 0x10u8 | q);
    assert forall|n: int| (#[trigger] signed_object(n, q) + rest)[0] == 0x10u8 | q by {}
}

/// A character written as the writer writes it, an integer object of `2^p` bytes
/// (a `char` as 4), reads back as itself; an integer that is no Unicode scalar
/// value, or does not fit in 32 bits, is refused.
pub proof fn lemma_char_roundtrip(v: nat, p: u8, rest: Seq<u8>)
    requires
        p <= 4,
        v < pow256(pow2(p as nat)),
    ensures
        spec_deserialize_char(unsigned_object(v, p) + rest) == if v <= u32::MAX
            && is_scalar_value(v as u32) {
            Some(v as u32)
        } else {
            None
        },
{
    let b = unsigned_object(v, p) + rest;
    let n = pow2(p as nat);
    reveal_with_fuel(pow2, 5);
    assert((0x10u8 | p) >> 4u8 == 1 && (0x10u8 | p) & 15u8 == p && (0x10u8 | p) != 0x0fu8)
        by (bit_vector)
        requires
            p <= 4,
    ;
    lemma_marker_first(b);
    lemma_be_bytes_len(v, n);
    lemma_be_roundtrip(v, n);
    assert(b.drop_first() =~= be_bytes(v, n) + rest);
    lemma_split(be_bytes(v, n), rest);
    assert(is_int_width(n as int));
}

/// The name of an enum's variant, written as the writer writes a string (or as
/// data holding its UTF-8 bytes), reads back as that name.
pub proof fn lemma_enum_roundtrip(name: Seq<char>, rest: Seq<u8>)
    requires
        encode_utf8(name).len() <= usize::MAX,
    ensures
        spec_deserialize_enum(str_object(encode_utf8(name)) + rest) == Some(name),
        spec_deserialize_enum(bytes_object(encode_utf8(name)) + rest) == Some(name),
{
    let bytes = encode_utf8(name);
    encode_utf8_valid_utf8(name);
    encode_utf8_decode_utf8(name);
    lemma_split(bytes, rest);
    let b = str_object(bytes) + rest;
    assert(0x70u8 & 15u8 == 0 && 0x70u8 >> 4u8 == 7u8) by (bit_vector);
    lemma_count_roundtrip(0x70, bytes.len(), bytes + rest);
    assert(b =~= count_bytes(0x70, bytes.len()) + (bytes + rest));
    let c = bytes_object(bytes) + rest;
    assert(0x40u8 & 15u8 == 0 && 0x40u8 >> 4u8 == 4u8) by (bit_vector);
    lemma_count_roundtrip(0x40, bytes.len(), bytes + rest);
    assert(c =~= count_bytes(0x40, bytes.len()) + (bytes + rest));
}

/// A URL given as a base and a path (marker `0x0C`, then the two strings) reads as
/// the base and the path joined by exactly one `/` where neither brings one: where
/// the base ends with `/` or the path begins with `/`, as the base followed by the
/// path; otherwise with a `/` put between them.
pub proof fn lemma_url_with_base(base: Seq<char>, path: Seq<char>, rest: Seq<u8>)
    requires
        encode_utf8(base).len() <= usize::MAX,
        encode_utf8(path).len() <= usize::MAX,
    ensures
        ({
            let s = seq![0x0cu8] + str_object(encode_utf8(base)) + str_object(encode_utf8(path))
                + rest;
            let slash_given = (base.len() > 0 && base.last() == '/') || (path.len() > 0
                && path[0] == '/');
            &&& slash_given ==> spec_deserialize_str(s) == Some(base + path)
            &&& !slash_given ==> spec_deserialize_str(s) == Some(base + seq!['/'] + path)
        }),
{
    let a = str_object(encode_utf8(base));
    let b = str_object(encode_utf8(path));
    let s = seq![0x0cu8] + a + b + rest;
    lemma_marker_first(s);
    assert(s.drop_first() =~= a + (b + rest));
    lemma_parse_string_of_str_object(base, b + rest);
    lemma_parse_string_of_str_object(path, rest);
    assert(0x0cu8 >> 4u8 == 0u8) by (bit_vector);
}

/// A character given as a UID (marker `0x8p`, then `p + 1` bytes, of a width that
/// integers have) reads as the UID's number where that is a Unicode scalar value.
pub proof fn lemma_char_of_uid(v: nat, p: u8, rest: Seq<u8>)
    requires
        p < 16,
        is_int_width(p + 1),
        v < pow256((p + 1) as nat),
    ensures
        spec_deserialize_char(seq![0x80u8 | p] + be_bytes(v, (p + 1) as nat) + rest) == if v
            <= u32::MAX && is_scalar_value(v as u32) {
            Some(v as u32)
        } else {
            None
        },
{
    let n = (p + 1) as nat;
    let b = seq![0x80u8 | p] + be_bytes(v, n) + rest;
    assert((0x80u8 | p) >> 4u8 == 8 && (0x80u8 | p) & 15u8 == p && (0x80u8 | p) != 0x0fu8)
        by (bit_vector)
        requires
            p < 16,
    ;
    lemma_marker_first(b);
    lemma_be_bytes_len(v, n);
    lemma_be_roundtrip(v, n);
    assert(b.drop_first() =~= be_bytes(v, n) + rest);
    lemma_split(be_bytes(v, n), rest);
}

/// A URL given whole (marker `0x0D`, then a string) reads as that string.
pub proof fn lemma_full_url(url: Seq<char>, rest: Seq<u8>)
    requires
        encode_utf8(url).len() <= usize::MAX,
    ensures
        spec_deserialize_str(seq![0x0du8] + str_object(encode_utf8(url)) + rest) == Some(url),
{
    let a = str_object(encode_utf8(url));
    let s = seq![0x0du8] + a + rest;
    lemma_marker_first(s);
    assert(s.drop_first() =~= a + rest);
    lemma_parse_string_of_str_object(url, rest);
    assert(0x0du8 >> 4u8 == 0u8) by (bit_vector);
}

/// An ASCII string object (marker `0x5p`) reads, as a string, as a variant's name
/// and for the self-describing reader, as the characters its bytes spell in UTF-8,
/// and is refused where they are not UTF-8.
pub proof fn lemma_ascii_string(d: DeView, b: Seq<u8>, rest: Seq<u8>)
    requires
        b.len() <= usize::MAX,
    ensures
        ({
            let s = count_bytes(0x50, b.len()) + b + rest;
            let chars = if valid_utf8(b) {
                Some(decode_utf8(b))
            } else {
                None
            };
            &&& spec_deserialize_str(s) == chars
            &&& spec_deserialize_enum(s) == chars
            &&& spec_deserialize_any(d.with_slice(s)) == Some(AnyView::Str(d.with_slice(s)))
        }),
{
    let s = count_bytes(0x50, b.len()) + b + rest;
    assert(0x50u8 & 15u8 == 0 && 0x50u8 >> 4u8 == 5u8) by (bit_vector);
    lemma_count_roundtrip(0x50, b.len(), b + rest);
    lemma_counted_marker(0x50, b.len(), b + rest);
    assert(s =~= count_bytes(0x50, b.len()) + (b + rest));
    lemma_split(b, rest);
    assert(d.with_slice(s).with_slice(s) == d.with_slice(s));
}

/// A UTF-16 string object of `k` code units (marker `0x6k`, then `2k` bytes) reads,
/// as a string, as a variant's name and for the self-describing reader, as the
/// characters those big-endian units encode, and is refused at an unpaired
/// surrogate.
pub proof fn lemma_utf16_string(d: DeView, k: u8, units: Seq<u8>, rest: Seq<u8>)
    requires
        k < 15,
        units.len() == 2 * k,
    ensures
        ({
            let s = seq![0x60u8 | k] + units + rest;
            &&& spec_deserialize_str(s) == utf16_decoding(utf16_units(units))
            &&& spec_deserialize_enum(s) == utf16_decoding(utf16_units(units))
            &&& spec_deserialize_any(d.with_slice(s)) == Some(AnyView::Str(d.with_slice(s)))
        }),
{
    let s = seq![0x60u8 | k] + units + rest;
    let m = 0x60u8 | k;
    assert(m >> 4u8 == 6u8 && m & 15u8 == k && m >= 0x60u8) by (bit_vector)
        requires
            m == 0x60u8 | k,
            k < 15,
    ;
    assert(s[0] == m);
    lemma_marker_first(s);
    assert(skip_pad(s) == s);
    assert(s.drop_first() =~= units + rest);
    lemma_split(units, rest);
    assert(d.with_slice(s).with_slice(s) == d.with_slice(s));
}

} // verus!
