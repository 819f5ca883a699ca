//! Whole values: what the writer's calls make of a tree of values, and the law that
//! the reader, following the tree's shape, gives the same tree back.
use vstd::prelude::*;

use crate::bytes::{be_bytes, lemma_pow256_positive, lemma_pow256_values, pow2, pow256};
use crate::de::{
    spec_child, spec_deserialize_bool, spec_deserialize_bytes, spec_deserialize_map,
    spec_deserialize_real, spec_deserialize_seq, spec_deserialize_signed, spec_deserialize_str,
    spec_deserialize_unit, spec_deserialize_unsigned, spec_for_object, spec_from_slice,
    spec_ref_chunk, DeView, DictView, Integer, RealBits, SeqView,
};
use crate::laws::{
    lemma_array_roundtrip, lemma_bool_roundtrip, lemma_bytes_roundtrip, lemma_dict_roundtrip,
    lemma_element_roundtrip, lemma_finish_roundtrip, lemma_real_roundtrip,
    lemma_refs_bytes_len, lemma_signed_roundtrip, lemma_str_roundtrip, lemma_unit_roundtrip,
    lemma_unsigned_roundtrip,
};
use crate::ser::{
    array_object, bool_object, bytes_object, dict_object, finish_trailer, finished_bytes,
    initial_state, real_object, refs_bytes, signed_object, str_object, unit_object,
    unsigned_object, SerView,
};
use crate::trailer::{is_ref_size, lemma_trailer_roundtrip, trailer_bytes};
use vstd::utf8::encode_utf8;

verus! {

/// A value as the writer writes it: a leaf, or an array or dictionary of values.
pub enum Value {
    Bool(bool),
    Unit,
    /// An unsigned integer `v` of `2^p` bytes.
    Unsigned(nat, u8),
    /// A signed integer `v` of `2^p` bytes.
    Signed(int, u8),
    /// The bits of a real number of `2^p` bytes.
    Real(nat, u8),
    Str(Seq<char>),
    Bytes(Seq<u8>),
    Array(Seq<Value>),
    /// Key and value pairs, in the order written.
    Dict(Seq<(Value, Value)>),
}

/// Where the writer put a value: the index of its object, and those of its elements
/// (of a dictionary: of its keys, and then of its values).
pub struct Layout {
    pub index: nat,
    pub children: Seq<Layout>,
    pub values: Seq<Layout>,
}

/// The object that the writer writes for a leaf value.
pub open spec fn leaf_object(v: Value) -> Seq<u8> {
    match v {
        Value::Bool(b) => bool_object(b),
        Value::Unit => unit_object(),
        Value::Unsigned(n, p) => unsigned_object(n, p),
        Value::Signed(n, p) => signed_object(n, p),
        Value::Real(bits, p) => real_object(bits, p),
        Value::Str(chars) => str_object(encode_utf8(chars)),
        Value::Bytes(b) => bytes_object(b),
        _ => seq![],
    }
}

/// The object indices of `lays`, as references.
pub open spec fn layout_refs(lays: Seq<Layout>) -> Seq<usize> {
    Seq::new(lays.len(), |k: int| lays[k].index as usize)
}

/// A container begins: its index is reserved, its offset not yet known.
pub open spec fn reserve(s: SerView) -> SerView {
    SerView { offsets: s.offsets.push(usize::MAX), ..s }
}

/// A container ends: its object `x` is written, and its offset recorded at `index`.
pub open spec fn end_container(s: SerView, index: nat, x: Seq<u8>) -> SerView {
    SerView {
        output: s.output + x,
        offsets: s.offsets.update(index as int, s.output.len() as usize),
        object_ref_size: s.object_ref_size,
    }
}

/// The state after writing `v`, and where `v` went: a leaf is one object; a
/// container reserves its index, writes its elements (a dictionary: each key, then
/// its value), then writes its own object.
pub open spec fn write_value(s: SerView, v: Value) -> (SerView, Layout)
    decreases v, 0nat,
{
    let idx = s.offsets.len();
    let w = s.object_ref_size as nat;
    match v {
        Value::Array(items) => {
            let (s1, lays) = write_elements(reserve(s), items, items.len());
            (
                end_container(s1, idx, array_object(layout_refs(lays), w)),
                Layout { index: idx, children: lays, values: seq![] },
            )
        },
        Value::Dict(entries) => {
            let (s1, klays, vlays) = write_entries(reserve(s), entries, entries.len());
            (
                end_container(s1, idx, dict_object(layout_refs(klays), layout_refs(vlays), w)),
                Layout { index: idx, children: klays, values: vlays },
            )
        },
        _ => (s.push_object(leaf_object(v)), Layout { index: idx, children: seq![], values: seq![] }),
    }
}

/// Writing the first `n` of `items`, in order.
pub open spec fn write_elements(s: SerView, items: Seq<Value>, n: nat) -> (SerView, Seq<Layout>)
    decreases items, n,
{
    if n == 0 || n > items.len() {
        (s, seq![])
    } else {
        let (s1, lays) = write_elements(s, items, (n - 1) as nat);
        let (s2, l) = write_value(s1, items[n - 1]);
        (s2, lays.push(l))
    }
}

/// Writing the first `n` of `entries`, each key then its value.
pub open spec fn write_entries(s: SerView, entries: Seq<(Value, Value)>, n: nat) -> (
    SerView,
    Seq<Layout>,
    Seq<Layout>,
)
    decreases entries, n,
{
    if n == 0 || n > entries.len() {
        (s, seq![], seq![])
    } else {
        let (s1, klays, vlays) = write_entries(s, entries, (n - 1) as nat);
        let (s2, kl) = write_value(s1, entries[n - 1].0);
        let (s3, vl) = write_value(s2, entries[n - 1].1);
        (s3, klays.push(kl), vlays.push(vl))
    }
}

/// The bytes `x` stand in the output where object `i` begins.
pub open spec fn object_at(s: SerView, i: nat, x: Seq<u8>) -> bool {
    let off = s.offsets[i as int] as int;
    &&& off + x.len() <= s.output.len()
    &&& s.output.subrange(off, off + x.len()) == x
}

/// In the state `s`, `v` stands at `lay`: its object where its index says, each
/// element likewise; all indices at least `lo`, elements' above their container's.
pub open spec fn stored(s: SerView, lay: Layout, v: Value, lo: nat) -> bool
    decreases v, 0nat,
{
    let i = lay.index;
    let w = s.object_ref_size as nat;
    &&& lo <= i < s.offsets.len()
    &&& match v {
        Value::Array(items) => {
            &&& lay.children.len() == items.len()
            &&& object_at(s, i, array_object(layout_refs(lay.children), w))
            &&& stored_all(s, lay.children, items, i + 1)
        },
        Value::Dict(entries) => {
            &&& lay.children.len() == entries.len()
            &&& lay.values.len() == entries.len()
            &&& object_at(
                s,
                i,
                dict_object(layout_refs(lay.children), layout_refs(lay.values), w),
            )
            &&& stored_pairs(s, lay.children, lay.values, entries, i + 1)
        },
        _ => object_at(s, i, leaf_object(v)),
    }
}

/// The first `lays.len()` of `items` stand at `lays`.
pub open spec fn stored_all(s: SerView, lays: Seq<Layout>, items: Seq<Value>, lo: nat) -> bool
    decreases items, lays.len(),
{
    if lays.len() == 0 {
        true
    } else {
        &&& lays.len() <= items.len()
        &&& stored_all(s, lays.drop_last(), items, lo)
        &&& stored(s, lays.last(), items[lays.len() - 1], lo)
    }
}

/// The first `klays.len()` of `entries` stand at `klays` (keys) and `vlays` (values).
pub open spec fn stored_pairs(
    s: SerView,
    klays: Seq<Layout>,
    vlays: Seq<Layout>,
    entries: Seq<(Value, Value)>,
    lo: nat,
) -> bool
    decreases entries, klays.len(),
{
    if klays.len() == 0 {
        vlays.len() == 0
    } else {
        &&& klays.len() <= entries.len()
        &&& vlays.len() == klays.len()
        &&& stored_pairs(s, klays.drop_last(), vlays.drop_last(), entries, lo)
        &&& stored(s, klays.last(), entries[klays.len() - 1].0, lo)
        &&& stored(s, vlays.last(), entries[klays.len() - 1].1, lo)
    }
}

/// `s2` extends `s`: the output grows at its end, indices are only added, and those
/// from `lo` on keep their offsets.
pub open spec fn extends(s: SerView, s2: SerView, lo: nat) -> bool {
    &&& s.output.len() <= s2.output.len()
    &&& s2.output.take(s.output.len() as int) == s.output
    &&& s.offsets.len() <= s2.offsets.len()
    &&& forall|k: int| lo <= k < s.offsets.len() ==> #[trigger] s2.offsets[k] == s.offsets[k]
    &&& s2.object_ref_size == s.object_ref_size
}

/// Every object from index `from` on has begun: its offset lies within the output.
pub open spec fn completed(s: SerView, from: nat) -> bool {
    forall|k: int| from <= k < s.offsets.len() ==> #[trigger] s.offsets[k] <= s.output.len()
}

proof fn lemma_extends_trans(s1: SerView, s2: SerView, s3: SerView, lo: nat)
    requires
        extends(s1, s2, lo),
        extends(s2, s3, lo),
    ensures
        extends(s1, s3, lo),
{
    assert(s3.output.take(s1.output.len() as int) =~= s3.output.take(
        s2.output.len() as int,
    ).take(s1.output.len() as int));
}

/// What `stored` says of a state still holds in a state that extends it.
proof fn lemma_stored_frame(s: SerView, s2: SerView, lay: Layout, v: Value, lo: nat)
    requires
        stored(s, lay, v, lo),
        extends(s, s2, lo),
    ensures
        stored(s2, lay, v, lo),
    decreases v, 0nat,
{
    let i = lay.index;
    assert(s2.offsets[i as int] == s.offsets[i as int]);
    match v {
        Value::Array(items) => {
            lemma_object_at_frame(s, s2, i, array_object(layout_refs(lay.children), s.object_ref_size as nat));
            lemma_stored_all_frame(s, s2, lay.children, items, i + 1, lo);
        },
        Value::Dict(entries) => {
            lemma_object_at_frame(
                s,
                s2,
                i,
                dict_object(
                    layout_refs(lay.children),
                    layout_refs(lay.values),
                    s.object_ref_size as nat,
                ),
            );
            lemma_stored_pairs_frame(s, s2, lay.children, lay.values, entries, i + 1, lo);
        },
        _ => {
            lemma_object_at_frame(s, s2, i, leaf_object(v));
        },
    }
}

proof fn lemma_object_at_frame(s: SerView, s2: SerView, i: nat, x: Seq<u8>)
    requires
        object_at(s, i, x),
        s.output.len() <= s2.output.len(),
        s2.output.take(s.output.len() as int) == s.output,
        s2.offsets[i as int] == s.offsets[i as int],
    ensures
        object_at(s2, i, x),
{
    let off = s.offsets[i as int] as int;
    assert(s2.output.subrange(off, off + x.len()) =~= s.output.subrange(off, off + x.len()));
}

proof fn lemma_stored_all_frame(
    s: SerView,
    s2: SerView,
    lays: Seq<Layout>,
    items: Seq<Value>,
    lo: nat,
    lo0: nat,
)
    requires
        stored_all(s, lays, items, lo),
        extends(s, s2, lo0),
        lo0 <= lo,
    ensures
        stored_all(s2, lays, items, lo),
    decreases items, lays.len(),
{
    if lays.len() > 0 {
        lemma_stored_all_frame(s, s2, lays.drop_last(), items, lo, lo0);
        assert(extends(s, s2, lo));
        lemma_stored_frame(s, s2, lays.last(), items[lays.len() - 1], lo);
    }
}

proof fn lemma_stored_pairs_frame(
    s: SerView,
    s2: SerView,
    klays: Seq<Layout>,
    vlays: Seq<Layout>,
    entries: Seq<(Value, Value)>,
    lo: nat,
    lo0: nat,
)
    requires
        stored_pairs(s, klays, vlays, entries, lo),
        extends(s, s2, lo0),
        lo0 <= lo,
    ensures
        stored_pairs(s2, klays, vlays, entries, lo),
    decreases entries, klays.len(),
{
    if klays.len() > 0 {
        lemma_stored_pairs_frame(s, s2, klays.drop_last(), vlays.drop_last(), entries, lo, lo0);
        assert(extends(s, s2, lo));
        lemma_stored_frame(s, s2, klays.last(), entries[klays.len() - 1].0, lo);
        lemma_stored_frame(s, s2, vlays.last(), entries[klays.len() - 1].1, lo);
    }
}


proof fn lemma_extends_append(s: SerView, x: Seq<u8>)
    ensures
        (s.output + x).take(s.output.len() as int) == s.output,
{
    assert((s.output + x).take(s.output.len() as int) =~= s.output);
}

/// Writing `v` extends the state, puts `v` at the next index, and leaves every
/// object it began complete.
proof fn lemma_write_value(s: SerView, v: Value)
    requires
        write_value(s, v).0.output.len() <= usize::MAX,
    ensures
        ({
            let (sf, lay) = write_value(s, v);
            &&& extends(s, sf, 0)
            &&& lay.index == s.offsets.len()
            &&& sf.offsets.len() > s.offsets.len()
            &&& stored(sf, lay, v, s.offsets.len())
            &&& completed(sf, s.offsets.len())
        }),
    decreases v, 0nat,
{
    let idx = s.offsets.len();
    let w = s.object_ref_size as nat;
    lemma_extends_append(s, seq![]);
    match v {
        Value::Array(items) => {
            let s1 = reserve(s);
            assert(s1.output =~= s.output + seq![]);
            let (s2, lays) = write_elements(s1, items, items.len());
            let x = array_object(layout_refs(lays), w);
            let s3 = end_container(s2, idx, x);
            lemma_extends_append(s2, x);
            assert(s2.output.len() <= usize::MAX);
            lemma_write_elements(s1, items, items.len());
            assert(extends(s2, s3, idx + 1));
            lemma_stored_all_frame(s2, s3, lays, items, idx + 1, idx + 1);
            assert(s3.offsets[idx as int] == s2.output.len());
            assert(s3.output.subrange(s2.output.len() as int, s3.output.len() as int) =~= x);
            assert(extends(s, s1, 0));
            lemma_extends_trans(s, s1, s2, 0);
            assert(s3.output.take(s.output.len() as int) =~= s2.output.take(
                s.output.len() as int,
            ));
            assert(extends(s, s3, 0));
        },
        Value::Dict(entries) => {
            let s1 = reserve(s);
            assert(s1.output =~= s.output + seq![]);
            let (s2, klays, vlays) = write_entries(s1, entries, entries.len());
            let x = dict_object(layout_refs(klays), layout_refs(vlays), w);
            let s3 = end_container(s2, idx, x);
            lemma_extends_append(s2, x);
            assert(s2.output.len() <= usize::MAX);
            lemma_write_entries(s1, entries, entries.len());
            assert(extends(s2, s3, idx + 1));
            lemma_stored_pairs_frame(s2, s3, klays, vlays, entries, idx + 1, idx + 1);
            assert(s3.offsets[idx as int] == s2.output.len());
            assert(s3.output.subrange(s2.output.len() as int, s3.output.len() as int) =~= x);
            assert(extends(s, s1, 0));
            lemma_extends_trans(s, s1, s2, 0);
            assert(s3.output.take(s.output.len() as int) =~= s2.output.take(
                s.output.len() as int,
            ));
            assert(extends(s, s3, 0));
        },
        _ => {
            let x = leaf_object(v);
            let sf = s.push_object(x);
            lemma_extends_append(s, x);
            assert(sf.output.subrange(s.output.len() as int, sf.output.len() as int) =~= x);
        },
    }
}

/// Writing the first `n` of `items` extends the state and puts each at its index.
proof fn lemma_write_elements(s: SerView, items: Seq<Value>, n: nat)
    requires
        n <= items.len(),
        write_elements(s, items, n).0.output.len() <= usize::MAX,
    ensures
        ({
            let (sf, lays) = write_elements(s, items, n);
            &&& extends(s, sf, 0)
            &&& lays.len() == n
            &&& stored_all(sf, lays, items, s.offsets.len())
            &&& completed(sf, s.offsets.len())
        }),
    decreases items, n,
{
    if n == 0 {
        lemma_extends_append(s, seq![]);
        assert(s.output =~= s.output + seq![]);
    } else {
        let (s1, lays) = write_elements(s, items, (n - 1) as nat);
        let (s2, l) = write_value(s1, items[n - 1]);
        lemma_write_value(s1, items[n - 1]);
        lemma_write_elements(s, items, (n - 1) as nat);
        lemma_extends_trans(s, s1, s2, 0);
        lemma_stored_all_frame(s1, s2, lays, items, s.offsets.len(), 0);
        assert(lays.push(l).drop_last() =~= lays);
        assert(stored(s2, l, items[n - 1], s.offsets.len()));
    }
}

/// Writing the first `n` of `entries` extends the state and puts each key and each
/// value at its index.
proof fn lemma_write_entries(s: SerView, entries: Seq<(Value, Value)>, n: nat)
    requires
        n <= entries.len(),
        write_entries(s, entries, n).0.output.len() <= usize::MAX,
    ensures
        ({
            let (sf, klays, vlays) = write_entries(s, entries, n);
            &&& extends(s, sf, 0)
            &&& klays.len() == n
            &&& vlays.len() == n
            &&& stored_pairs(sf, klays, vlays, entries, s.offsets.len())
            &&& completed(sf, s.offsets.len())
        }),
    decreases entries, n,
{
    if n == 0 {
        lemma_extends_append(s, seq![]);
        assert(s.output =~= s.output + seq![]);
    } else {
        let (s1, klays, vlays) = write_entries(s, entries, (n - 1) as nat);
        let (s2, kl) = write_value(s1, entries[n - 1].0);
        let (s3, vl) = write_value(s2, entries[n - 1].1);
        lemma_write_value(s2, entries[n - 1].1);
        lemma_write_value(s1, entries[n - 1].0);
        lemma_write_entries(s, entries, (n - 1) as nat);
        lemma_extends_trans(s, s1, s2, 0);
        lemma_extends_trans(s, s2, s3, 0);
        lemma_extends_trans(s1, s2, s3, 0);
        lemma_stored_pairs_frame(s1, s3, klays, vlays, entries, s.offsets.len(), 0);
        lemma_stored_frame(s2, s3, kl, entries[n - 1].0, s1.offsets.len());
        assert(klays.push(kl).drop_last() =~= klays);
        assert(vlays.push(vl).drop_last() =~= vlays);
        assert(stored(s3, kl, entries[n - 1].0, s.offsets.len()));
        assert(stored(s3, vl, entries[n - 1].1, s.offsets.len()));
    }
}


/// The largest unsigned integer of `2^p` bytes.
pub open spec fn largest_unsigned(p: u8) -> int {
    pow256(pow2(p as nat)) - 1
}

/// The smallest signed integer of `2^p` bytes.
pub open spec fn smallest_signed(p: u8) -> int {
    -(pow256(pow2(p as nat)) / 2)
}

/// The largest signed integer of `2^p` bytes.
pub open spec fn largest_signed(p: u8) -> int {
    pow256(pow2(p as nat)) / 2 - 1
}

/// `v` can be written and read back within `level` nesting levels: integers fit
/// their widths (at most 16 bytes), reals are single or double precision, and a
/// container's elements fit one level fewer.
pub open spec fn readable(v: Value, level: nat) -> bool
    decreases v, 0nat,
{
    match v {
        Value::Unsigned(n, p) => p <= 4 && n < pow256(pow2(p as nat)),
        Value::Signed(n, p) => p <= 4 && -(pow256(pow2(p as nat)) as int) <= 2 * n < pow256(
            pow2(p as nat),
        ),
        Value::Real(bits, p) => (p == 2 && bits <= u32::MAX) || (p == 3 && bits <= u64::MAX),
        Value::Array(items) => level >= 1 && readable_all(items, (level - 1) as nat, items.len()),
        Value::Dict(entries) => level >= 1 && readable_pairs(
            entries,
            (level - 1) as nat,
            entries.len(),
        ),
        _ => true,
    }
}

/// The first `n` of `items` are readable within `level` levels.
pub open spec fn readable_all(items: Seq<Value>, level: nat, n: nat) -> bool
    decreases items, n,
{
    if n == 0 || n > items.len() {
        n == 0
    } else {
        readable_all(items, level, (n - 1) as nat) && readable(items[n - 1], level)
    }
}

/// The first `n` of `entries` have readable keys and values within `level` levels.
pub open spec fn readable_pairs(entries: Seq<(Value, Value)>, level: nat, n: nat) -> bool
    decreases entries, n,
{
    if n == 0 || n > entries.len() {
        n == 0
    } else {
        &&& readable_pairs(entries, level, (n - 1) as nat)
        &&& readable(entries[n - 1].0, level)
        &&& readable(entries[n - 1].1, level)
    }
}

/// Reading `v` with `d` as a reader that expects `v`'s shape does: leaves with the
/// reader of their type (integers into the type of their width), arrays and
/// dictionaries element by element, each through its reference, until the
/// references end.
pub open spec fn reads(d: DeView, v: Value) -> bool
    decreases v, 0nat,
{
    match v {
        Value::Bool(b) => spec_deserialize_bool(d.slice) == Some(b),
        Value::Unit => spec_deserialize_unit(d.slice),
        Value::Unsigned(n, p) => spec_deserialize_unsigned(d.slice, largest_unsigned(p) as u128)
            == Some(Integer::Value(n as u128)),
        Value::Signed(n, p) => spec_deserialize_signed(
            d.slice,
            smallest_signed(p) as i128,
            largest_signed(p) as i128,
        ) == Some(Integer::Value(n as i128)),
        Value::Real(bits, p) => spec_deserialize_real(d.slice) == Some(
            if p == 2 {
                RealBits::Single(bits as u32)
            } else {
                RealBits::Double(bits as u64)
            },
        ),
        Value::Str(chars) => spec_deserialize_str(d.slice) == Some(chars),
        Value::Bytes(b) => spec_deserialize_bytes(d.slice) == Some(b),
        Value::Array(items) => match spec_deserialize_seq(d) {
            Some(sv) => {
                &&& reads_elements(sv, items, items.len())
                &&& spec_ref_chunk(sv.values, items.len(), sv.elem_len as nat) is None
            },
            None => false,
        },
        Value::Dict(entries) => match spec_deserialize_map(d) {
            Some(dv) => {
                &&& reads_entries(dv, entries, entries.len())
                &&& spec_ref_chunk(dv.keys, entries.len(), dv.elem_len as nat) is None
                &&& spec_ref_chunk(dv.values, entries.len(), dv.elem_len as nat) is None
            },
            None => false,
        },
    }
}

/// Element `k` of an array reads as `v`: its reference is there, names an object
/// that can be entered, and that object reads as `v`.
pub open spec fn reads_ref(region: Seq<u8>, e: nat, de: DeView, k: nat, v: Value) -> bool
    decreases v, 1nat,
{
    match spec_ref_chunk(region, k, e) {
        Some(c) => match spec_child(de, c) {
            Some(cd) => reads(cd, v),
            None => false,
        },
        None => false,
    }
}

/// The first `n` elements of an array read as the first `n` of `items`.
pub open spec fn reads_elements(sv: SeqView, items: Seq<Value>, n: nat) -> bool
    decreases items, n,
{
    if n == 0 || n > items.len() {
        n == 0
    } else {
        &&& reads_elements(sv, items, (n - 1) as nat)
        &&& reads_ref(sv.values, sv.elem_len as nat, sv.de, (n - 1) as nat, items[n - 1])
    }
}

/// The first `n` keys and values of a dictionary read as the first `n` of `entries`.
pub open spec fn reads_entries(dv: DictView, entries: Seq<(Value, Value)>, n: nat) -> bool
    decreases entries, n,
{
    if n == 0 || n > entries.len() {
        n == 0
    } else {
        &&& reads_entries(dv, entries, (n - 1) as nat)
        &&& reads_ref(dv.keys, dv.elem_len as nat, dv.de, (n - 1) as nat, entries[n - 1].0)
        &&& reads_ref(dv.values, dv.elem_len as nat, dv.de, (n - 1) as nat, entries[n - 1].1)
    }
}


proof fn lemma_stored_all_index(s: SerView, lays: Seq<Layout>, items: Seq<Value>, lo: nat)
    requires
        stored_all(s, lays, items, lo),
    ensures
        lays.len() <= items.len(),
        forall|k: int| 0 <= k < lays.len() ==> stored(s, #[trigger] lays[k], items[k], lo),
    decreases items, lays.len(),
{
    if lays.len() > 0 {
        lemma_stored_all_index(s, lays.drop_last(), items, lo);
        assert forall|k: int| 0 <= k < lays.len() implies stored(s, #[trigger] lays[k], items[k], lo) by {
            if k < lays.len() - 1 {
                assert(lays[k] == lays.drop_last()[k]);
            }
        }
    }
}

proof fn lemma_stored_pairs_index(
    s: SerView,
    klays: Seq<Layout>,
    vlays: Seq<Layout>,
    entries: Seq<(Value, Value)>,
    lo: nat,
)
    requires
        stored_pairs(s, klays, vlays, entries, lo),
    ensures
        klays.len() <= entries.len(),
        vlays.len() == klays.len(),
        forall|k: int| 0 <= k < klays.len() ==> stored(s, #[trigger] klays[k], entries[k].0, lo),
        forall|k: int| 0 <= k < vlays.len() ==> stored(s, #[trigger] vlays[k], entries[k].1, lo),
    decreases entries, klays.len(),
{
    if klays.len() > 0 {
        lemma_stored_pairs_index(s, klays.drop_last(), vlays.drop_last(), entries, lo);
        assert forall|k: int| 0 <= k < klays.len() implies stored(s, #[trigger] klays[k], entries[k].0, lo) by {
            if k < klays.len() - 1 {
                assert(klays[k] == klays.drop_last()[k]);
            }
        }
        assert forall|k: int| 0 <= k < vlays.len() implies stored(s, #[trigger] vlays[k], entries[k].1, lo) by {
            if k < vlays.len() - 1 {
                assert(vlays[k] == vlays.drop_last()[k]);
            }
        }
    }
}

proof fn lemma_readable_all_index(items: Seq<Value>, level: nat, n: nat)
    requires
        readable_all(items, level, n),
    ensures
        n <= items.len(),
        forall|k: int| 0 <= k < n ==> readable(#[trigger] items[k], level),
    decreases items, n,
{
    if n > 0 {
        lemma_readable_all_index(items, level, (n - 1) as nat);
    }
}

proof fn lemma_readable_pairs_index(entries: Seq<(Value, Value)>, level: nat, n: nat)
    requires
        readable_pairs(entries, level, n),
    ensures
        n <= entries.len(),
        forall|k: int| 0 <= k < n ==> readable(#[trigger] entries[k].0, level) && readable(
            entries[k].1,
            level,
        ),
    decreases entries, n,
{
    if n > 0 {
        lemma_readable_pairs_index(entries, level, (n - 1) as nat);
    }
}

/// The objects and offset table that `finish` writes, without the trailer.
pub open spec fn finish_data(s: SerView) -> Seq<u8> {
    s.output + refs_bytes(s.offsets, finish_trailer(s).offset_int_size as nat)
}

/// A state that `finish` can end into a property list that reads back: reachable,
/// every object complete, the result within memory, and every index fits a reference.
pub open spec fn finish_ready(s: SerView) -> bool {
    &&& s.wf()
    &&& completed(s, 0)
    &&& finished_bytes(s).len() <= usize::MAX
    &&& s.offsets.len() <= pow256(s.object_ref_size as nat)
}

proof fn lemma_finish_ready_bounds(s: SerView)
    requires
        finish_ready(s),
    ensures
        s.offsets.len() <= usize::MAX,
        s.output.len() <= usize::MAX,
{
    let w = finish_trailer(s).offset_int_size as nat;
    crate::ser::lemma_bytes_needed_fits(crate::ser::seq_max(s.offsets) as nat);
    lemma_refs_bytes_len(s.offsets, w);
    assert(s.offsets.len() <= s.offsets.len() * w) by (nonlinear_arith)
        requires
            w >= 1,
    ;
}

/// In a finished state, a value stored at its layout reads back as itself from the
/// deserializer for its object, given the levels it needs.
proof fn lemma_read(sf: SerView, lay: Layout, v: Value, lo: nat, level: u32)
    requires
        finish_ready(sf),
        stored(sf, lay, v, lo),
        readable(v, level as nat),
    ensures
        spec_for_object(finish_data(sf), finish_trailer(sf), lay.index, level) matches Some(d)
            && reads(d, v),
    decreases v, 0nat,
{
    let i = lay.index;
    let t = finish_trailer(sf);
    let data = finish_data(sf);
    let w = sf.object_ref_size as nat;
    lemma_finish_ready_bounds(sf);
    lemma_finish_roundtrip(sf, level, i as int);
    let off = sf.offsets[i as int] as int;
    let d = DeView {
        data,
        slice: sf.output.subrange(off, sf.output.len() as int),
        trailer: t,
        level,
    };
    let x = match v {
        Value::Array(items) => array_object(layout_refs(lay.children), w),
        Value::Dict(entries) => dict_object(
            layout_refs(lay.children),
            layout_refs(lay.values),
            w,
        ),
        _ => leaf_object(v),
    };
    let rest = sf.output.subrange(off + x.len(), sf.output.len() as int);
    assert(object_at(sf, i, x));
    assert(d.slice =~= x + rest);
    crate::bytes::lemma_pow256_values();
    reveal_with_fuel(pow2, 5);
    match v {
        Value::Bool(b) => {
            lemma_bool_roundtrip(b, rest);
        },
        Value::Unit => {
            lemma_unit_roundtrip(d, rest);
        },
        Value::Unsigned(n, p) => {
            lemma_unsigned_roundtrip(n, p, largest_unsigned(p) as u128, rest);
        },
        Value::Signed(n, p) => {
            lemma_signed_roundtrip(
                n,
                p,
                smallest_signed(p) as i128,
                largest_signed(p) as i128,
                rest,
            );
        },
        Value::Real(bits, p) => {
            lemma_real_roundtrip(bits, p, rest);
        },
        Value::Str(chars) => {
            lemma_str_roundtrip(chars, rest);
        },
        Value::Bytes(b) => {
            lemma_bytes_roundtrip(b, rest);
        },
        Value::Array(items) => {
            let refs = layout_refs(lay.children);
            let n = items.len();
            lemma_refs_bytes_len(refs, w);
            assert(n <= n * w) by (nonlinear_arith)
                requires
                    w >= 1,
            ;
            lemma_array_roundtrip(d, refs, rest);
            let sv = SeqView {
                values: refs_bytes(refs, w),
                elem_len: w as usize,
                next: 0,
                de: d.with_slice(rest),
            };
            lemma_stored_all_index(sf, lay.children, items, i + 1);
            lemma_readable_all_index(items, (level - 1) as nat, n);
            lemma_read_elements(sf, lay.children, items, i + 1, (level - 1) as u32, sv, n);
            assert((n + 1) * w > n * w) by (nonlinear_arith)
                requires
                    w >= 1,
            ;
        },
        Value::Dict(entries) => {
            let krefs = layout_refs(lay.children);
            let vrefs = layout_refs(lay.values);
            let n = entries.len();
            lemma_refs_bytes_len(krefs, w);
            lemma_refs_bytes_len(vrefs, w);
            assert(n <= n * w) by (nonlinear_arith)
                requires
                    w >= 1,
            ;
            lemma_dict_roundtrip(d, krefs, vrefs, rest);
            let dv = DictView {
                keys: refs_bytes(krefs, w),
                values: refs_bytes(vrefs, w),
                elem_len: w as usize,
                next_key: 0,
                next_value: 0,
                de: d.with_slice(rest),
            };
            lemma_stored_pairs_index(sf, lay.children, lay.values, entries, i + 1);
            lemma_readable_pairs_index(entries, (level - 1) as nat, n);
            lemma_read_entries(
                sf,
                lay.children,
                lay.values,
                entries,
                i + 1,
                (level - 1) as u32,
                dv,
                n,
            );
            assert((n + 1) * w > n * w) by (nonlinear_arith)
                requires
                    w >= 1,
            ;
        },
    }
}

/// Reference `k` of the references of `lays`, read from a container's reader whose
/// level is `level + 1`, leads to the object of `lays[k]`, which reads as `v`.
proof fn lemma_read_ref(
    sf: SerView,
    lays: Seq<Layout>,
    k: int,
    v: Value,
    lo: nat,
    level: u32,
    de: DeView,
)
    requires
        finish_ready(sf),
        0 <= k < lays.len(),
        stored(sf, lays[k], v, lo),
        readable(v, level as nat),
        de.data == finish_data(sf),
        de.trailer == finish_trailer(sf),
        de.level == level + 1,
    ensures
        reads_ref(
            refs_bytes(layout_refs(lays), sf.object_ref_size as nat),
            sf.object_ref_size as nat,
            de,
            k as nat,
            v,
        ),
    decreases v, 1nat,
{
    let refs = layout_refs(lays);
    let w = sf.object_ref_size as nat;
    lemma_finish_ready_bounds(sf);
    assert(refs[k] == lays[k].index);
    lemma_element_roundtrip(de, refs, k);
    lemma_read(sf, lays[k], v, lo, level);
}

proof fn lemma_read_elements(
    sf: SerView,
    lays: Seq<Layout>,
    items: Seq<Value>,
    lo: nat,
    level: u32,
    sv: SeqView,
    n: nat,
)
    requires
        finish_ready(sf),
        lays.len() == items.len(),
        n <= items.len(),
        forall|k: int| 0 <= k < lays.len() ==> stored(sf, #[trigger] lays[k], items[k], lo),
        forall|k: int| 0 <= k < items.len() ==> readable(#[trigger] items[k], level as nat),
        sv.values == refs_bytes(layout_refs(lays), sf.object_ref_size as nat),
        sv.elem_len as nat == sf.object_ref_size as nat,
        sv.de.data == finish_data(sf),
        sv.de.trailer == finish_trailer(sf),
        sv.de.level == level + 1,
    ensures
        reads_elements(sv, items, n),
    decreases items, n,
{
    if n > 0 {
        lemma_read_elements(sf, lays, items, lo, level, sv, (n - 1) as nat);
        let k = n - 1;
        assert(stored(sf, lays[k], items[k], lo));
        lemma_read_ref(sf, lays, k, items[k], lo, level, sv.de);
    }
}

proof fn lemma_read_entries(
    sf: SerView,
    klays: Seq<Layout>,
    vlays: Seq<Layout>,
    entries: Seq<(Value, Value)>,
    lo: nat,
    level: u32,
    dv: DictView,
    n: nat,
)
    requires
        finish_ready(sf),
        klays.len() == entries.len(),
        vlays.len() == entries.len(),
        n <= entries.len(),
        forall|k: int| 0 <= k < klays.len() ==> stored(sf, #[trigger] klays[k], entries[k].0, lo),
        forall|k: int| 0 <= k < vlays.len() ==> stored(sf, #[trigger] vlays[k], entries[k].1, lo),
        forall|k: int|
            0 <= k < entries.len() ==> readable(#[trigger] entries[k].0, level as nat)
                && readable(entries[k].1, level as nat),
        dv.keys == refs_bytes(layout_refs(klays), sf.object_ref_size as nat),
        dv.values == refs_bytes(layout_refs(vlays), sf.object_ref_size as nat),
        dv.elem_len as nat == sf.object_ref_size as nat,
        dv.de.data == finish_data(sf),
        dv.de.trailer == finish_trailer(sf),
        dv.de.level == level + 1,
    ensures
        reads_entries(dv, entries, n),
    decreases entries, n,
{
    if n > 0 {
        lemma_read_entries(sf, klays, vlays, entries, lo, level, dv, (n - 1) as nat);
        let k = n - 1;
        assert(stored(sf, klays[k], entries[k].0, lo));
        assert(stored(sf, vlays[k], entries[k].1, lo));
        assert(readable(entries[k].0, level as nat));
        lemma_read_ref(sf, klays, k, entries[k].0, lo, level, dv.de);
        lemma_read_ref(sf, vlays, k, entries[k].1, lo, level, dv.de);
    }
}

/// What the library is for: a value written by the writer's calls in its shape (a
/// container begun, its elements written one by one, then ended) into a fresh
/// writer, and finished, is read back as the same value by a reader that follows its
/// shape, given the nesting levels it needs. It holds where the property list fits
/// in memory and its object indices fit in the writer's references.
pub proof fn lemma_value_roundtrip(s: SerView, v: Value, level: u32)
    requires
        s.wf(),
        s.offsets.len() == 0,
        readable(v, level as nat),
        finished_bytes(write_value(s, v).0).len() <= usize::MAX,
        write_value(s, v).0.offsets.len() <= pow256(s.object_ref_size as nat),
    ensures
        spec_from_slice(finished_bytes(write_value(s, v).0), level) matches Some(d) && reads(
            d,
            v,
        ),
{
    let (sf, lay) = write_value(s, v);
    lemma_write_value(s, v);
    assert(sf.output.take(6) =~= s.output.take(6)) by {
        assert(sf.output.take(s.output.len() as int) == s.output);
        assert(sf.output.take(6) =~= sf.output.take(s.output.len() as int).take(6));
    }
    assert(finish_ready(sf));
    lemma_read(sf, lay, v, 0, level);
    lemma_finish_roundtrip(sf, level, 0);
}

/// Entering a reference with more levels left gives the same object, with as many
/// more levels left.
proof fn lemma_child_budget(d: DeView, c: Seq<u8>, m: u32)
    requires
        d.level <= m,
    ensures
        spec_child(d, c) matches Some(x) ==> {
            &&& x.level + (m - d.level) <= u32::MAX
            &&& spec_child(d.with_level(m), c) == Some(
                x.with_level((x.level + (m - d.level)) as u32),
            )
        },
{
}

/// A value read with some levels left is read the same with more.
proof fn lemma_reads_budget(d: DeView, v: Value, m: u32)
    requires
        reads(d, v),
        d.level <= m,
    ensures
        reads(d.with_level(m), v),
    decreases v, 0nat,
{
    let d2 = d.with_level(m);
    match v {
        Value::Array(items) => {
            let sv = spec_deserialize_seq(d)->Some_0;
            let sv2 = SeqView { de: sv.de.with_level(m), ..sv };
            assert(spec_deserialize_seq(d2) == Some(sv2));
            lemma_elements_budget(sv, items, items.len(), m);
        },
        Value::Dict(entries) => {
            let dv = spec_deserialize_map(d)->Some_0;
            let dv2 = DictView { de: dv.de.with_level(m), ..dv };
            assert(spec_deserialize_map(d2) == Some(dv2));
            lemma_entries_budget(dv, entries, entries.len(), m);
        },
        _ => {},
    }
}

proof fn lemma_ref_budget(region: Seq<u8>, e: nat, de: DeView, k: nat, v: Value, m: u32)
    requires
        reads_ref(region, e, de, k, v),
        de.level <= m,
    ensures
        reads_ref(region, e, de.with_level(m), k, v),
    decreases v, 1nat,
{
    let c = spec_ref_chunk(region, k, e)->Some_0;
    lemma_child_budget(de, c, m);
    let cd = spec_child(de, c)->Some_0;
    lemma_reads_budget(cd, v, (cd.level + (m - de.level)) as u32);
}

proof fn lemma_elements_budget(sv: SeqView, items: Seq<Value>, n: nat, m: u32)
    requires
        reads_elements(sv, items, n),
        sv.de.level <= m,
    ensures
        reads_elements(SeqView { de: sv.de.with_level(m), ..sv }, items, n),
    decreases items, n,
{
    if n > 0 {
        lemma_elements_budget(sv, items, (n - 1) as nat, m);
        lemma_ref_budget(sv.values, sv.elem_len as nat, sv.de, (n - 1) as nat, items[n - 1], m);
    }
}

proof fn lemma_entries_budget(dv: DictView, entries: Seq<(Value, Value)>, n: nat, m: u32)
    requires
        reads_entries(dv, entries, n),
        dv.de.level <= m,
    ensures
        reads_entries(DictView { de: dv.de.with_level(m), ..dv }, entries, n),
    decreases entries, n,
{
    if n > 0 {
        let k = (n - 1) as nat;
        lemma_entries_budget(dv, entries, k, m);
        lemma_ref_budget(dv.keys, dv.elem_len as nat, dv.de, k, entries[n - 1].0, m);
        lemma_ref_budget(dv.values, dv.elem_len as nat, dv.de, k, entries[n - 1].1, m);
    }
}

/// A larger nesting budget never turns a success into a failure, nor changes what is
/// read: where a property list reads as `v` with `max_recursion` of `n`, it reads as
/// `v` with any `m >= n`.
pub proof fn lemma_more_levels_read_same(data: Seq<u8>, v: Value, n: u32, m: u32)
    requires
        n <= m,
        spec_from_slice(data, n) matches Some(d) && reads(d, v),
    ensures
        spec_from_slice(data, m) matches Some(d) && reads(d, v),
{
    let d = spec_from_slice(data, n)->Some_0;
    assert(spec_from_slice(data, m) == Some(d.with_level(m)));
    lemma_reads_budget(d, v, m);
}

/// A serializer made by `new` is one made with references of 8 bytes: from either,
/// writing any value gives the same state, and finishing the same property list.
pub proof fn lemma_new_is_ref_size_8(from_new: SerView, from_sized: SerView, v: Value)
    requires
        from_new == initial_state(8),
        from_sized == initial_state(8),
    ensures
        write_value(from_new, v) == write_value(from_sized, v),
        finished_bytes(write_value(from_new, v).0) == finished_bytes(
            write_value(from_sized, v).0,
        ),
{
}

/// A fresh serializer is reachable: its references are of a valid size and its
/// output begins with `bplist`.
proof fn lemma_initial_state_wf(size: u8)
    requires
        is_ref_size(size as int),
    ensures
        initial_state(size).wf(),
{
    assert(initial_state(size).output.take(6) =~= seq![98u8, 112u8, 108u8, 105u8, 115u8, 116u8]);
}

/// The byte that the trailer of a finished property list gives the reference size:
/// the 25th from the end.
proof fn lemma_finished_ref_size(s: SerView)
    ensures
        finished_bytes(s).len() >= 25,
        finished_bytes(s)[finished_bytes(s).len() - 25] == s.object_ref_size,
{
    let t = finish_trailer(s);
    let head = s.output + refs_bytes(s.offsets, t.offset_int_size as nat);
    lemma_trailer_roundtrip(t);
    assert(finished_bytes(s) == head + trailer_bytes(t));
    assert(finished_bytes(s)[head.len() + 7int] == trailer_bytes(t)[7]);
}

/// References of 2 bytes, for a value whose writing makes fewer than `u16::MAX`
/// objects: the trailer says 2, and the property list reads back as the value, as
/// the one written with the default references of 8 bytes does.
pub proof fn lemma_two_byte_refs_roundtrip(v: Value, level: u32)
    requires
        readable(v, level as nat),
        write_value(initial_state(2), v).0.offsets.len() < 0xffff,
        finished_bytes(write_value(initial_state(2), v).0).len() <= usize::MAX,
        finished_bytes(write_value(initial_state(8), v).0).len() <= usize::MAX,
    ensures
        finished_bytes(write_value(initial_state(2), v).0)[finished_bytes(
            write_value(initial_state(2), v).0,
        ).len() - 25] == 2,
        spec_from_slice(finished_bytes(write_value(initial_state(2), v).0), level) matches Some(
            d,
        ) && reads(d, v),
        spec_from_slice(finished_bytes(write_value(initial_state(8), v).0), level) matches Some(
            d,
        ) && reads(d, v),
{
    let s2 = initial_state(2);
    let s8 = initial_state(8);
    lemma_initial_state_wf(2);
    lemma_initial_state_wf(8);
    lemma_pow256_values();
    let f2 = write_value(s2, v).0;
    let f8 = write_value(s8, v).0;
    lemma_write_value(s2, v);
    lemma_finished_ref_size(f2);
    lemma_value_roundtrip(s2, v, level);
    let w = finish_trailer(f8).offset_int_size as nat;
    crate::ser::lemma_bytes_needed_fits(crate::ser::seq_max(f8.offsets) as nat);
    lemma_refs_bytes_len(f8.offsets, w);
    assert(f8.offsets.len() <= f8.offsets.len() * w) by (nonlinear_arith)
        requires
            w >= 1,
    ;
    lemma_value_roundtrip(s8, v, level);
}

} // verus!
