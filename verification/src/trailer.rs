//! The 32-byte trailer that ends every binary property list.
use vstd::prelude::*;

use crate::bytes::{be_bytes, be_value, lemma_be_bytes_len, lemma_be_bytes_of_value, lemma_be_roundtrip, lemma_be_value_bound, lemma_pow256_values, push_be, read_be};
use crate::error::InvalidPropertyList;

verus! {

/// Property list trailer.
#[derive(Debug, Clone, Copy, PartialEq, Eq)]
pub struct Trailer {
    /// Total number of objects.
    pub num_objects: u64,
    /// The index of the top object.
    pub top_object: u64,
    /// The offset of the offset table.
    pub offset_table_offset: u64,
    /// Offset size in bytes.
    pub offset_int_size: u8,
    /// Object reference size in bytes.
    pub object_ref_size: u8,
}

/// The sizes that the format allows for offsets and object references: 1, 2, 4 or 8 bytes.
pub open spec fn is_ref_size(n: int) -> bool {
    n == 1 || n == 2 || n == 4 || n == 8
}

/// The trailer that the 32 bytes `b` spell, valid or not: two size bytes after six
/// unused ones, then the object count, the top object and the offset table's offset,
/// each a big-endian `u64`.
pub open spec fn trailer_from_bytes(b: Seq<u8>) -> Trailer {
    Trailer {
        offset_int_size: b[6],
        object_ref_size: b[7],
        num_objects: be_value(b.subrange(8, 16)) as u64,
        top_object: be_value(b.subrange(16, 24)) as u64,
        offset_table_offset: be_value(b.subrange(24, 32)) as u64,
    }
}

/// The 32 bytes that encode `t`.
pub open spec fn trailer_bytes(t: Trailer) -> Seq<u8> {
    seq![0u8, 0u8, 0u8, 0u8, 0u8, 0u8, t.offset_int_size, t.object_ref_size]
        + be_bytes(t.num_objects as nat, 8)
        + be_bytes(t.top_object as nat, 8)
        + be_bytes(t.offset_table_offset as nat, 8)
}

impl Trailer {
    pub const LEN: usize = 5 + 3 + 8 * 3;

    /// A trailer that the reader accepts: both sizes are 1, 2, 4 or 8 bytes, there is
    /// at least one object and the top object is one of them.
    pub open spec fn valid(self) -> bool {
        &&& is_ref_size(self.offset_int_size as int)
        &&& is_ref_size(self.object_ref_size as int)
        &&& self.top_object < self.num_objects
        &&& self.num_objects != 0
    }

    /// Reads a trailer from its 32 bytes; fails unless the trailer is valid.
    pub fn parse(b: &[u8; 32]) -> (r: Result<Self, InvalidPropertyList>)
        ensures
            match r {
                Ok(t) => t == trailer_from_bytes(b@) && t.valid(),
                Err(_) => !trailer_from_bytes(b@).valid(),
            },
    {
        let s = b.as_slice();
        let offset_int_size = s[6];
        let object_ref_size = s[7];
        proof {
            lemma_pow256_values();
            lemma_be_value_bound(s@.subrange(8, 16));
            lemma_be_value_bound(s@.subrange(16, 24));
            lemma_be_value_bound(s@.subrange(24, 32));
        }
        let num_objects = read_be(vstd::slice::slice_subrange(s, 8, 16)) as u64;
        let top_object = read_be(vstd::slice::slice_subrange(s, 16, 24)) as u64;
        if !(offset_int_size == 1 || offset_int_size == 2 || offset_int_size == 4
            || offset_int_size == 8) || !(object_ref_size == 1 || object_ref_size == 2
            || object_ref_size == 4 || object_ref_size == 8) || top_object >= num_objects
            || num_objects == 0 {
            return Err(InvalidPropertyList);
        }
        let offset_table_offset = read_be(vstd::slice::slice_subrange(s, 24, 32)) as u64;
        Ok(Self { offset_int_size, object_ref_size, num_objects, top_object, offset_table_offset })
    }

    /// Appends the 32 bytes of the trailer to `output`.
    pub fn write(&self, output: &mut Vec<u8>)
        ensures
            final(output)@ == old(output)@ + trailer_bytes(*self),
    {
        output.push(0);
        output.push(0);
        output.push(0);
        output.push(0);
        output.push(0);
        output.push(0);
        output.push(self.offset_int_size);
        output.push(self.object_ref_size);
        push_be(output, self.num_objects as u128, 8);
        push_be(output, self.top_object as u128, 8);
        push_be(output, self.offset_table_offset as u128, 8);
        assert(final(output)@ =~= old(output)@ + trailer_bytes(*self));
    }
}

/// Reading the bytes that `write` produces gives back the same trailer; so a valid
/// trailer, once written, is accepted by `parse` unchanged.
pub proof fn lemma_trailer_roundtrip(t: Trailer)
    ensures
        trailer_bytes(t).len() == Trailer::LEN,
        trailer_from_bytes(trailer_bytes(t)) == t,
{
    let b = trailer_bytes(t);
    lemma_pow256_values();
    lemma_be_bytes_len(t.num_objects as nat, 8);
    lemma_be_bytes_len(t.top_object as nat, 8);
    lemma_be_bytes_len(t.offset_table_offset as nat, 8);
    lemma_be_roundtrip(t.num_objects as nat, 8);
    lemma_be_roundtrip(t.top_object as nat, 8);
    lemma_be_roundtrip(t.offset_table_offset as nat, 8);
    assert(b.subrange(8, 16) =~= be_bytes(t.num_objects as nat, 8));
    assert(b.subrange(16, 24) =~= be_bytes(t.top_object as nat, 8));
    assert(b.subrange(24, 32) =~= be_bytes(t.offset_table_offset as nat, 8));
}

/// Writing the trailer read from 32 bytes gives back those bytes, where the six
/// unused leading bytes are zero.
pub proof fn lemma_trailer_bytes_roundtrip(b: Seq<u8>)
    requires
        b.len() == Trailer::LEN,
        forall|i: int| 0 <= i < 6 ==> b[i] == 0,
    ensures
        trailer_bytes(trailer_from_bytes(b)) == b,
{
    let t = trailer_from_bytes(b);
    lemma_pow256_values();
    lemma_be_value_bound(b.subrange(8, 16));
    lemma_be_value_bound(b.subrange(16, 24));
    lemma_be_value_bound(b.subrange(24, 32));
    lemma_be_bytes_of_value(b.subrange(8, 16));
    lemma_be_bytes_of_value(b.subrange(16, 24));
    lemma_be_bytes_of_value(b.subrange(24, 32));
    assert(trailer_bytes(t) =~= b);
}

} // verus!
