//! What the browser module does with the port list: decode it, keep the
//! rows that match the search text, sort them, and encode them again. The
//! memory handoff with JavaScript is the program's part.

use vstd::prelude::*;
use crate::record::RecordView;
use crate::view::{
    filter, filter_spec, law_sort_orders, law_sort_permutes, law_sort_stable, same_key, sort,
    sort_key_of, sort_spec, sorted_by, SortKey,
};
use crate::wire::{decode, decode_spec, encode, encode_spec, law_decode_encode, sanitize};

verus! {

/// The text the dashboard shows for a wire-encoded list, a column number
/// and a search text.
pub open spec fn process_spec(input: Seq<char>, sort_key: u32, needle: Seq<char>) -> Seq<char> {
    encode_spec(sort_spec(filter_spec(decode_spec(input), needle), sort_key_of(sort_key)))
}

/// Sort and filter a wire-encoded port list: decode, filter by `needle`,
/// sort by the column `sort_key` selects, encode.
pub fn process_text(input: &str, sort_key: u32, needle: &str) -> (out: String)
    ensures
        out@ == process_spec(input@, sort_key, needle@),
{
    let all_records = decode(input);
    let mut shown = filter(all_records.as_slice(), needle);
    sort(&mut shown, SortKey::from_u32(sort_key));
    encode(shown.as_slice())
}

/// The dashboard's answer encodes the records of the input that match the
/// search text, each once, in ascending order of the selected column, and
/// with the records that share a key value in their input order; decoding
/// the answer gives those records back as the wire carries them.
pub proof fn law_process_sorts_matches(input: Seq<char>, sort_key: u32, needle: Seq<char>)
    ensures
        exists|s: Seq<RecordView>|
            {
                &&& encode_spec(s) == process_spec(input, sort_key, needle)
                &&& decode_spec(process_spec(input, sort_key, needle)) == s.map_values(
                    |r: RecordView| sanitize(r),
                )
                &&& sorted_by(s, sort_key_of(sort_key))
                &&& s.to_multiset() == filter_spec(decode_spec(input), needle).to_multiset()
                &&& forall|v: RecordView|
                    #[trigger] same_key(s, v, sort_key_of(sort_key)) == same_key(
                        filter_spec(decode_spec(input), needle),
                        v,
                        sort_key_of(sort_key),
                    )
            },
{
    let key = sort_key_of(sort_key);
    let shown = filter_spec(decode_spec(input), needle);
    let s = sort_spec(shown, key);
    law_sort_orders(shown, key);
    law_sort_permutes(shown, key);
    law_decode_encode(s);
    assert forall|v: RecordView| #[trigger] same_key(s, v, key) == same_key(shown, v, key) by {
        law_sort_stable(shown, v, key);
    }
    assert({
        &&& encode_spec(s) == process_spec(input, sort_key, needle)
        &&& decode_spec(process_spec(input, sort_key, needle)) == s.map_values(
            |r: RecordView| sanitize(r),
        )
        &&& sorted_by(s, key)
        &&& s.to_multiset() == shown.to_multiset()
        &&& forall|v: RecordView| #[trigger] same_key(s, v, key) == same_key(shown, v, key)
    });
}

/// Pack where an answer lives and how long it is into one 64-bit number for
/// JavaScript: high 32 bits the length, low 32 bits the pointer.
pub fn pack_output(ptr_bits: u64, len_bits: u64) -> (packed: u64)
    ensures
        packed == ((len_bits << 32u64) | ptr_bits),
{
    (len_bits << 32) | ptr_bits
}

/// A pointer and a length that both fit in 32 bits come back out of the
/// packed number unchanged.
pub proof fn law_pack_unpack(ptr_bits: u64, len_bits: u64)
    requires
        ptr_bits < 0x1_0000_0000,
        len_bits < 0x1_0000_0000,
    ensures
        ((len_bits << 32u64) | ptr_bits) & 0xffff_ffffu64 == ptr_bits,
        ((len_bits << 32u64) | ptr_bits) >> 32u64 == len_bits,
{
    assert(((len_bits << 32u64) | ptr_bits) & 0xffff_ffffu64 == ptr_bits) by (bit_vector)
        requires
            ptr_bits < 0x1_0000_0000,
    ;
    assert(((len_bits << 32u64) | ptr_bits) >> 32u64 == len_bits) by (bit_vector)
        requires
            ptr_bits < 0x1_0000_0000,
            len_bits < 0x1_0000_0000,
    ;
}

} // verus!
