//! Suffix array construction with Yuta Mori's divsufsort algorithm, a
//! difference-cover construction (DC3), and substring search over suffix
//! arrays, whole or cut into partitions.
use vstd::prelude::*;

pub mod common;
pub mod crosscheck;
pub mod lex;
pub mod sacabase;
pub mod sssort;
pub mod trsort;
pub mod divsufsort;
pub mod dc3;
pub mod sacapart;
pub mod size;

use crate::common::{Idx, MAX_INPUT_SIZE};
use crate::lex::is_suffix_array;
use crate::sacabase::SuffixArray;

verus! {

/// Sort suffixes of `text` and store their lexographic order
/// in the given suffix array `sa`.
/// The two lengths must agree (the caller checks it; a mismatch is refused
/// by the contract).
pub fn sort_in_place(text: &[u8], sa: &mut [Idx])
    requires
        text@.len() == old(sa)@.len(),
        text@.len() < MAX_INPUT_SIZE,
    ensures
        is_suffix_array(text@, final(sa)@),
{
    divsufsort::divsufsort(text, sa);
}

/// Sort suffixes
pub fn sort(text: &[u8]) -> (r: SuffixArray)
    requires
        text@.len() < MAX_INPUT_SIZE,
    ensures
        r.spec_text() == text@,
        is_suffix_array(text@, r.spec_sa()),
{
    let mut sa: Vec<Idx> = vec![0; text.len()];
    sort_in_place(text, sa.as_mut_slice());
    SuffixArray::new(text, sa)
}

} // verus!
