//! The pigeonhole principle.

use vstd::prelude::*;
use vstd::set_lib::{lemma_int_range, lemma_len_subset, set_int_range};

verus! {

/// More than `n` numbers from 0 up to, but not including, `n` cannot all
/// differ: two of them are equal.
pub proof fn lemma_pigeonhole(s: Seq<int>, n: int)
    requires
        0 <= n < s.len(),
        forall|i: int| 0 <= i < s.len() ==> 0 <= #[trigger] s[i] < n,
    ensures
        exists|i: int, j: int| 0 <= i < j < s.len() && s[i] == s[j],
{
    if s.no_duplicates() {
        s.unique_seq_to_set();
        lemma_int_range(0, n);
        assert(s.to_set().subset_of(set_int_range(0, n)));
        lemma_len_subset(s.to_set(), set_int_range(0, n));
    } else {
        let (i, j) = choose|i: int, j: int|
            0 <= i < s.len() && 0 <= j < s.len() && i != j && s[i] == s[j];
        if i < j {
            assert(0 <= i < j < s.len() && s[i] == s[j]);
        } else {
            assert(0 <= j < i < s.len() && s[j] == s[i]);
        }
    }
}

} // verus!
