//! Counting over boolean sequences: how many entries are set, how many are
//! clear, and how single updates move those counts.  Used to track visited
//! cells and open wall flags.

use vstd::prelude::*;

verus! {

/// The number of `true` entries of `s`.
pub open spec fn marked_count(s: Seq<bool>) -> nat
    decreases s.len(),
{
    if s.len() == 0 {
        0
    } else {
        marked_count(s.drop_last()) + if s.last() {
            1nat
        } else {
            0nat
        }
    }
}

/// The number of `false` entries of `s`.
pub open spec fn open_flag_count(s: Seq<bool>) -> nat
    decreases s.len(),
{
    if s.len() == 0 {
        0
    } else {
        open_flag_count(s.drop_last()) + if s.last() {
            0nat
        } else {
            1nat
        }
    }
}

/// Setting a clear entry raises the marked count by one.
pub proof fn lemma_marked_count_set(s: Seq<bool>, i: int)
    requires
        0 <= i < s.len(),
        !s[i],
    ensures
        marked_count(s.update(i, true)) == marked_count(s) + 1,
    decreases s.len(),
{
    if i == s.len() - 1 {
        assert(s.update(i, true).drop_last() =~= s.drop_last());
    } else {
        assert(s.update(i, true).drop_last() =~= s.drop_last().update(i, true));
        lemma_marked_count_set(s.drop_last(), i);
    }
}

/// Clearing a set entry raises the open count by one.
pub proof fn lemma_open_flag_count_clear(s: Seq<bool>, i: int)
    requires
        0 <= i < s.len(),
        s[i],
    ensures
        open_flag_count(s.update(i, false)) == open_flag_count(s) + 1,
    decreases s.len(),
{
    if i == s.len() - 1 {
        assert(s.update(i, false).drop_last() =~= s.drop_last());
    } else {
        assert(s.update(i, false).drop_last() =~= s.drop_last().update(i, false));
        lemma_open_flag_count_clear(s.drop_last(), i);
    }
}

/// When every entry is set, no flag counts as open.
pub proof fn lemma_open_flag_count_all_set(s: Seq<bool>)
    requires
        forall|i: int| 0 <= i < s.len() ==> s[i],
    ensures
        open_flag_count(s) == 0,
    decreases s.len(),
{
    if s.len() > 0 {
        assert(forall|i: int| 0 <= i < s.drop_last().len() ==> s.drop_last()[i]);
        lemma_open_flag_count_all_set(s.drop_last());
    }
}

/// When no entry is set, the marked count is zero.
pub proof fn lemma_marked_count_none(s: Seq<bool>)
    requires
        forall|i: int| 0 <= i < s.len() ==> !s[i],
    ensures
        marked_count(s) == 0,
    decreases s.len(),
{
    if s.len() > 0 {
        assert(forall|i: int| 0 <= i < s.drop_last().len() ==> !s.drop_last()[i]);
        lemma_marked_count_none(s.drop_last());
    }
}

/// The marked count never exceeds the length.
pub proof fn lemma_marked_count_le_len(s: Seq<bool>)
    ensures
        marked_count(s) <= s.len(),
    decreases s.len(),
{
    if s.len() > 0 {
        lemma_marked_count_le_len(s.drop_last());
    }
}

/// When every entry is set, the marked count is the length.
pub proof fn lemma_marked_count_full(s: Seq<bool>)
    requires
        forall|i: int| 0 <= i < s.len() ==> s[i],
    ensures
        marked_count(s) == s.len(),
    decreases s.len(),
{
    if s.len() > 0 {
        assert(forall|i: int| 0 <= i < s.drop_last().len() ==> s.drop_last()[i]);
        lemma_marked_count_full(s.drop_last());
    }
}

} // verus!
