use vstd::prelude::*;

verus! {

/// The number of `true` entries of `s`.
pub open spec fn marked_count(s: Seq<bool>) -> nat
    decreases s.len(),
{
    if s.len() == 0 {
        0
    } else {
        marked_count(s.drop_last()) + if s.last() {
            1nat
        } else {
            0nat
        }
    }
}

/// No sequence has more `true` entries than entries.
pub proof fn lemma_marked_count_bound(s: Seq<bool>)
    ensures
        marked_count(s) <= s.len(),
    decreases s.len(),
{
    if s.len() > 0 {
        lemma_marked_count_bound(s.drop_last());
    }
}

/// Turning one `false` entry into `true` adds one to the count.
pub proof fn lemma_marked_count_mark(s: Seq<bool>, i: int)
    requires
        0 <= i < s.len(),
        !s[i],
    ensures
        marked_count(s.update(i, true)) == marked_count(s) + 1,
    decreases s.len(),
{
    let t = s.update(i, true);
    if i == s.len() - 1 {
        assert(t.drop_last() =~= s.drop_last());
    } else {
        assert(t.drop_last() =~= s.drop_last().update(i, true));
        lemma_marked_count_mark(s.drop_last(), i);
    }
}

/// A sequence with no `true` entry counts zero.
pub proof fn lemma_marked_count_none(s: Seq<bool>)
    requires
        forall|k: int| 0 <= k < s.len() ==> !#[trigger] s[k],
    ensures
        marked_count(s) == 0,
    decreases s.len(),
{
    if s.len() > 0 {
        lemma_marked_count_none(s.drop_last());
    }
}

} // verus!
