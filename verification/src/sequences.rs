//! Stacks of plain values: pushing a list so that it comes off in its own
//! order, and facts about membership in sequences that grow and shrink at the
//! end.

use vstd::prelude::*;

verus! {

/// What a sequence contains after a push: what it contained, and the new item.
pub proof fn lemma_push_contains<A>(s: Seq<A>, item: A)
    ensures
        forall|other: A| #[trigger] s.push(item).contains(other) <==> s.contains(other) || other == item,
{
    assert forall|other: A| #[trigger] s.push(item).contains(other) <==> s.contains(other) || other
        == item by {
        if s.push(item).contains(other) {
            let at = choose|at: int| 0 <= at < s.push(item).len() && s.push(item)[at] == other;
            if at < s.len() {
                assert(s[at] == other);
            }
        }
        if s.contains(other) {
            let at = choose|at: int| 0 <= at < s.len() && s[at] == other;
            assert(s.push(item)[at] == other);
        }
        if other == item {
            assert(s.push(item)[s.len() as int] == other);
        }
    }
}

/// What a sequence without duplicates contains after its last item was taken
/// off: what it contained, but for that item.
pub proof fn lemma_drop_last_contains<A>(s: Seq<A>)
    requires
        s.len() > 0,
        s.no_duplicates(),
    ensures
        s.drop_last().no_duplicates(),
        s.contains(s.last()),
        forall|other: A| #[trigger] s.drop_last().contains(other) <==> s.contains(other) && other != s.last(),
{
    assert(s[s.len() - 1] == s.last());
    assert forall|other: A| #[trigger] s.drop_last().contains(other) <==> s.contains(other) && other
        != s.last() by {
        if s.drop_last().contains(other) {
            let at = choose|at: int| 0 <= at < s.drop_last().len() && s.drop_last()[at] == other;
            assert(s[at] == other);
        }
        if s.contains(other) && other != s.last() {
            let at = choose|at: int| 0 <= at < s.len() && s[at] == other;
            assert(s.drop_last()[at] == other);
        }
    }
}

/// What two sequences contain when joined: what either contained.  Joined
/// sequences without duplicates and without a common item have no duplicates.
pub proof fn lemma_concat_contains<A>(a: Seq<A>, b: Seq<A>)
    ensures
        forall|other: A| #[trigger] (a + b).contains(other) <==> a.contains(other) || b.contains(other),
        a.no_duplicates() && b.no_duplicates() && (forall|other: A|
            !(a.contains(other) && b.contains(other))) ==> (a + b).no_duplicates(),
{
    assert forall|other: A| #[trigger] (a + b).contains(other) <==> a.contains(other) || b.contains(
        other,
    ) by {
        if (a + b).contains(other) {
            let at = choose|at: int| 0 <= at < (a + b).len() && (a + b)[at] == other;
            if at < a.len() {
                assert(a[at] == other);
            } else {
                assert(b[at - a.len()] == other);
            }
        }
        if a.contains(other) {
            let at = choose|at: int| 0 <= at < a.len() && a[at] == other;
            assert((a + b)[at] == other);
        }
        if b.contains(other) {
            let at = choose|at: int| 0 <= at < b.len() && b[at] == other;
            assert((a + b)[at + a.len()] == other);
        }
    }
    if a.no_duplicates() && b.no_duplicates() && (forall|other: A|
        !(a.contains(other) && b.contains(other))) {
        assert forall|i: int, j: int| 0 <= i < a.len() && 0 <= j < b.len() implies a[i] != b[j] by {
            assert(a.contains(a[i]));
            assert(b.contains(b[j]));
        }
        vstd::seq_lib::lemma_no_dup_in_concat(a, b);
    }
}

/// A reversed sequence contains what the sequence contains, and has no
/// duplicates if the sequence has none.
pub proof fn lemma_reverse_contains<A>(s: Seq<A>)
    ensures
        s.reverse().len() == s.len(),
        forall|other: A| #[trigger] s.reverse().contains(other) <==> s.contains(other),
        s.no_duplicates() ==> s.reverse().no_duplicates(),
{
    let r = s.reverse();
    assert forall|other: A| #[trigger] r.contains(other) <==> s.contains(other) by {
        if r.contains(other) {
            let at = choose|at: int| 0 <= at < r.len() && r[at] == other;
            assert(s[s.len() - 1 - at] == other);
        }
        if s.contains(other) {
            let at = choose|at: int| 0 <= at < s.len() && s[at] == other;
            assert(r[s.len() - 1 - at] == other);
        }
    }
}

/// Puts the items of `list` on top of `stack`, last item first, so that they
/// come off in the order of `list`.
pub fn push_reversed<T: Copy>(stack: &mut Vec<T>, list: &[T])
    ensures
        final(stack)@ == old(stack)@ + list@.reverse(),
{
    let mut i: usize = list.len();
    while i > 0
        invariant
            i <= list@.len(),
            stack@ == old(stack)@ + list@.subrange(i as int, list@.len() as int).reverse(),
        decreases i,
    {
        i -= 1;
        stack.push(list[i]);
        proof {
            let tail = list@.subrange(i + 1, list@.len() as int);
            let longer = list@.subrange(i as int, list@.len() as int);
            assert(longer.reverse() =~= tail.reverse().push(list@[i as int]));
        }
    }
    proof {
        assert(list@.subrange(0, list@.len() as int) == list@);
    }
}

} // verus!
