//! Small things that several searches share.

use vstd::prelude::*;

verus! {

/// Distinct values below `n` are at most `n` in number.
pub proof fn lemma_distinct_below(order: Seq<usize>, n: int)
    requires
        n >= 0,
        order.no_duplicates(),
        forall|i: int| 0 <= i < order.len() ==> #[trigger] order[i] < n,
    ensures
        order.len() <= n,
    decreases n,
{
    if n == 0 {
        if order.len() > 0 {
            assert(order[0] < 0);
        }
    } else if exists|i: int| 0 <= i < order.len() && #[trigger] order[i] == n - 1 {
        let i = choose|i: int| 0 <= i < order.len() && #[trigger] order[i] == n - 1;
        let rest = order.remove(i);
        assert forall|j: int| 0 <= j < rest.len() implies #[trigger] rest[j] < n - 1 by {
            if j < i {
                assert(rest[j] == order[j]);
            } else {
                assert(rest[j] == order[j + 1]);
            }
        }
        assert(rest.no_duplicates()) by {
            assert forall|a: int, b: int| 0 <= a < rest.len() && 0 <= b < rest.len() && a != b implies rest[a]
                != rest[b] by {
                let oa = if a < i {
                    a
                } else {
                    a + 1
                };
                let ob = if b < i {
                    b
                } else {
                    b + 1
                };
                assert(rest[a] == order[oa] && rest[b] == order[ob]);
            }
        }
        lemma_distinct_below(rest, n - 1);
    } else {
        assert forall|j: int| 0 <= j < order.len() implies #[trigger] order[j] < n - 1 by {}
        lemma_distinct_below(order, n - 1);
    }
}

/// A vector of `n` copies of `value`.
pub fn filled(n: usize, value: usize) -> (v: Vec<usize>)
    ensures
        v@.len() == n,
        forall|i: int| 0 <= i < n ==> #[trigger] v@[i] == value,
{
    let mut v: Vec<usize> = Vec::with_capacity(n);
    while v.len() < n
        invariant
            v@.len() <= n,
            forall|i: int| 0 <= i < v@.len() ==> #[trigger] v@[i] == value,
        decreases n - v@.len(),
    {
        v.push(value);
    }
    v
}

/// A vector of `n` unset marks, in place of whatever `marks` held.
pub fn reset_marks(marks: &mut Vec<bool>, n: usize)
    ensures
        final(marks)@.len() == n,
        forall|i: int| 0 <= i < n ==> !(#[trigger] final(marks)@[i]),
{
    marks.clear();
    while marks.len() < n
        invariant
            marks@.len() <= n,
            forall|i: int| 0 <= i < marks@.len() ==> !(#[trigger] marks@[i]),
        decreases n - marks@.len(),
    {
        marks.push(false);
    }
}

/// How many entries of `list` are marked.
pub open spec fn count_marked(list: Seq<usize>, marks: Seq<bool>) -> nat
    decreases list.len(),
{
    if list.len() == 0 {
        0
    } else {
        count_marked(list.drop_last(), marks) + if marks[list.last() as int] {
            1nat
        } else {
            0nat
        }
    }
}

/// Where nothing is marked, no entry of `list` is.
pub proof fn lemma_none_marked(list: Seq<usize>, marks: Seq<bool>)
    requires
        forall|i: int| 0 <= i < list.len() ==> #[trigger] list[i] < marks.len(),
        forall|i: int| 0 <= i < marks.len() ==> !(#[trigger] marks[i]),
    ensures
        count_marked(list, marks) == 0,
    decreases list.len(),
{
    if list.len() > 0 {
        let rest = list.drop_last();
        assert forall|i: int| 0 <= i < rest.len() implies #[trigger] rest[i] < marks.len() by {
            assert(rest[i] == list[i]);
        }
        lemma_none_marked(rest, marks);
        assert(list[list.len() - 1] < marks.len());
    }
}

/// Marking what `list` does not hold leaves the count of its marked entries
/// as it is.
pub proof fn lemma_mark_absent(list: Seq<usize>, marks: Seq<bool>, at: int)
    requires
        0 <= at < marks.len(),
        forall|i: int| 0 <= i < list.len() ==> #[trigger] list[i] < marks.len() && list[i] != at,
    ensures
        count_marked(list, marks.update(at, true)) == count_marked(list, marks),
    decreases list.len(),
{
    if list.len() > 0 {
        let rest = list.drop_last();
        assert forall|i: int| 0 <= i < rest.len() implies #[trigger] rest[i] < marks.len()
            && rest[i] != at by {
            assert(rest[i] == list[i]);
        }
        lemma_mark_absent(rest, marks, at);
        assert(list[list.len() - 1] != at);
    }
}

/// One more mark is at most one more marked entry in a list that holds
/// nothing twice.
pub proof fn lemma_mark_one(list: Seq<usize>, marks: Seq<bool>, at: int)
    requires
        0 <= at < marks.len(),
        list.no_duplicates(),
        forall|i: int| 0 <= i < list.len() ==> #[trigger] list[i] < marks.len(),
    ensures
        count_marked(list, marks) <= count_marked(list, marks.update(at, true)) <= count_marked(
            list,
            marks,
        ) + 1,
    decreases list.len(),
{
    if list.len() > 0 {
        let rest = list.drop_last();
        let last = list.last();
        assert forall|i: int| 0 <= i < rest.len() implies #[trigger] rest[i] < marks.len()
            && rest[i] != last by {
            assert(rest[i] == list[i]);
        }
        assert(rest.no_duplicates());
        assert(list[list.len() - 1] < marks.len());
        if last == at {
            lemma_mark_absent(rest, marks, at);
        } else {
            lemma_mark_one(rest, marks, at);
        }
    }
}

/// The entries of `list` that are not marked, in the order of `list`.
pub fn keep_unmarked(list: &Vec<usize>, marks: &Vec<bool>) -> (kept: Vec<usize>)
    requires
        list@.no_duplicates(),
        forall|i: int| 0 <= i < list@.len() ==> #[trigger] list@[i] < marks@.len(),
    ensures
        kept@.no_duplicates(),
        forall|x: usize| kept@.contains(x) <==> list@.contains(x) && !marks@[x as int],
        kept@.len() + count_marked(list@, marks@) == list@.len(),
{
    let mut kept: Vec<usize> = Vec::new();
    let mut j: usize = 0;
    while j < list.len()
        invariant
            j <= list@.len(),
            list@.no_duplicates(),
            forall|i: int| 0 <= i < list@.len() ==> #[trigger] list@[i] < marks@.len(),
            kept@.no_duplicates(),
            forall|x: usize|
                kept@.contains(x) <==> list@.take(j as int).contains(x) && !marks@[x as int],
            kept@.len() + count_marked(list@.take(j as int), marks@) == j,
        decreases list@.len() - j,
    {
        let entry = list[j];
        let ghost seen = list@.take(j as int);
        let ghost seen_more = list@.take(j + 1);
        let ghost before = kept@;
        proof {
            assert(seen_more.drop_last() == seen);
            assert(seen_more.last() == entry);
            assert(list@[j as int] < marks@.len());
            assert forall|x: usize| seen_more.contains(x) <==> seen.contains(x) || x == entry by {
                if seen.contains(x) {
                    let at = choose|at: int| 0 <= at < seen.len() && seen[at] == x;
                    assert(seen_more[at] == x);
                }
                if seen_more.contains(x) && x != entry {
                    let at = choose|at: int| 0 <= at < seen_more.len() && seen_more[at] == x;
                    assert(seen[at] == x);
                }
                assert(seen_more[j as int] == entry);
            }
            assert(!seen.contains(entry)) by {
                if seen.contains(entry) {
                    let at = choose|at: int| 0 <= at < seen.len() && seen[at] == entry;
                    assert(list@[at] == list@[j as int]);
                }
            }
        }
        if !marks[entry] {
            kept.push(entry);
            proof {
                assert(kept@[before.len() as int] == entry);
                assert forall|x: usize| kept@.contains(x) <==> before.contains(x) || x == entry by {
                    if before.contains(x) {
                        let at = choose|at: int| 0 <= at < before.len() && before[at] == x;
                        assert(kept@[at] == x);
                    }
                    if kept@.contains(x) && x != entry {
                        let at = choose|at: int| 0 <= at < kept@.len() && kept@[at] == x;
                        assert(before[at] == x);
                    }
                }
                assert(!before.contains(entry));
                assert forall|a: int, b: int|
                    0 <= a < kept@.len() && 0 <= b < kept@.len() && a != b implies kept@[a]
                    != kept@[b] by {
                    if a < before.len() && b < before.len() {
                        assert(before[a] != before[b]);
                    } else if a < before.len() {
                        assert(before.contains(before[a]));
                    } else {
                        assert(before.contains(before[b]));
                    }
                }
            }
        }
        proof {
            assert forall|x: usize| kept@.contains(x) <==> seen_more.contains(x)
                && !marks@[x as int] by {
                assert(before.contains(x) <==> seen.contains(x) && !marks@[x as int]);
                assert(seen_more.contains(x) <==> seen.contains(x) || x == entry);
                if marks@[entry as int] {
                    assert(kept@ == before);
                } else {
                    assert(kept@.contains(x) <==> before.contains(x) || x == entry);
                }
            }
        }
        j += 1;
    }
    assert(list@.take(j as int) == list@);
    kept
}

} // verus!
