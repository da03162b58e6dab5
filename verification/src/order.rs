//! The listing order.
//!
//! Tasks are ranked pending-before-done, then ordinary-before-priority,
//! then by due date descending (a missing due date ranks as the last day
//! of year 9999), with ties broken by id; the displayed list is that
//! ranking reversed. The reversal flips every tie-break, so the exact
//! comparator-then-reverse pipeline is reproduced here rather than an
//! intuitive "priority first" ordering.

use vstd::prelude::*;
use crate::dates::canonical_ymd;
use crate::dates::date_le;
use crate::dates::is_canonical_date;
use crate::dates::read_canonical;
use crate::task::Task;
use crate::task::TaskView;
use crate::store::tasks_view;

verus! {

/// The date a task ranks under: its due date, or the far-future default.
pub open spec fn due_key(t: TaskView) -> (int, int, int) {
    match t.due_date {
        Some(s) => canonical_ymd(s),
        None => (9999, 12, 31),
    }
}

/// The ranking before reversal. A total order whenever ids are distinct.
pub open spec fn sort_le(a: TaskView, b: TaskView) -> bool {
    if a.done != b.done {
        !a.done
    } else if a.priority != b.priority {
        !a.priority
    } else if due_key(a) != due_key(b) {
        date_le(due_key(b), due_key(a))
    } else {
        a.id <= b.id
    }
}

proof fn lemma_sort_le_total(a: TaskView, b: TaskView)
    ensures
        sort_le(a, b) || sort_le(b, a),
{
}

proof fn lemma_sort_le_trans(a: TaskView, b: TaskView, c: TaskView)
    requires
        sort_le(a, b),
        sort_le(b, c),
    ensures
        sort_le(a, c),
{
}

fn due_key_exec(t: &Task) -> (r: (i32, u8, u8))
    requires
        t@.due_date matches Some(s) ==> is_canonical_date(s),
    ensures
        (r.0 as int, r.1 as int, r.2 as int) == due_key(t@),
{
    match &t.due_date {
        Option::Some(s) => read_canonical(s.as_str()),
        Option::None => (9999, 12, 31),
    }
}

fn sort_le_exec(a: &Task, b: &Task) -> (r: bool)
    requires
        a@.due_date matches Some(s) ==> is_canonical_date(s),
        b@.due_date matches Some(s) ==> is_canonical_date(s),
    ensures
        r == sort_le(a@, b@),
{
    if a.done != b.done {
        !a.done
    } else if a.priority != b.priority {
        !a.priority
    } else {
        let ka = due_key_exec(a);
        let kb = due_key_exec(b);
        if ka.0 != kb.0 || ka.1 != kb.1 || ka.2 != kb.2 {
            kb.0 < ka.0 || (kb.0 == ka.0 && (kb.1 < ka.1 || (kb.1 == ka.1 && kb.2 <= ka.2)))
        } else {
            a.id <= b.id
        }
    }
}

/// Sorts tasks under the ranking: the result is a permutation of the
/// input (equal as multisets) and ordered by `sort_le`; with the store's
/// distinct ids that pins the output completely.
pub fn sort_tasks(tasks: Vec<Task>) -> (r: Vec<Task>)
    requires
        forall|i: int| 0 <= i < tasks@.len() ==> ((#[trigger] tasks@[i])@.due_date matches Some(s)
            ==> is_canonical_date(s)),
    ensures
        r@.len() == tasks@.len(),
        tasks_view(r@).to_multiset() == tasks_view(tasks@).to_multiset(),
        forall|p: int, q: int| 0 <= p < q < r@.len() ==> #[trigger] sort_le(
            tasks_view(r@)[p],
            tasks_view(r@)[q],
        ),
{
    broadcast use vstd::seq_lib::group_to_multiset_ensures;
    broadcast use vstd::multiset::group_multiset_axioms;

    let ghost ms0 = tasks_view(tasks@).to_multiset();
    let ghost n = tasks@.len();
    let mut input = tasks;
    let mut out: Vec<Task> = Vec::new();
    while input.len() > 0
        invariant
            out@.len() + input@.len() == n,
            tasks_view(out@).to_multiset().add(tasks_view(input@).to_multiset()) == ms0,
            forall|i: int| 0 <= i < input@.len() ==> ((#[trigger] input@[i])@.due_date
                matches Some(s) ==> is_canonical_date(s)),
            forall|p: int, q: int| 0 <= p < q < out@.len() ==> #[trigger] sort_le(
                tasks_view(out@)[p],
                tasks_view(out@)[q],
            ),
            forall|p: int, j: int|
                0 <= p < out@.len() && 0 <= j < input@.len() ==> #[trigger] sort_le(
                    tasks_view(out@)[p],
                    tasks_view(input@)[j],
                ),
        decreases input@.len(),
    {
        let ghost inv = tasks_view(input@);
        let mut m: usize = 0;
        let mut j: usize = 1;
        while j < input.len()
            invariant
                inv == tasks_view(input@),
                m < input@.len(),
                j <= input@.len(),
                forall|i: int| 0 <= i < input@.len() ==> ((#[trigger] input@[i])@.due_date
                    matches Some(s) ==> is_canonical_date(s)),
                forall|x: int| 0 <= x < j ==> #[trigger] sort_le(inv[m as int], inv[x]),
            decreases input@.len() - j,
        {
            if sort_le_exec(&input[j], &input[m]) {
                proof {
                    assert forall|x: int| 0 <= x < j + 1 implies #[trigger] sort_le(
                        inv[j as int],
                        inv[x],
                    ) by {
                        if x < j {
                            lemma_sort_le_trans(inv[j as int], inv[m as int], inv[x]);
                        } else {
                            lemma_sort_le_total(inv[j as int], inv[j as int]);
                        }
                    }
                }
                m = j;
            } else {
                proof {
                    lemma_sort_le_total(inv[j as int], inv[m as int]);
                }
            }
            j = j + 1;
        }
        let ghost outv0 = tasks_view(out@);
        let ghost in0 = input@;
        let t = input.remove(m);
        out.push(t);
        proof {
            in0.remove_ensures(m as int);
            inv.remove_ensures(m as int);
            assert(t == in0[m as int]);
            assert(tasks_view(in0)[m as int] == t@);
            assert(t@ == inv[m as int]);
            assert forall|x: int| 0 <= x < input@.len() implies tasks_view(input@)[x]
                == inv.remove(m as int)[x] by {
                assert(input@[x] == in0.remove(m as int)[x]);
                if x < m as int {
                    assert(in0.remove(m as int)[x] == in0[x]);
                    assert(inv.remove(m as int)[x] == inv[x]);
                } else {
                    assert(in0.remove(m as int)[x] == in0[x + 1]);
                    assert(inv.remove(m as int)[x] == inv[x + 1]);
                }
            }
            assert(tasks_view(input@) =~= inv.remove(m as int));
            assert(tasks_view(out@) =~= outv0.push(inv[m as int]));
            assert(inv.contains(inv[m as int]));
            vstd::seq_lib::to_multiset_contains(inv, inv[m as int]);
            assert(inv.to_multiset().count(inv[m as int]) > 0);
            vstd::seq_lib::to_multiset_build(outv0, inv[m as int]);
            assert(tasks_view(out@).to_multiset() =~= outv0.to_multiset().insert(inv[m as int]));
            vstd::seq_lib::to_multiset_remove(inv, m as int);
            assert(tasks_view(input@).to_multiset() =~= inv.to_multiset().remove(inv[m as int]));
            assert(outv0.to_multiset().insert(inv[m as int]).add(
                inv.to_multiset().remove(inv[m as int]),
            ) =~= outv0.to_multiset().add(inv.to_multiset()));
        }
    }
    out
}

/// What the listing shows: the ranking reversed, so completed tasks lead.
pub fn display_order(tasks: Vec<Task>) -> (r: Vec<Task>)
    requires
        forall|i: int| 0 <= i < tasks@.len() ==> ((#[trigger] tasks@[i])@.due_date matches Some(s)
            ==> is_canonical_date(s)),
    ensures
        r@.len() == tasks@.len(),
        tasks_view(r@).to_multiset() == tasks_view(tasks@).to_multiset(),
        forall|p: int, q: int| 0 <= p < q < r@.len() ==> #[trigger] sort_le(
            tasks_view(r@)[q],
            tasks_view(r@)[p],
        ),
{
    let mut sorted = sort_tasks(tasks);
    let ghost sv = tasks_view(sorted@);
    let ghost n = sorted@.len();
    let mut out: Vec<Task> = Vec::new();
    while sorted.len() > 0
        invariant
            out@.len() + sorted@.len() == n,
            sv.len() == n,
            tasks_view(sorted@) == sv.take(sorted@.len() as int),
            forall|i: int| 0 <= i < out@.len() ==> (#[trigger] tasks_view(out@)[i]) == sv[n - 1
                - i],
            forall|p: int, q: int| 0 <= p < q < n ==> #[trigger] sort_le(sv[p], sv[q]),
        decreases sorted@.len(),
    {
        let ghost outv0 = tasks_view(out@);
        let ghost k = sorted@.len();
        let ghost s0 = sorted@;
        let t = match sorted.pop() {
            Some(t) => t,
            None => {
                proof {
                    assert(false);
                }
                unreached()
            },
        };
        out.push(t);
        proof {
            assert(t == s0.last());
            assert(tasks_view(s0)[k - 1] == t@);
            assert(tasks_view(s0) == sv.take(k as int));
            assert(t@ == sv.take(k as int)[k - 1]);
            assert(sv.take(k as int)[k - 1] == sv[k - 1]);
            assert(sorted@ =~= s0.drop_last());
            assert forall|x: int| 0 <= x < sorted@.len() implies tasks_view(sorted@)[x]
                == sv.take(k - 1)[x] by {
                assert(sorted@[x] == s0[x]);
                assert(tasks_view(s0)[x] == sv.take(k as int)[x]);
            }
            assert(tasks_view(sorted@) =~= sv.take(k - 1));
            assert(tasks_view(out@) =~= outv0.push(sv[k - 1]));
        }
    }
    proof {
        broadcast use vstd::seq_lib::group_to_multiset_ensures;
        broadcast use vstd::multiset::group_multiset_axioms;

        assert(tasks_view(out@) =~= sv.reverse());
        sv.lemma_reverse_to_multiset();
    }
    out
}

} // verus!
