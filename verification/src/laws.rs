//! Store-wide laws: what the invariant gives every caller, and how the
//! tag index tracks the task collection across mutations.

use vstd::prelude::*;
use crate::store::add_one_tag;
use crate::store::add_tags;
use crate::store::AppDataView;
use crate::store::find_tag;
use crate::store::lemma_find_tag_props;
use crate::store::lemma_prune_props;
use crate::store::lemma_without_id_elems;
use crate::store::lower_of;
use crate::store::lowered;
use crate::store::prune_empty;
use crate::store::remove_one_tag;
use crate::store::remove_tags;
use crate::store::spec_add;
use crate::store::spec_edit;
use crate::store::spec_remove;
use crate::store::store_wf;
use crate::store::tag_names;
use crate::store::TagEntryView;
use crate::store::without_id;
use crate::task::TaskView;

verus! {

/// ID uniqueness: in a well-formed store all live ids are distinct, and
/// each lies below the next-id counter. `add_task` assigns exactly the
/// counter's value and then advances it, and no operation ever lowers the
/// counter short of a reset, so ids are handed out as 1, 2, 3, … and
/// never reused after a removal.
pub proof fn lemma_ids_unique(v: AppDataView)
    requires
        store_wf(v),
    ensures
        forall|i: int, j: int| 0 <= i < j < v.tasks.len() ==> #[trigger] v.tasks[i].id
            != #[trigger] v.tasks[j].id,
        forall|i: int| 0 <= i < v.tasks.len() ==> 1 <= (#[trigger] v.tasks[i]).id < v.next_id,
{
}

/// Whether the task has a tag that the index files under `name`.
pub open spec fn task_carries(t: TaskView, name: Seq<char>) -> bool {
    t.tags matches Some(ts) && exists|l: int|
        0 <= l < ts.len() && lower_of(#[trigger] ts[l]) == name
}

/// The id at position (k, j) of the index belongs to a live task that
/// carries the entry's tag.
pub open spec fn entry_ok(tags: Seq<TagEntryView>, tasks: Seq<TaskView>, k: int, j: int) -> bool {
    0 <= k < tags.len() && 0 <= j < tags[k].ids.len() ==> exists|i: int|
        0 <= i < tasks.len() && (#[trigger] tasks[i]).id == tags[k].ids[j] && task_carries(
            tasks[i],
            tags[k].tag,
        )
}

/// Consistency of an index against a task list.
pub open spec fn consistent_wrt(tags: Seq<TagEntryView>, tasks: Seq<TaskView>) -> bool {
    forall|k: int, j: int| #[trigger] entry_ok(tags, tasks, k, j)
}

/// Tag-index consistency: every id a tag entry lists belongs to a live
/// task that actually carries that tag.
pub open spec fn tag_index_consistent(v: AppDataView) -> bool {
    consistent_wrt(v.tags, v.tasks)
}

proof fn lemma_add_tags_consistent(
    tags: Seq<TagEntryView>,
    tasks: Seq<TaskView>,
    names: Seq<Seq<char>>,
    t: TaskView,
)
    requires
        consistent_wrt(tags, tasks),
        tasks.contains(t),
        forall|x: int| 0 <= x < names.len() ==> task_carries(t, #[trigger] names[x]),
    ensures
        consistent_wrt(add_tags(tags, names, t.id), tasks),
    decreases names.len(),
{
    if names.len() == 0 {
        assert(add_tags(tags, names, t.id) == tags);
    } else {
        let t1 = add_one_tag(tags, names[0], t.id);
        lemma_find_tag_props(tags, names[0]);
        let i0 = choose|i: int| 0 <= i < tasks.len() && tasks[i] == t;
        assert(tasks[i0] == t);
        assert forall|k: int, j: int| #[trigger] entry_ok(t1, tasks, k, j) by {
            if 0 <= k < t1.len() && 0 <= j < t1[k].ids.len() {
                match find_tag(tags, names[0]) {
                    Some(k0) => {
                        if k == k0 && j == t1[k].ids.len() - 1 {
                            assert(t1[k].ids[j] == t.id);
                            assert(t1[k].tag == names[0]);
                            assert(task_carries(tasks[i0], names[0]));
                        } else {
                            assert(entry_ok(tags, tasks, k, j));
                            assert(t1[k].ids[j] == tags[k].ids[j] && t1[k].tag == tags[k].tag);
                        }
                    },
                    None => {
                        if k == t1.len() - 1 {
                            assert(t1[k].ids =~= seq![t.id]);
                            assert(t1[k].ids[j] == t.id);
                            assert(t1[k].tag == names[0]);
                            assert(task_carries(tasks[i0], names[0]));
                        } else {
                            assert(entry_ok(tags, tasks, k, j));
                            assert(t1[k] == tags[k]);
                        }
                    },
                }
            }
        }
        assert(forall|x: int|
            0 <= x < names.skip(1).len() ==> task_carries(t, #[trigger] names.skip(1)[x])) by {
            assert(forall|x: int|
                0 <= x < names.len() - 1 ==> names.skip(1)[x] == #[trigger] names[x + 1]);
        }
        lemma_add_tags_consistent(t1, tasks, names.skip(1), t);
        assert(add_tags(tags, names, t.id) == add_tags(t1, names.skip(1), t.id));
    }
}

/// Creating a task keeps the tag index consistent: the new entries point
/// at the new task, which carries exactly the tags that were indexed.
pub proof fn lemma_add_preserves_consistency(v: AppDataView, t: TaskView)
    requires
        tag_index_consistent(v),
    ensures
        tag_index_consistent(spec_add(v, t)),
{
    let tasks2 = v.tasks.push(t);
    assert(tasks2[tasks2.len() - 1] == t);
    assert(tasks2.contains(t));
    assert forall|k: int, j: int| #[trigger] entry_ok(v.tags, tasks2, k, j) by {
        if 0 <= k < v.tags.len() && 0 <= j < v.tags[k].ids.len() {
            assert(entry_ok(v.tags, v.tasks, k, j));
            let i0 = choose|i: int|
                0 <= i < v.tasks.len() && (#[trigger] v.tasks[i]).id == v.tags[k].ids[j]
                    && task_carries(v.tasks[i], v.tags[k].tag);
            assert(tasks2[i0] == v.tasks[i0]);
        }
    }
    let names = lowered(tag_names(t.tags));
    assert(forall|x: int| 0 <= x < names.len() ==> task_carries(t, #[trigger] names[x])) by {
        match t.tags {
            Some(ts) => {
                assert forall|x: int| 0 <= x < names.len() implies task_carries(
                    t,
                    #[trigger] names[x],
                ) by {
                    assert(names[x] == lower_of(ts[x]));
                }
            },
            None => {},
        }
    }
    lemma_add_tags_consistent(v.tags, tasks2, names, t);
}

/// Replacing a task with one of the same id and the same tag list — a
/// completion mark, or an edit that supplies no tags — keeps the index
/// consistent. (An edit that does supply tags leaves the old entries
/// pointing at a task that no longer carries them — the accumulation the
/// store deliberately preserves — so no such law holds there.)
pub proof fn lemma_update_preserves_consistency(v: AppDataView, i: int, t2: TaskView)
    requires
        tag_index_consistent(v),
        0 <= i < v.tasks.len(),
        t2.id == v.tasks[i].id,
        t2.tags == v.tasks[i].tags,
    ensures
        tag_index_consistent((AppDataView { tasks: v.tasks.update(i, t2), ..v })),
        tag_index_consistent(spec_edit(v, i, t2, None, t2.id)),
{
    let tasks2 = v.tasks.update(i, t2);
    assert forall|k: int, j: int| #[trigger] entry_ok(v.tags, tasks2, k, j) by {
        if 0 <= k < v.tags.len() && 0 <= j < v.tags[k].ids.len() {
            assert(entry_ok(v.tags, v.tasks, k, j));
            let i0 = choose|i0: int|
                0 <= i0 < v.tasks.len() && (#[trigger] v.tasks[i0]).id == v.tags[k].ids[j]
                    && task_carries(v.tasks[i0], v.tags[k].tag);
            if i0 == i {
                assert(tasks2[i] == t2);
                assert(task_carries(t2, v.tags[k].tag));
            } else {
                assert(tasks2[i0] == v.tasks[i0]);
            }
        }
    }
    assert(spec_edit(v, i, t2, None, t2.id) == (AppDataView { tasks: tasks2, ..v }));
}

proof fn lemma_remove_tags_removes(tags: Seq<TagEntryView>, names: Seq<Seq<char>>, id: int)
    requires
        forall|k1: int, k2: int| 0 <= k1 < k2 < tags.len() ==> (#[trigger] tags[k1]).tag
            != (#[trigger] tags[k2]).tag,
        forall|k: int| 0 <= k < tags.len() && (#[trigger] tags[k]).ids.contains(id)
            ==> names.contains(tags[k].tag),
    ensures
        remove_tags(tags, names, id).len() == tags.len(),
        forall|k: int| 0 <= k < tags.len() ==> (#[trigger] remove_tags(tags, names, id)[k]).tag
            == tags[k].tag,
        forall|k: int, x: int| #![trigger remove_tags(tags, names, id)[k].ids.contains(x)]
            0 <= k < tags.len() && remove_tags(tags, names, id)[k].ids.contains(x)
                ==> tags[k].ids.contains(x) && x != id,
    decreases names.len(),
{
    if names.len() == 0 {
        assert(remove_tags(tags, names, id) == tags);
        assert forall|k: int, x: int| #![trigger remove_tags(tags, names, id)[k].ids.contains(x)]
            0 <= k < tags.len() && remove_tags(tags, names, id)[k].ids.contains(
            x,
        ) implies tags[k].ids.contains(x) && x != id by {
            if tags[k].ids.contains(id) {
                assert(names.contains(tags[k].tag));
                assert(false);
            }
        }
    } else {
        let t1 = remove_one_tag(tags, names[0], id);
        lemma_find_tag_props(tags, names[0]);
        assert(remove_tags(tags, names, id) == remove_tags(t1, names.skip(1), id));
        match find_tag(tags, names[0]) {
            Some(k0) => {
                lemma_without_id_elems(tags[k0].ids, id);
                assert(t1.len() == tags.len());
                assert(forall|k: int|
                    0 <= k < tags.len() && k != k0 ==> t1[k] == #[trigger] tags[k]);
                assert(t1[k0].tag == tags[k0].tag);
                assert(t1[k0].ids == without_id(tags[k0].ids, id));
                assert forall|k: int|
                    0 <= k < t1.len() && (#[trigger] t1[k]).ids.contains(id) implies names.skip(
                    1,
                ).contains(t1[k].tag) by {
                    if k == k0 {
                        let j = choose|j: int| 0 <= j < t1[k0].ids.len() && t1[k0].ids[j] == id;
                        assert(t1[k0].ids[j] != id);
                        assert(false);
                    } else {
                        assert(tags[k].ids.contains(id));
                        assert(names.contains(tags[k].tag));
                        let x = choose|x: int| 0 <= x < names.len() && names[x] == tags[k].tag;
                        if x == 0 {
                            assert(tags[k].tag == names[0] && tags[k0].tag == names[0]);
                            if k < k0 || k0 < k {
                                assert(false);
                            }
                        } else {
                            assert(names.skip(1)[x - 1] == names[x]);
                            assert(names.skip(1).contains(tags[k].tag));
                        }
                    }
                }
                lemma_remove_tags_removes(t1, names.skip(1), id);
                assert forall|k: int, x: int|
                    #![trigger remove_tags(tags, names, id)[k].ids.contains(x)]
                    0 <= k < tags.len() && remove_tags(tags, names, id)[k].ids.contains(
                    x,
                ) implies tags[k].ids.contains(x) && x != id by {
                    assert(remove_tags(t1, names.skip(1), id)[k].ids.contains(x));
                    assert(t1[k].ids.contains(x) && x != id);
                    if k == k0 {
                        let j = choose|j: int| 0 <= j < t1[k0].ids.len() && t1[k0].ids[j] == x;
                        assert(tags[k0].ids.contains(t1[k0].ids[j]));
                    }
                }
            },
            None => {
                assert(t1 == tags);
                assert forall|k: int|
                    0 <= k < t1.len() && (#[trigger] t1[k]).ids.contains(id) implies names.skip(
                    1,
                ).contains(t1[k].tag) by {
                    assert(names.contains(tags[k].tag));
                    let x = choose|x: int| 0 <= x < names.len() && names[x] == tags[k].tag;
                    if x == 0 {
                        assert(false);
                    } else {
                        assert(names.skip(1)[x - 1] == names[x]);
                    }
                }
                lemma_remove_tags_removes(t1, names.skip(1), id);
            },
        }
    }
}

/// Removing a task scrubs it from the index: afterwards no entry lists
/// the removed id, every entry left is non-empty, and the index is still
/// consistent with the remaining tasks.
pub proof fn lemma_remove_scrubs_index(v: AppDataView, i: int)
    requires
        store_wf(v),
        tag_index_consistent(v),
        0 <= i < v.tasks.len(),
    ensures
        tag_index_consistent(spec_remove(v, i)),
        forall|k: int| 0 <= k < spec_remove(v, i).tags.len() ==> !(#[trigger] spec_remove(
            v,
            i,
        ).tags[k]).ids.contains(v.tasks[i].id) && spec_remove(v, i).tags[k].ids.len() > 0,
{
    let t = v.tasks[i];
    let id = t.id;
    let names = lowered(tag_names(t.tags));
    let removed = remove_tags(v.tags, names, id);
    // every entry listing the removed id is named by one of the task's tags
    assert forall|k: int|
        0 <= k < v.tags.len() && (#[trigger] v.tags[k]).ids.contains(id) implies names.contains(
        v.tags[k].tag,
    ) by {
        let j = choose|j: int| 0 <= j < v.tags[k].ids.len() && v.tags[k].ids[j] == id;
        assert(entry_ok(v.tags, v.tasks, k, j));
        let i0 = choose|i0: int|
            0 <= i0 < v.tasks.len() && (#[trigger] v.tasks[i0]).id == v.tags[k].ids[j]
                && task_carries(v.tasks[i0], v.tags[k].tag);
        assert(v.tasks[i0].id == id);
        if i0 != i {
            if i0 < i {
                assert(v.tasks[i0].id < v.tasks[i].id);
            } else {
                assert(v.tasks[i].id < v.tasks[i0].id);
            }
        }
        assert(task_carries(t, v.tags[k].tag));
        match t.tags {
            Some(ts) => {
                let l = choose|l: int|
                    0 <= l < ts.len() && lower_of(#[trigger] ts[l]) == v.tags[k].tag;
                assert(names[l] == lower_of(ts[l]));
                assert(names.contains(v.tags[k].tag));
            },
            None => {
                assert(false);
            },
        }
    }
    lemma_remove_tags_removes(v.tags, names, id);
    lemma_prune_props(removed);
    let pruned = prune_empty(removed);
    let tasks2 = v.tasks.remove(i);
    v.tasks.remove_ensures(i);
    assert forall|k: int|
        0 <= k < pruned.len() implies !(#[trigger] pruned[k]).ids.contains(id)
            && pruned[k].ids.len() > 0 by {
        assert(removed.contains(pruned[k]));
        let k0 = choose|k0: int| 0 <= k0 < removed.len() && removed[k0] == pruned[k];
        if pruned[k].ids.contains(id) {
            assert(removed[k0].ids.contains(id));
            assert(v.tags[k0].ids.contains(id) && id != id);
        }
    }
    assert forall|k: int, j: int| #[trigger] entry_ok(pruned, tasks2, k, j) by {
        if 0 <= k < pruned.len() && 0 <= j < pruned[k].ids.len() {
            assert(removed.contains(pruned[k]));
            let k0 = choose|k0: int| 0 <= k0 < removed.len() && removed[k0] == pruned[k];
            let x = pruned[k].ids[j];
            assert(removed[k0].ids.contains(x));
            assert(v.tags[k0].ids.contains(x) && x != id);
            let j0 = choose|j0: int| 0 <= j0 < v.tags[k0].ids.len() && v.tags[k0].ids[j0] == x;
            assert(entry_ok(v.tags, v.tasks, k0, j0));
            let i0 = choose|i0: int|
                0 <= i0 < v.tasks.len() && (#[trigger] v.tasks[i0]).id == v.tags[k0].ids[j0]
                    && task_carries(v.tasks[i0], v.tags[k0].tag);
            assert(v.tasks[i0].id == x);
            assert(i0 != i);
            assert(removed[k0].tag == v.tags[k0].tag);
            if i0 < i {
                assert(tasks2[i0] == v.tasks[i0]);
            } else {
                assert(tasks2[i0 - 1] == v.tasks[(i0 - 1) + 1]);
            }
        }
    }
    assert(consistent_wrt(pruned, tasks2));
    assert(spec_remove(v, i).tags == pruned);
    assert(spec_remove(v, i).tasks == tasks2);
}

/// After a reset nothing is indexed, so consistency holds vacuously.
pub proof fn lemma_reset_consistent(v: AppDataView)
    requires
        v.tags.len() == 0,
    ensures
        tag_index_consistent(v),
{
    assert forall|k: int, j: int| #[trigger] entry_ok(v.tags, v.tasks, k, j) by {
    }
}

} // verus!
