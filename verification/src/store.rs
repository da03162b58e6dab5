//! The task store: the task collection ordered by id, the tag index, the
//! next-id counter, and the configured date format.

use vstd::prelude::*;
use vstd::string::StringExecFns;
use crate::task::Task;
use crate::task::TaskView;

verus! {

/// The views of a task vector.
pub open spec fn tasks_view(tasks: Seq<Task>) -> Seq<TaskView> {
    tasks.map_values(|t: Task| t@)
}

/// The views of a tag-entry vector.
pub open spec fn entries_view(tags: Seq<TagEntry>) -> Seq<TagEntryView> {
    tags.map_values(|e: TagEntry| e@)
}

/// Configuration block: the input date format for due dates.
pub struct AppConfig {
    pub date_format: String,
}

/// One tag-index entry: a lowercased tag and the ids that carry it, in
/// insertion order.
pub struct TagEntry {
    pub tag: String,
    pub ids: Vec<usize>,
}

pub ghost struct TagEntryView {
    pub tag: Seq<char>,
    pub ids: Seq<int>,
}

impl View for TagEntry {
    type V = TagEntryView;

    open spec fn view(&self) -> TagEntryView {
        TagEntryView { tag: self.tag@, ids: self.ids@.map_values(|x: usize| x as int) }
    }
}

/// The store's full persisted state.
pub struct AppData {
    pub tasks: Vec<Task>,
    pub tags: Vec<TagEntry>,
    pub next_id: usize,
    pub config: AppConfig,
}

pub ghost struct AppDataView {
    pub tasks: Seq<TaskView>,
    pub tags: Seq<TagEntryView>,
    pub next_id: int,
    pub date_format: Seq<char>,
}

impl View for AppData {
    type V = AppDataView;

    open spec fn view(&self) -> AppDataView {
        AppDataView {
            tasks: tasks_view(self.tasks@),
            tags: entries_view(self.tags@),
            next_id: self.next_id as int,
            date_format: self.config.date_format@,
        }
    }
}

pub open spec fn tag_entry_wf(e: TagEntryView, next_id: int) -> bool {
    &&& 1 <= e.ids.len()
    &&& forall|j: int| 0 <= j < e.ids.len() ==> 1 <= #[trigger] e.ids[j] < next_id
}

/// The store's invariant: ids strictly increasing and below the counter,
/// each task well formed, tag entries non-empty with distinct names and
/// ids below the counter.
pub open spec fn store_wf(v: AppDataView) -> bool {
    &&& 1 <= v.next_id <= usize::MAX
    &&& forall|i: int, j: int| 0 <= i < j < v.tasks.len() ==> #[trigger] v.tasks[i].id
        < #[trigger] v.tasks[j].id
    &&& forall|i: int| 0 <= i < v.tasks.len() ==> crate::task::task_wf(#[trigger] v.tasks[i])
    &&& forall|i: int| 0 <= i < v.tasks.len() ==> (#[trigger] v.tasks[i]).id < v.next_id
    &&& forall|k: int| 0 <= k < v.tags.len() ==> tag_entry_wf(#[trigger] v.tags[k], v.next_id)
    &&& forall|k1: int, k2: int| 0 <= k1 < k2 < v.tags.len() ==> (#[trigger] v.tags[k1]).tag
        != (#[trigger] v.tags[k2]).tag
}

/// Whether some task in the sequence carries this id.
pub open spec fn has_task_id(tasks: Seq<TaskView>, id: int) -> bool {
    exists|i: int| 0 <= i < tasks.len() && (#[trigger] tasks[i]).id == id
}

/// The position of the task with this id (unique under the store's
/// invariant).
pub open spec fn task_pos(tasks: Seq<TaskView>, id: int) -> int {
    choose|i: int| 0 <= i < tasks.len() && (#[trigger] tasks[i]).id == id
}

/// Whether a task with this id exists.
pub open spec fn store_has(v: AppDataView, id: int) -> bool {
    has_task_id(v.tasks, id)
}

/// The position of the task with this id (unique in a well-formed store).
pub open spec fn task_idx(v: AppDataView, id: int) -> int {
    task_pos(v.tasks, id)
}

/// With strictly increasing ids a found position is the position.
pub proof fn lemma_task_pos_unique(tasks: Seq<TaskView>, i: int)
    requires
        forall|a: int, b: int| 0 <= a < b < tasks.len() ==> #[trigger] tasks[a].id
            < #[trigger] tasks[b].id,
        0 <= i < tasks.len(),
    ensures
        has_task_id(tasks, tasks[i].id),
        task_pos(tasks, tasks[i].id) == i,
{
    let id = tasks[i].id;
    assert(has_task_id(tasks, id));
    let j = task_pos(tasks, id);
    if j != i {
        if j < i {
            assert(tasks[j].id < tasks[i].id);
        } else {
            assert(tasks[i].id < tasks[j].id);
        }
    }
}

/// In a well-formed store all task ids are distinct, so a found position
/// is the position.
pub proof fn lemma_task_idx_unique(v: AppDataView, i: int)
    requires
        store_wf(v),
        0 <= i < v.tasks.len(),
    ensures
        store_has(v, v.tasks[i].id),
        task_idx(v, v.tasks[i].id) == i,
{
    lemma_task_pos_unique(v.tasks, i);
}

/// What `str::to_lowercase` returns: a function of the characters alone.
pub uninterp spec fn lower_of(s: Seq<char>) -> Seq<char>;

/// Relies on `str::to_lowercase`: the lowercase form of a string depends
/// on its characters alone.
#[verifier::external_body]
fn lowercase(s: &str) -> (r: String)
    ensures
        r@ == lower_of(s@),
{
    s.to_lowercase()
}

/// The lowercased forms of a sequence of tag names.
pub open spec fn lowered(ns: Seq<Seq<char>>) -> Seq<Seq<char>> {
    ns.map_values(|n: Seq<char>| lower_of(n))
}

/// The names a task's optional tag list supplies.
pub open spec fn tag_names(t: Option<Seq<Seq<char>>>) -> Seq<Seq<char>> {
    match t {
        Some(ts) => ts,
        None => Seq::<Seq<char>>::empty(),
    }
}

/// The first index whose entry carries this (lowercased) name.
pub open spec fn find_tag(tags: Seq<TagEntryView>, name: Seq<char>) -> Option<int>
    decreases tags.len(),
{
    if tags.len() == 0 {
        None
    } else if tags[0].tag == name {
        Some(0)
    } else {
        match find_tag(tags.skip(1), name) {
            Some(k) => Some(k + 1),
            None => None,
        }
    }
}

/// A left-to-right scan that stopped at `k` has computed `find_tag`.
pub proof fn lemma_find_tag_from_scan(tags: Seq<TagEntryView>, name: Seq<char>, k: int)
    requires
        0 <= k <= tags.len(),
        forall|j: int| 0 <= j < k ==> (#[trigger] tags[j]).tag != name,
        k < tags.len() ==> tags[k].tag == name,
    ensures
        find_tag(tags, name) == if k < tags.len() { Some(k) } else { Option::<int>::None },
    decreases k,
{
    if tags.len() == 0 {
    } else if k == 0 {
        if tags.len() > 0 && k < tags.len() {
            assert(tags[0].tag == name);
        }
    } else {
        assert(tags[0].tag != name);
        let t = tags.skip(1);
        assert(forall|j: int| 0 <= j < k - 1 ==> t[j] == #[trigger] tags[j + 1]);
        assert(k - 1 < t.len() ==> t[k - 1] == tags[k]);
        lemma_find_tag_from_scan(t, name, k - 1);
    }
}

/// Index consequences of `find_tag`'s result.
pub proof fn lemma_find_tag_props(tags: Seq<TagEntryView>, name: Seq<char>)
    ensures
        find_tag(tags, name) matches Some(k) ==> 0 <= k < tags.len() && tags[k].tag == name,
        find_tag(tags, name) is None ==> forall|j: int| 0 <= j < tags.len() ==> (
        #[trigger] tags[j]).tag != name,
    decreases tags.len(),
{
    if tags.len() > 0 && tags[0].tag != name {
        lemma_find_tag_props(tags.skip(1), name);
        let t = tags.skip(1);
        assert(forall|j: int| 0 <= j < t.len() ==> t[j] == #[trigger] tags[j + 1]);
        if find_tag(tags, name) is None {
            assert forall|j: int| 0 <= j < tags.len() implies (#[trigger] tags[j]).tag != name by {
                if j > 0 {
                    assert(tags[j] == t[j - 1]);
                }
            }
        }
    }
}

/// Inserting one id under one lowercased name: appended to the entry that
/// carries the name, or a fresh entry at the end.
pub open spec fn add_one_tag(tags: Seq<TagEntryView>, name: Seq<char>, id: int) -> Seq<
    TagEntryView,
> {
    match find_tag(tags, name) {
        Some(k) => tags.update(k, TagEntryView { tag: tags[k].tag, ids: tags[k].ids.push(id) }),
        None => tags.push(TagEntryView { tag: name, ids: seq![id] }),
    }
}

/// Inserting one id under each name, left to right.
pub open spec fn add_tags(tags: Seq<TagEntryView>, names: Seq<Seq<char>>, id: int) -> Seq<
    TagEntryView,
>
    decreases names.len(),
{
    if names.len() == 0 {
        tags
    } else {
        add_tags(add_one_tag(tags, names[0], id), names.skip(1), id)
    }
}

pub proof fn lemma_add_tags_push(tags: Seq<TagEntryView>, names: Seq<Seq<char>>, n: Seq<char>, id: int)
    ensures
        add_tags(tags, names.push(n), id) == add_one_tag(add_tags(tags, names, id), n, id),
    decreases names.len(),
{
    let ns = names.push(n);
    if names.len() == 0 {
        assert(ns[0] == n);
        assert(ns.skip(1) =~= Seq::<Seq<char>>::empty());
        assert(add_tags(tags, ns, id) == add_tags(add_one_tag(tags, n, id), ns.skip(1), id));
        assert(add_tags(add_one_tag(tags, n, id), ns.skip(1), id) == add_one_tag(tags, n, id));
        assert(add_tags(tags, names, id) == tags);
    } else {
        assert(ns[0] == names[0]);
        assert(ns.skip(1) =~= names.skip(1).push(n));
        lemma_add_tags_push(add_one_tag(tags, names[0], id), names.skip(1), n, id);
        assert(add_tags(tags, ns, id) == add_tags(add_one_tag(tags, ns[0], id), ns.skip(1), id));
        assert(add_tags(tags, names, id) == add_tags(
            add_one_tag(tags, names[0], id),
            names.skip(1),
            id,
        ));
    }
}

/// The id sequence with every occurrence of `id` removed, order kept.
pub open spec fn without_id(ids: Seq<int>, id: int) -> Seq<int>
    decreases ids.len(),
{
    if ids.len() == 0 {
        Seq::<int>::empty()
    } else if ids.last() == id {
        without_id(ids.drop_last(), id)
    } else {
        without_id(ids.drop_last(), id).push(ids.last())
    }
}

/// Everything `without_id` keeps comes from the input and differs from the
/// removed id.
pub proof fn lemma_without_id_elems(ids: Seq<int>, id: int)
    ensures
        forall|j: int| 0 <= j < without_id(ids, id).len() ==> ids.contains(
            #[trigger] without_id(ids, id)[j],
        ) && without_id(ids, id)[j] != id,
    decreases ids.len(),
{
    if ids.len() > 0 {
        let dl = ids.drop_last();
        lemma_without_id_elems(dl, id);
        assert(forall|j: int| 0 <= j < dl.len() ==> dl[j] == #[trigger] ids[j]);
        assert(forall|x: int| dl.contains(x) ==> ids.contains(x));
        assert(ids[ids.len() - 1] == ids.last());
        assert(ids.contains(ids.last()));
        if ids.last() != id {
            let w = without_id(ids, id);
            assert(w == without_id(dl, id).push(ids.last()));
            assert(forall|j: int| 0 <= j < w.len() - 1 ==> w[j] == #[trigger] without_id(dl, id)[j]);
        }
    }
}

/// Removing an id from the entry that carries one lowercased name.
pub open spec fn remove_one_tag(tags: Seq<TagEntryView>, name: Seq<char>, id: int) -> Seq<
    TagEntryView,
> {
    match find_tag(tags, name) {
        Some(k) => tags.update(
            k,
            TagEntryView { tag: tags[k].tag, ids: without_id(tags[k].ids, id) },
        ),
        None => tags,
    }
}

/// Removing an id from the entries of each name, left to right.
pub open spec fn remove_tags(tags: Seq<TagEntryView>, names: Seq<Seq<char>>, id: int) -> Seq<
    TagEntryView,
>
    decreases names.len(),
{
    if names.len() == 0 {
        tags
    } else {
        remove_tags(remove_one_tag(tags, names[0], id), names.skip(1), id)
    }
}

pub proof fn lemma_remove_tags_push(
    tags: Seq<TagEntryView>,
    names: Seq<Seq<char>>,
    n: Seq<char>,
    id: int,
)
    ensures
        remove_tags(tags, names.push(n), id) == remove_one_tag(remove_tags(tags, names, id), n, id),
    decreases names.len(),
{
    let ns = names.push(n);
    if names.len() == 0 {
        assert(ns[0] == n);
        assert(ns.skip(1) =~= Seq::<Seq<char>>::empty());
        assert(remove_tags(tags, ns, id) == remove_tags(
            remove_one_tag(tags, n, id),
            ns.skip(1),
            id,
        ));
        assert(remove_tags(remove_one_tag(tags, n, id), ns.skip(1), id) == remove_one_tag(
            tags,
            n,
            id,
        ));
        assert(remove_tags(tags, names, id) == tags);
    } else {
        assert(ns[0] == names[0]);
        assert(ns.skip(1) =~= names.skip(1).push(n));
        lemma_remove_tags_push(remove_one_tag(tags, names[0], id), names.skip(1), n, id);
        assert(remove_tags(tags, ns, id) == remove_tags(
            remove_one_tag(tags, ns[0], id),
            ns.skip(1),
            id,
        ));
        assert(remove_tags(tags, names, id) == remove_tags(
            remove_one_tag(tags, names[0], id),
            names.skip(1),
            id,
        ));
    }
}

/// Entries whose id list still has something in it, order kept.
pub open spec fn prune_empty(tags: Seq<TagEntryView>) -> Seq<TagEntryView>
    decreases tags.len(),
{
    if tags.len() == 0 {
        Seq::<TagEntryView>::empty()
    } else if tags.last().ids.len() > 0 {
        prune_empty(tags.drop_last()).push(tags.last())
    } else {
        prune_empty(tags.drop_last())
    }
}

/// Every pruned entry comes from the input and is non-empty; pruning also
/// keeps distinct names distinct.
pub proof fn lemma_prune_props(tags: Seq<TagEntryView>)
    requires
        forall|k1: int, k2: int| 0 <= k1 < k2 < tags.len() ==> (#[trigger] tags[k1]).tag
            != (#[trigger] tags[k2]).tag,
    ensures
        forall|k: int| 0 <= k < prune_empty(tags).len() ==> tags.contains(
            #[trigger] prune_empty(tags)[k],
        ) && prune_empty(tags)[k].ids.len() > 0,
        forall|k1: int, k2: int| 0 <= k1 < k2 < prune_empty(tags).len() ==> (
        #[trigger] prune_empty(tags)[k1]).tag != (#[trigger] prune_empty(tags)[k2]).tag,
    decreases tags.len(),
{
    if tags.len() == 0 {
        assert(prune_empty(tags) == Seq::<TagEntryView>::empty());
    } else {
        let dl = tags.drop_last();
        assert(forall|j: int| 0 <= j < dl.len() ==> dl[j] == #[trigger] tags[j]);
        lemma_prune_props(dl);
        assert(forall|x: TagEntryView| dl.contains(x) ==> tags.contains(x));
        assert(tags[tags.len() - 1] == tags.last());
        assert(tags.contains(tags.last()));
        let p = prune_empty(tags);
        let pd = prune_empty(dl);
        if tags.last().ids.len() > 0 {
            assert(p == pd.push(tags.last()));
            assert(forall|k: int| 0 <= k < p.len() - 1 ==> p[k] == #[trigger] pd[k]);
            assert(p[p.len() - 1] == tags.last());
            assert forall|k: int| 0 <= k < p.len() implies tags.contains(#[trigger] p[k])
                && p[k].ids.len() > 0 by {
                if k < p.len() - 1 {
                    assert(p[k] == pd[k]);
                    assert(dl.contains(pd[k]));
                }
            }
            assert forall|k1: int, k2: int| 0 <= k1 < k2 < p.len() implies (#[trigger] p[k1]).tag
                != (#[trigger] p[k2]).tag by {
                if k2 == p.len() - 1 {
                    assert(dl.contains(pd[k1]));
                    let j = choose|j: int| 0 <= j < dl.len() && dl[j] == pd[k1];
                    assert(tags[j] == pd[k1]);
                    assert(tags[j].tag != tags.last().tag);
                } else {
                    assert(p[k1] == pd[k1] && p[k2] == pd[k2]);
                }
            }
        } else {
            assert(p == pd);
        }
    }
}

/// One insertion into the index preserves its well-formedness.
pub proof fn lemma_add_one_tag_wf(tags: Seq<TagEntryView>, name: Seq<char>, id: int, bound: int)
    requires
        forall|k: int| 0 <= k < tags.len() ==> tag_entry_wf(#[trigger] tags[k], bound),
        forall|k1: int, k2: int| 0 <= k1 < k2 < tags.len() ==> (#[trigger] tags[k1]).tag
            != (#[trigger] tags[k2]).tag,
        1 <= id < bound,
    ensures
        forall|k: int| 0 <= k < add_one_tag(tags, name, id).len() ==> tag_entry_wf(
            #[trigger] add_one_tag(tags, name, id)[k],
            bound,
        ),
        forall|k1: int, k2: int| 0 <= k1 < k2 < add_one_tag(tags, name, id).len() ==> (
        #[trigger] add_one_tag(tags, name, id)[k1]).tag != (#[trigger] add_one_tag(
            tags,
            name,
            id,
        )[k2]).tag,
        add_one_tag(tags, name, id).len() >= tags.len(),
{
    lemma_find_tag_props(tags, name);
    match find_tag(tags, name) {
        Some(k) => {
            let e = TagEntryView { tag: tags[k].tag, ids: tags[k].ids.push(id) };
            assert(tag_entry_wf(e, bound));
        },
        None => {
            let e = TagEntryView { tag: name, ids: seq![id] };
            assert(e.ids[0] == id);
            assert(tag_entry_wf(e, bound));
        },
    }
}

/// Repeated insertion preserves the index invariant.
pub proof fn lemma_add_tags_wf(tags: Seq<TagEntryView>, names: Seq<Seq<char>>, id: int, bound: int)
    requires
        forall|k: int| 0 <= k < tags.len() ==> tag_entry_wf(#[trigger] tags[k], bound),
        forall|k1: int, k2: int| 0 <= k1 < k2 < tags.len() ==> (#[trigger] tags[k1]).tag
            != (#[trigger] tags[k2]).tag,
        1 <= id < bound,
    ensures
        forall|k: int| 0 <= k < add_tags(tags, names, id).len() ==> tag_entry_wf(
            #[trigger] add_tags(tags, names, id)[k],
            bound,
        ),
        forall|k1: int, k2: int| 0 <= k1 < k2 < add_tags(tags, names, id).len() ==> (
        #[trigger] add_tags(tags, names, id)[k1]).tag != (#[trigger] add_tags(
            tags,
            names,
            id,
        )[k2]).tag,
    decreases names.len(),
{
    if names.len() == 0 {
        assert(add_tags(tags, names, id) == tags);
    } else {
        lemma_add_one_tag_wf(tags, names[0], id, bound);
        lemma_add_tags_wf(add_one_tag(tags, names[0], id), names.skip(1), id, bound);
        assert(add_tags(tags, names, id) == add_tags(
            add_one_tag(tags, names[0], id),
            names.skip(1),
            id,
        ));
    }
}

/// Removing an id keeps names distinct and all remaining ids in bound;
/// only the non-emptiness of one entry can be lost, which pruning restores.
pub proof fn lemma_remove_tags_part_wf(
    tags: Seq<TagEntryView>,
    names: Seq<Seq<char>>,
    id: int,
    bound: int,
)
    requires
        forall|k: int| 0 <= k < tags.len() ==> forall|j: int|
            0 <= j < (#[trigger] tags[k]).ids.len() ==> 1 <= #[trigger] tags[k].ids[j] < bound,
        forall|k1: int, k2: int| 0 <= k1 < k2 < tags.len() ==> (#[trigger] tags[k1]).tag
            != (#[trigger] tags[k2]).tag,
    ensures
        remove_tags(tags, names, id).len() == tags.len(),
        forall|k: int| 0 <= k < tags.len() ==> forall|j: int|
            0 <= j < (#[trigger] remove_tags(tags, names, id)[k]).ids.len() ==> 1 <= #[trigger] remove_tags(
                tags,
                names,
                id,
            )[k].ids[j] < bound,
        forall|k1: int, k2: int| 0 <= k1 < k2 < tags.len() ==> (#[trigger] remove_tags(
            tags,
            names,
            id,
        )[k1]).tag != (#[trigger] remove_tags(tags, names, id)[k2]).tag,
    decreases names.len(),
{
    if names.len() == 0 {
        assert(remove_tags(tags, names, id) == tags);
    } else {
        let t1 = remove_one_tag(tags, names[0], id);
        lemma_find_tag_props(tags, names[0]);
        match find_tag(tags, names[0]) {
            Some(k) => {
                let fids = without_id(tags[k].ids, id);
                lemma_without_id_elems(tags[k].ids, id);
                assert forall|j: int| 0 <= j < fids.len() implies 1 <= #[trigger] fids[j]
                    < bound by {
                    assert(tags[k].ids.contains(fids[j]));
                    let j0 = choose|j0: int|
                        0 <= j0 < tags[k].ids.len() && tags[k].ids[j0] == fids[j];
                    assert(1 <= tags[k].ids[j0] < bound);
                }
                assert(t1.len() == tags.len());
                assert(forall|k2: int|
                    0 <= k2 < tags.len() && k2 != k ==> t1[k2] == #[trigger] tags[k2]);
                assert(t1[k].ids == fids && t1[k].tag == tags[k].tag);
                assert forall|k2: int| 0 <= k2 < t1.len() implies forall|j: int|
                    0 <= j < (#[trigger] t1[k2]).ids.len() ==> 1 <= #[trigger] t1[k2].ids[j]
                        < bound by {
                    if k2 != k {
                        assert(t1[k2] == tags[k2]);
                    }
                }
            },
            None => {
                assert(t1 == tags);
            },
        }
        lemma_remove_tags_part_wf(t1, names.skip(1), id, bound);
        assert(remove_tags(tags, names, id) == remove_tags(t1, names.skip(1), id));
    }
}

/// Scans the index for an entry with exactly this name.
fn find_tag_exec(tags: &Vec<TagEntry>, name: &String) -> (r: Option<usize>)
    ensures
        match r {
            Some(k) => k < tags@.len() && find_tag(entries_view(tags@), name@) == Some(k as int),
            None => find_tag(entries_view(tags@), name@) is None,
        },
{
    let ghost tv = entries_view(tags@);
    let mut k: usize = 0;
    while k < tags.len()
        invariant
            k <= tags@.len(),
            tv == entries_view(tags@),
            forall|j: int| 0 <= j < k ==> (#[trigger] tv[j]).tag != name@,
        decreases tags@.len() - k,
    {
        if tags[k].tag == *name {
            proof {
                assert(tv[k as int].tag == name@);
                lemma_find_tag_from_scan(tv, name@, k as int);
            }
            return Some(k);
        }
        k = k + 1;
    }
    proof {
        lemma_find_tag_from_scan(tv, name@, tags@.len() as int);
    }
    None
}

/// Inserts an id under one lowercased name, as `add_one_tag` says.
fn add_tag_entry(tags: &mut Vec<TagEntry>, name: String, id: usize)
    ensures
        entries_view(final(tags)@) == add_one_tag(entries_view(old(tags)@), name@, id as int),
{
    let ghost tv = entries_view(tags@);
    match find_tag_exec(tags, &name) {
        Some(k) => {
            let mut e = tags.remove(k);
            e.ids.push(id);
            tags.insert(k, e);
            proof {
                assert(e@.ids =~= tv[k as int].ids.push(id as int));
                assert(e@.tag == tv[k as int].tag);
                assert(entries_view(tags@) =~= tv.update(
                    k as int,
                    TagEntryView { tag: tv[k as int].tag, ids: tv[k as int].ids.push(id as int) },
                ));
            }
        },
        None => {
            let mut ids: Vec<usize> = Vec::new();
            ids.push(id);
            let e = TagEntry { tag: name, ids };
            tags.push(e);
            proof {
                assert(e@.ids =~= seq![id as int]);
                assert(entries_view(tags@) =~= tv.push(
                    TagEntryView { tag: name@, ids: seq![id as int] },
                ));
            }
        },
    }
}

/// Removes an id from the entry of one lowercased name, as
/// `remove_one_tag` says.
fn remove_tag_entry(tags: &mut Vec<TagEntry>, name: &String, id: usize)
    ensures
        entries_view(final(tags)@) == remove_one_tag(entries_view(old(tags)@), name@, id as int),
{
    let ghost tv = entries_view(tags@);
    match find_tag_exec(tags, name) {
        Some(k) => {
            let e = tags.remove(k);
            let ghost old_ids = e@.ids;
            let mut kept: Vec<usize> = Vec::new();
            let mut j: usize = 0;
            while j < e.ids.len()
                invariant
                    j <= e.ids.len(),
                    old_ids == e@.ids,
                    kept@.map_values(|x: usize| x as int) == without_id(
                        old_ids.take(j as int),
                        id as int,
                    ),
                decreases e.ids.len() - j,
            {
                let keep = e.ids[j] != id;
                proof {
                    assert(old_ids.take(j as int + 1).drop_last() =~= old_ids.take(j as int));
                    assert(old_ids.take(j as int + 1).last() == old_ids[j as int]);
                }
                if keep {
                    kept.push(e.ids[j]);
                    proof {
                        assert(kept@.map_values(|x: usize| x as int) =~= without_id(
                            old_ids.take(j as int),
                            id as int,
                        ).push(old_ids[j as int]));
                    }
                }
                j = j + 1;
            }
            proof {
                assert(old_ids.take(e.ids@.len() as int) =~= old_ids);
            }
            tags.insert(k, TagEntry { tag: e.tag, ids: kept });
            proof {
                assert(entries_view(tags@) =~= tv.update(
                    k as int,
                    TagEntryView { tag: tv[k as int].tag, ids: without_id(
                        tv[k as int].ids,
                        id as int,
                    ) },
                ));
            }
        },
        None => {},
    }
}

/// Drops the entries whose id list has become empty, as `prune_empty`
/// says.
fn prune_empty_exec(tags: &mut Vec<TagEntry>)
    ensures
        entries_view(final(tags)@) == prune_empty(entries_view(old(tags)@)),
{
    let ghost tv = entries_view(old(tags)@);
    let mut out: Vec<TagEntry> = Vec::new();
    let mut k: usize = 0;
    while k < tags.len()
        invariant
            k <= tags@.len(),
            tv == entries_view(tags@),
            entries_view(out@) == prune_empty(tv.take(k as int)),
        decreases tags@.len() - k,
    {
        proof {
            assert(tv.take(k as int + 1).drop_last() =~= tv.take(k as int));
            assert(tv.take(k as int + 1).last() == tv[k as int]);
        }
        let nonempty = tags[k].ids.len() > 0;
        if nonempty {
            let e = TagEntry { tag: tags[k].tag.clone(), ids: tags[k].ids.clone() };
            proof {
                assert(e@.ids =~= tv[k as int].ids);
                assert(e@ == tv[k as int]);
            }
            out.push(e);
            proof {
                assert(entries_view(out@) =~= prune_empty(tv.take(k as int)).push(tv[k as int]));
            }
        }
        k = k + 1;
    }
    proof {
        assert(tv.take(tags@.len() as int) =~= tv);
    }
    *tags = out;
}

/// Scans the task collection for the position of an id.
fn find_task_exec(tasks: &Vec<Task>, id: usize) -> (r: Option<usize>)
    ensures
        match r {
            Some(i) => i < tasks@.len() && tasks_view(tasks@)[i as int].id == id,
            None => forall|i: int| 0 <= i < tasks@.len() ==> (#[trigger] tasks_view(tasks@)[i]).id
                != id,
        },
{
    let mut i: usize = 0;
    while i < tasks.len()
        invariant
            i <= tasks@.len(),
            forall|j: int| 0 <= j < i ==> (#[trigger] tasks_view(tasks@)[j]).id != id,
        decreases tasks@.len() - i,
    {
        if tasks[i].id == id {
            return Some(i);
        }
        i = i + 1;
    }
    None
}

/// The default input date format: day-month-year.
pub fn default_date_format() -> (r: &'static str)
    ensures
        r@ == "%d-%m-%Y"@,
{
    "%d-%m-%Y"
}

impl AppData {
    /// The state of a first run: nothing stored, the counter at one, the
    /// default date format.
    pub fn initial() -> (r: AppData)
        ensures
            r@.tasks.len() == 0,
            r@.tags.len() == 0,
            r@.next_id == 1,
            r@.date_format == "%d-%m-%Y"@,
            store_wf(r@),
    {
        AppData {
            tasks: Vec::new(),
            tags: Vec::new(),
            next_id: 1,
            config: AppConfig { date_format: String::from_str(default_date_format()) },
        }
    }
}

/// The due date an edit leaves behind: unchanged when none is supplied,
/// otherwise validated and normalized; `None` means the edit is rejected.
pub open spec fn edit_due_result(
    old_due: Option<Seq<char>>,
    due_arg: Option<Seq<char>>,
    fmt: Seq<char>,
) -> Option<Option<Seq<char>>> {
    match due_arg {
        Some(s) => crate::task::normalize_due(Some(s), fmt),
        None => Some(old_due),
    }
}

/// The store after a successful edit of the task at position `i`: the task
/// replaced, and the supplied tags (if any) indexed on top of the existing
/// index.
pub open spec fn spec_edit(
    v: AppDataView,
    i: int,
    t2: TaskView,
    tags_arg: Option<Seq<Seq<char>>>,
    id: int,
) -> AppDataView {
    AppDataView {
        tasks: v.tasks.update(i, t2),
        tags: match tags_arg {
            Some(ns) => add_tags(v.tags, lowered(ns), id),
            None => v.tags,
        },
        next_id: v.next_id,
        date_format: v.date_format,
    }
}

/// The store after removing the task at position `i`: the task gone, its
/// id withdrawn from the entries of its lowercased tags, and entries left
/// empty dropped.
pub open spec fn spec_remove(v: AppDataView, i: int) -> AppDataView {
    AppDataView {
        tasks: v.tasks.remove(i),
        tags: prune_empty(
            remove_tags(v.tags, lowered(tag_names(v.tasks[i].tags)), v.tasks[i].id),
        ),
        next_id: v.next_id,
        date_format: v.date_format,
    }
}

impl AppData {
    /// Checks the store invariant on a loaded state, so that a corrupted
    /// file is refused rather than trusted.
    pub fn well_formed(&self) -> (r: bool)
        ensures
            r == store_wf(self@),
    {
        if self.next_id < 1 {
            return false;
        }
        let mut i: usize = 0;
        while i < self.tasks.len()
            invariant
                i <= self.tasks@.len(),
                self.next_id >= 1,
                forall|a: int, b: int| 0 <= a < b < i ==> #[trigger] self@.tasks[a].id
                    < #[trigger] self@.tasks[b].id,
                forall|a: int| 0 <= a < i ==> crate::task::task_wf(#[trigger] self@.tasks[a]),
                forall|a: int| 0 <= a < i ==> (#[trigger] self@.tasks[a]).id < self@.next_id,
            decreases self.tasks@.len() - i,
        {
            let t = &self.tasks[i];
            proof {
                assert(t@ == self@.tasks[i as int]);
            }
            if t.id < 1 || t.id >= self.next_id {
                return false;
            }
            if i > 0 {
                let prev = self.tasks[i - 1].id;
                if prev >= t.id {
                    return false;
                }
            }
            if t.name.as_str().unicode_len() == 0 {
                return false;
            }
            match &t.due_date {
                Some(d) => {
                    if !crate::dates::check_canonical(d.as_str()) {
                        return false;
                    }
                },
                None => {},
            }
            match &t.tags {
                Some(ts) => {
                    if ts.len() == 0 {
                        return false;
                    }
                    let mut l: usize = 0;
                    while l < ts.len()
                        invariant
                            l <= ts@.len(),
                            i < self.tasks@.len(),
                            self.tasks@[i as int].tags == Option::Some(*ts),
                            forall|x: int| 0 <= x < l ==> (#[trigger] ts@[x])@.len() >= 1,
                        decreases ts@.len() - l,
                    {
                        if ts[l].as_str().unicode_len() == 0 {
                            proof {
                                let tv = self@.tasks[i as int];
                                assert(tv.tags matches Some(vs) && vs[l as int].len() == 0);
                                assert(!crate::task::task_wf(tv));
                            }
                            return false;
                        }
                        l = l + 1;
                    }
                    proof {
                        let tv = self@.tasks[i as int];
                        assert(tv.tags matches Some(vs) && vs
                            == crate::task::string_seq_view(ts@));
                        assert(forall|x: int|
                            0 <= x < ts@.len() ==> #[trigger] crate::task::string_seq_view(
                                ts@,
                            )[x].len() >= 1);
                    }
                },
                None => {},
            }
            proof {
                assert(crate::task::task_wf(self@.tasks[i as int]));
                assert forall|a: int, b: int| 0 <= a < b < i + 1 implies #[trigger] self@.tasks[a].id
                    < #[trigger] self@.tasks[b].id by {
                    if b == i as int && a < i as int - 1 {
                        assert(self@.tasks[a].id < self@.tasks[i as int - 1].id);
                    }
                }
            }
            i = i + 1;
        }
        let mut k: usize = 0;
        while k < self.tags.len()
            invariant
                k <= self.tags@.len(),
                self.next_id >= 1,
                forall|a: int, b: int| 0 <= a < b < self@.tasks.len() ==> #[trigger] self@.tasks[a].id
                    < #[trigger] self@.tasks[b].id,
                forall|a: int| 0 <= a < self@.tasks.len() ==> crate::task::task_wf(
                    #[trigger] self@.tasks[a],
                ),
                forall|a: int| 0 <= a < self@.tasks.len() ==> (#[trigger] self@.tasks[a]).id
                    < self@.next_id,
                forall|a: int| 0 <= a < k ==> tag_entry_wf(#[trigger] self@.tags[a], self@.next_id),
                forall|k1: int, k2: int| 0 <= k1 < k2 < k ==> (#[trigger] self@.tags[k1]).tag
                    != (#[trigger] self@.tags[k2]).tag,
            decreases self.tags@.len() - k,
        {
            let e = &self.tags[k];
            proof {
                assert(e@ == self@.tags[k as int]);
            }
            if e.ids.len() == 0 {
                return false;
            }
            let mut j: usize = 0;
            while j < e.ids.len()
                invariant
                    j <= e.ids@.len(),
                    k < self.tags@.len(),
                    self.tags@[k as int].ids == e.ids,
                    self.next_id >= 1,
                    forall|x: int| 0 <= x < j ==> 1 <= #[trigger] self@.tags[k as int].ids[x]
                        < self@.next_id,
                decreases e.ids@.len() - j,
            {
                let id = e.ids[j];
                if id < 1 || id >= self.next_id {
                    proof {
                        assert(self@.tags[k as int].ids[j as int] == id as int);
                        assert(!tag_entry_wf(self@.tags[k as int], self@.next_id));
                    }
                    return false;
                }
                proof {
                    assert(self@.tags[k as int].ids[j as int] == id as int);
                }
                j = j + 1;
            }
            let mut j2: usize = 0;
            while j2 < k
                invariant
                    j2 <= k,
                    k < self.tags@.len(),
                    self.tags@[k as int].tag == e.tag,
                    forall|x: int| 0 <= x < j2 ==> (#[trigger] self@.tags[x]).tag
                        != self@.tags[k as int].tag,
                decreases k - j2,
            {
                if self.tags[j2].tag == e.tag {
                    proof {
                        assert(self@.tags[j2 as int].tag == self@.tags[k as int].tag);
                    }
                    return false;
                }
                j2 = j2 + 1;
            }
            proof {
                assert(tag_entry_wf(self@.tags[k as int], self@.next_id));
            }
            k = k + 1;
        }
        true
    }
}

/// The store after a successful task creation.
pub open spec fn spec_add(v: AppDataView, t: TaskView) -> AppDataView {
    AppDataView {
        tasks: v.tasks.push(t),
        tags: add_tags(v.tags, lowered(tag_names(t.tags)), t.id),
        next_id: v.next_id + 1,
        date_format: v.date_format,
    }
}

/// The tasks behind a list of ids, in list order; ids that no longer
/// resolve are passed over.
pub open spec fn collect_ids(tasks: Seq<TaskView>, ids: Seq<int>) -> Seq<TaskView>
    decreases ids.len(),
{
    if ids.len() == 0 {
        Seq::<TaskView>::empty()
    } else {
        let rest = collect_ids(tasks, ids.drop_last());
        if has_task_id(tasks, ids.last()) {
            rest.push(tasks[task_pos(tasks, ids.last())])
        } else {
            rest
        }
    }
}

/// The tasks gathered for each given tag name in turn: the name's entry's
/// ids resolved against the task collection; names without an entry
/// contribute nothing.
pub open spec fn collect_by_tags(
    tasks: Seq<TaskView>,
    index: Seq<TagEntryView>,
    names: Seq<Seq<char>>,
) -> Seq<TaskView>
    decreases names.len(),
{
    if names.len() == 0 {
        Seq::<TaskView>::empty()
    } else {
        collect_by_tags(tasks, index, names.drop_last()) + (match find_tag(
            index,
            names.last(),
        ) {
            Some(k) => collect_ids(tasks, index[k].ids),
            None => Seq::<TaskView>::empty(),
        })
    }
}

/// Whether one entry of the index carries this exact name with this id in
/// its non-empty list.
pub open spec fn tag_entry_has(index: Seq<TagEntryView>, name: Seq<char>, id: int) -> bool {
    match find_tag(index, name) {
        Some(k) => index[k].ids.len() > 0 && index[k].ids.contains(id),
        None => false,
    }
}

/// Whether every one of the given names has an entry listing this id.
pub open spec fn all_tags_present(index: Seq<TagEntryView>, ns: Seq<Seq<char>>, id: int) -> bool
    decreases ns.len(),
{
    if ns.len() == 0 {
        true
    } else {
        all_tags_present(index, ns.drop_last(), id) && tag_entry_has(index, ns.last(), id)
    }
}

/// Each given name in particular is present.
pub proof fn lemma_all_tags_at(index: Seq<TagEntryView>, ns: Seq<Seq<char>>, id: int, l: int)
    requires
        all_tags_present(index, ns, id),
        0 <= l < ns.len(),
    ensures
        tag_entry_has(index, ns[l], id),
    decreases ns.len(),
{
    if l == ns.len() - 1 {
        assert(ns.last() == ns[l]);
    } else {
        assert(ns.drop_last()[l] == ns[l]);
        lemma_all_tags_at(index, ns.drop_last(), id, l);
    }
}

/// A name without its entry defeats the whole conjunction.
pub proof fn lemma_not_all_tags(index: Seq<TagEntryView>, ns: Seq<Seq<char>>, id: int, l: int)
    requires
        0 <= l < ns.len(),
        !tag_entry_has(index, ns[l], id),
    ensures
        !all_tags_present(index, ns, id),
{
    if all_tags_present(index, ns, id) {
        lemma_all_tags_at(index, ns, id, l);
    }
}

/// The listing filter: every supplied criterion must hold at once.
pub open spec fn matches_filter(
    index: Seq<TagEntryView>,
    t: TaskView,
    priority: bool,
    due: Option<(int, int, int)>,
    tags_arg: Option<Seq<Seq<char>>>,
) -> bool {
    &&& (priority ==> t.priority)
    &&& (due matches Some(g) ==> crate::task::spec_due_on_or_before(t, g))
    &&& (tags_arg matches Some(ns) ==> index.len() > 0 && all_tags_present(index, ns, t.id))
}

/// The tasks that pass the filter, in collection order.
pub open spec fn filtered_tasks(
    ts: Seq<TaskView>,
    index: Seq<TagEntryView>,
    priority: bool,
    due: Option<(int, int, int)>,
    tags_arg: Option<Seq<Seq<char>>>,
) -> Seq<TaskView>
    decreases ts.len(),
{
    if ts.len() == 0 {
        Seq::<TaskView>::empty()
    } else {
        let rest = filtered_tasks(ts.drop_last(), index, priority, due, tags_arg);
        if matches_filter(index, ts.last(), priority, due, tags_arg) {
            rest.push(ts.last())
        } else {
            rest
        }
    }
}

/// The view of an optional given date.
pub open spec fn opt_date_view(o: Option<crate::dates::PlainDate>) -> Option<(int, int, int)> {
    match o {
        Some(pd) => Some((pd.year as int, pd.month as int, pd.day as int)),
        None => None,
    }
}

/// The views of an optional list of given tag names.
pub open spec fn opt_names_view(o: Option<Vec<String>>) -> Option<Seq<Seq<char>>> {
    match o {
        Some(v) => Some(crate::task::string_seq_view(v@)),
        None => None,
    }
}

/// Whether an id list holds this id.
fn ids_contain(ids: &Vec<usize>, id: usize) -> (r: bool)
    ensures
        r == ids@.map_values(|x: usize| x as int).contains(id as int),
{
    let ghost iv = ids@.map_values(|x: usize| x as int);
    let mut j: usize = 0;
    while j < ids.len()
        invariant
            j <= ids@.len(),
            iv == ids@.map_values(|x: usize| x as int),
            forall|l: int| 0 <= l < j ==> #[trigger] iv[l] != id as int,
        decreases ids@.len() - j,
    {
        if ids[j] == id {
            assert(iv[j as int] == id as int);
            return true;
        }
        j = j + 1;
    }
    false
}

/// Evaluates the listing filter on one task.
#[verifier::rlimit(50)]
fn matches_exec(
    index: &Vec<TagEntry>,
    t: &Task,
    priority: bool,
    due: &Option<crate::dates::PlainDate>,
    tag_filter: &Option<Vec<String>>,
) -> (r: bool)
    requires
        t@.due_date matches Some(s) ==> crate::dates::is_canonical_date(s),
    ensures
        r == matches_filter(
            entries_view(index@),
            t@,
            priority,
            opt_date_view(*due),
            opt_names_view(*tag_filter),
        ),
{
    if priority && !t.priority {
        return false;
    }
    if let Option::Some(pd) = due {
        if !t.is_due_before_given_date(pd) {
            return false;
        }
    }
    if let Option::Some(ns) = tag_filter {
        let ghost iv = entries_view(index@);
        let ghost nsv = crate::task::string_seq_view(ns@);
        proof {
            assert(opt_names_view(*tag_filter) == Some(nsv));
        }
        if index.len() == 0 {
            return false;
        }
        let mut l: usize = 0;
        while l < ns.len()
            invariant
                l <= ns@.len(),
                iv == entries_view(index@),
                nsv == crate::task::string_seq_view(ns@),
                opt_names_view(*tag_filter) == Some(nsv),
                iv.len() > 0,
                all_tags_present(iv, nsv.take(l as int), t@.id),
            decreases ns@.len() - l,
        {
            proof {
                assert(nsv.take(l as int + 1).drop_last() =~= nsv.take(l as int));
                assert(nsv.take(l as int + 1).last() == nsv[l as int]);
            }
            match find_tag_exec(index, &ns[l]) {
                Some(k) => {
                    if index[k].ids.len() == 0 {
                        proof {
                            let name = nsv[l as int];
                            assert(find_tag(iv, name) == Some(k as int));
                            assert(iv[k as int].ids.len() == 0);
                            assert(!tag_entry_has(iv, name, t@.id));
                            lemma_not_all_tags(iv, nsv, t@.id, l as int);
                        }
                        return false;
                    }
                    if !ids_contain(&index[k].ids, t.id) {
                        proof {
                            let name = nsv[l as int];
                            assert(!iv[k as int].ids.contains(t@.id));
                            assert(!tag_entry_has(iv, name, t@.id));
                            lemma_not_all_tags(iv, nsv, t@.id, l as int);
                        }
                        return false;
                    }
                    proof {
                        assert(iv[k as int].ids.contains(t@.id));
                        assert(tag_entry_has(iv, nsv[l as int], t@.id));
                        assert(all_tags_present(iv, nsv.take(l as int + 1), t@.id));
                    }
                },
                None => {
                    proof {
                        let name = nsv[l as int];
                        assert(find_tag(iv, name) is None);
                        assert(!tag_entry_has(iv, name, t@.id));
                        lemma_not_all_tags(iv, nsv, t@.id, l as int);
                    }
                    return false;
                },
            }
            l = l + 1;
        }
        proof {
            assert(nsv.take(ns@.len() as int) =~= nsv);
        }
        return true;
    }
    true
}

/// The aggregate root: owns the store and performs every mutation on it.
pub struct TaskManager {
    pub app_data: AppData,
}

impl View for TaskManager {
    type V = AppDataView;

    open spec fn view(&self) -> AppDataView {
        self.app_data@
    }
}

impl TaskManager {
    pub fn new(app_data: AppData) -> (r: Self)
        ensures
            r@ == app_data@,
    {
        TaskManager { app_data }
    }

    /// Creates a task under the next free id, indexes its lowercased tags,
    /// and bumps the counter. Fails only on an unparsable due date, leaving
    /// the store unchanged; the id, every stored field but the creation
    /// stamp, and the new tag index are pinned exactly.
    #[verifier::rlimit(50)]
    pub fn add_task(
        &mut self,
        name: String,
        priority: bool,
        due_date: Option<String>,
        tags: Option<Vec<String>>,
    ) -> (r: Result<(), crate::errors::TodoError>)
        requires
            store_wf(old(self)@),
            old(self)@.next_id < usize::MAX,
            1 <= name@.len(),
            tags matches Some(ts) ==> 1 <= ts@.len() && forall|l: int|
                0 <= l < ts@.len() ==> 1 <= #[trigger] ts@[l]@.len(),
        ensures
            store_wf(final(self)@),
            match crate::task::normalize_due(
                crate::task::opt_string_view(due_date),
                old(self)@.date_format,
            ) {
                Some(nd) => r is Ok && final(self)@.tasks.len() == old(self)@.tasks.len() + 1
                    && final(self)@ == spec_add(
                    old(self)@,
                    (TaskView {
                        id: old(self)@.next_id,
                        name: name@,
                        priority: priority,
                        due_date: nd,
                        tags: crate::task::opt_tags_view(tags),
                        done: false,
                        created_at: final(self)@.tasks.last().created_at,
                        updated_at: None,
                    }),
                ),
                None => (r matches Err(e) && (e matches crate::errors::TodoError::InvalidDueDate(f)
                    && f@ == old(self)@.date_format)) && final(self)@ == old(self)@,
            },
    {
        let ghost old_v = self@;
        let task = match Task::new(
            self.app_data.next_id,
            name,
            priority,
            due_date,
            tags,
            self.app_data.config.date_format.as_str(),
        ) {
            Ok(t) => t,
            Err(e) => {
                return Err(e);
            },
        };
        let id = task.id;
        match &task.tags {
            Some(ts) => {
                let ghost names = lowered(crate::task::string_seq_view(ts@));
                let mut l: usize = 0;
                while l < ts.len()
                    invariant
                        l <= ts@.len(),
                        names == lowered(crate::task::string_seq_view(ts@)),
                        names.len() == ts@.len(),
                        entries_view(self.app_data.tags@) == add_tags(
                            old_v.tags,
                            names.take(l as int),
                            id as int,
                        ),
                        tasks_view(self.app_data.tasks@) == old_v.tasks,
                        self.app_data.next_id as int == old_v.next_id,
                        self.app_data.config.date_format@ == old_v.date_format,
                    decreases ts@.len() - l,
                {
                    let lt = lowercase(ts[l].as_str());
                    proof {
                        assert(lt@ == names[l as int]);
                        assert(names.take(l as int + 1) =~= names.take(l as int).push(
                            names[l as int],
                        ));
                        lemma_add_tags_push(old_v.tags, names.take(l as int), names[l as int], id as int);
                    }
                    add_tag_entry(&mut self.app_data.tags, lt, id);
                    l = l + 1;
                }
                proof {
                    assert(names.take(ts@.len() as int) =~= names);
                }
            },
            None => {
                proof {
                    assert(add_tags(old_v.tags, tag_names(task@.tags), id as int) == old_v.tags);
                    assert(lowered(Seq::<Seq<char>>::empty()) =~= Seq::<Seq<char>>::empty());
                }
            },
        }
        let ghost tview = task@;
        self.app_data.tasks.push(task);
        self.app_data.next_id = self.app_data.next_id + 1;
        proof {
            assert(tasks_view(self.app_data.tasks@) =~= old_v.tasks.push(tview));
            assert(self@.tasks.last() == tview);
            if tview.tags is None {
                assert(lowered(tag_names(tview.tags)) =~= Seq::<Seq<char>>::empty());
                assert(add_tags(old_v.tags, lowered(tag_names(tview.tags)), id as int)
                    == old_v.tags);
            }
            assert(self@ == spec_add(old_v, tview));
            // the invariant survives: the new id sits above every old one
            assert forall|k: int|
                0 <= k < old_v.tags.len() implies tag_entry_wf(
                #[trigger] old_v.tags[k],
                old_v.next_id + 1,
            ) by {
                assert(tag_entry_wf(old_v.tags[k], old_v.next_id));
            }
            lemma_add_tags_wf(
                old_v.tags,
                lowered(tag_names(tview.tags)),
                id as int,
                old_v.next_id + 1,
            );
        }
        Ok(())
    }

    /// Edits only the supplied fields of the task with this id, and stamps
    /// `updated_at`. The supplied tags are indexed on top of the existing
    /// index; older entries for the task are deliberately left in place.
    /// Fails exactly on an absent id or an unparsable supplied due date,
    /// and then changes nothing.
    #[verifier::rlimit(50)]
    pub fn edit_task(
        &mut self,
        id: usize,
        name: Option<String>,
        priority: Option<bool>,
        due_date: Option<String>,
        tags: Option<Vec<String>>,
        done: Option<bool>,
    ) -> (r: Result<(), crate::errors::TodoError>)
        requires
            store_wf(old(self)@),
            name matches Some(n) ==> 1 <= n@.len(),
            tags matches Some(ts) ==> 1 <= ts@.len() && forall|l: int|
                0 <= l < ts@.len() ==> 1 <= #[trigger] ts@[l]@.len(),
        ensures
            store_wf(final(self)@),
            !store_has(old(self)@, id as int) ==> r == Err::<(), crate::errors::TodoError>(
                crate::errors::TodoError::TaskNotFound(id),
            ) && final(self)@ == old(self)@,
            store_has(old(self)@, id as int) ==> match edit_due_result(
                old(self)@.tasks[task_idx(old(self)@, id as int)].due_date,
                crate::task::opt_string_view(due_date),
                old(self)@.date_format,
            ) {
                Some(nd) => r is Ok && final(self)@ == spec_edit(
                    old(self)@,
                    task_idx(old(self)@, id as int),
                    (TaskView {
                        due_date: nd,
                        ..crate::task::edited_view(
                            old(self)@.tasks[task_idx(old(self)@, id as int)],
                            crate::task::opt_string_view(name),
                            priority,
                            crate::task::opt_tags_view(tags),
                            done,
                            final(self)@.tasks[task_idx(old(self)@, id as int)].updated_at,
                        )
                    }),
                    crate::task::opt_tags_view(tags),
                    id as int,
                ) && final(self)@.tasks[task_idx(old(self)@, id as int)].updated_at is Some,
                None => (r matches Err(e) && (e matches crate::errors::TodoError::InvalidDueDate(f)
                    && f@ == old(self)@.date_format)) && final(self)@ == old(self)@,
            },
    {
        let ghost old_v = self@;
        let i = match find_task_exec(&self.app_data.tasks, id) {
            Some(i) => i,
            None => {
                proof {
                    assert(!store_has(old_v, id as int));
                }
                return Err(crate::errors::TodoError::TaskNotFound(id));
            },
        };
        proof {
            lemma_task_idx_unique(old_v, i as int);
        }
        let tags_supplied = tags.is_some();
        let ghost old_ts = self.app_data.tasks@;
        let mut t = self.app_data.tasks.remove(i);
        proof {
            old_ts.remove_ensures(i as int);
            assert(tasks_view(self.app_data.tasks@) =~= old_v.tasks.remove(i as int));
            old_v.tasks.remove_ensures(i as int);
        }
        let res = t.edit(
            name,
            priority,
            due_date,
            tags,
            done,
            self.app_data.config.date_format.as_str(),
        );
        match res {
            Err(e) => {
                let ghost tval0 = t;
                proof {
                    assert(tval0 == old_ts[i as int]);
                }
                self.app_data.tasks.insert(i, t);
                proof {
                    let rem = old_ts.remove(i as int);
                    let ins = self.app_data.tasks@;
                    assert(ins == rem.insert(i as int, tval0));
                    rem.insert_ensures(i as int, tval0);
                    assert forall|idx: int| 0 <= idx < ins.len() implies ins[idx] == old_ts[idx] by {
                        if idx < i as int {
                            assert(ins[idx] == rem[idx]);
                        } else if idx > i as int {
                            assert(ins[(idx - 1) + 1] == rem[idx - 1]);
                            assert(rem[idx - 1] == old_ts[(idx - 1) + 1]);
                        }
                    }
                    assert(ins =~= old_ts);
                    assert(tasks_view(old_ts) == old_v.tasks);
                    assert(self@ == old_v);
                }
                Err(e)
            },
            Ok(()) => {
                if tags_supplied {
                    match &t.tags {
                        Some(ts) => {
                            let ghost names = lowered(crate::task::string_seq_view(ts@));
                            let mut l: usize = 0;
                            while l < ts.len()
                                invariant
                                    l <= ts@.len(),
                                    names == lowered(crate::task::string_seq_view(ts@)),
                                    names.len() == ts@.len(),
                                    entries_view(self.app_data.tags@) == add_tags(
                                        old_v.tags,
                                        names.take(l as int),
                                        id as int,
                                    ),
                                    self.app_data.tasks@ == old_ts.remove(i as int),
                                    self.app_data.next_id as int == old_v.next_id,
                                    self.app_data.config.date_format@ == old_v.date_format,
                                decreases ts@.len() - l,
                            {
                                let lt = lowercase(ts[l].as_str());
                                proof {
                                    assert(lt@ == names[l as int]);
                                    assert(names.take(l as int + 1) =~= names.take(l as int).push(
                                        names[l as int],
                                    ));
                                    lemma_add_tags_push(
                                        old_v.tags,
                                        names.take(l as int),
                                        names[l as int],
                                        id as int,
                                    );
                                }
                                add_tag_entry(&mut self.app_data.tags, lt, id);
                                l = l + 1;
                            }
                            proof {
                                assert(names.take(ts@.len() as int) =~= names);
                            }
                        },
                        None => {},
                    }
                }
                let ghost t2 = t@;
                let ghost tval = t;
                self.app_data.tasks.insert(i, t);
                proof {
                    let rem = old_ts.remove(i as int);
                    let ins = self.app_data.tasks@;
                    rem.insert_ensures(i as int, tval);
                    assert forall|idx: int| 0 <= idx < ins.len() implies ins[idx] == old_ts.update(
                        i as int,
                        tval,
                    )[idx] by {
                        if idx < i as int {
                            assert(ins[idx] == rem[idx]);
                        } else if idx > i as int {
                            assert(ins[(idx - 1) + 1] == rem[idx - 1]);
                            assert(rem[idx - 1] == old_ts[(idx - 1) + 1]);
                        }
                    }
                    assert(ins =~= old_ts.update(i as int, tval));
                    assert(tasks_view(old_ts.update(i as int, tval)) =~= old_v.tasks.update(
                        i as int,
                        t2,
                    ));
                    assert(t2.id == id as int);
                    if tags_supplied {
                        assert(1 <= (id as int) && (id as int) < old_v.next_id);
                        lemma_add_tags_wf(
                            old_v.tags,
                            lowered(tag_names(t2.tags)),
                            id as int,
                            old_v.next_id,
                        );
                        assert(entries_view(self.app_data.tags@) == add_tags(
                            old_v.tags,
                            lowered(tag_names(t2.tags)),
                            id as int,
                        ));
                    } else {
                        assert(entries_view(self.app_data.tags@) == old_v.tags);
                    }
                    let nt = old_v.tasks.update(i as int, t2);
                    assert forall|a: int, b: int| 0 <= a < b < nt.len() implies (
                    #[trigger] nt[a]).id < (#[trigger] nt[b]).id by {
                        assert(old_v.tasks[a].id < old_v.tasks[b].id);
                    }
                }
                Ok(())
            },
        }
    }

    /// Removes the task with this id, withdraws its id from the entries of
    /// its lowercased tags, and drops any entry left empty. Fails exactly
    /// when the id is absent, and then changes nothing.
    pub fn remove_task(&mut self, id: usize) -> (r: Result<(), crate::errors::TodoError>)
        requires
            store_wf(old(self)@),
        ensures
            store_wf(final(self)@),
            !store_has(old(self)@, id as int) ==> r == Err::<(), crate::errors::TodoError>(
                crate::errors::TodoError::TaskNotFound(id),
            ) && final(self)@ == old(self)@,
            store_has(old(self)@, id as int) ==> r is Ok && final(self)@ == spec_remove(
                old(self)@,
                task_idx(old(self)@, id as int),
            ),
    {
        let ghost old_v = self@;
        let i = match find_task_exec(&self.app_data.tasks, id) {
            Some(i) => i,
            None => {
                proof {
                    assert(!store_has(old_v, id as int));
                }
                return Err(crate::errors::TodoError::TaskNotFound(id));
            },
        };
        proof {
            lemma_task_idx_unique(old_v, i as int);
        }
        let ghost old_ts = self.app_data.tasks@;
        let t = self.app_data.tasks.remove(i);
        proof {
            old_ts.remove_ensures(i as int);
            old_v.tasks.remove_ensures(i as int);
            assert(tasks_view(self.app_data.tasks@) =~= old_v.tasks.remove(i as int));
        }
        match &t.tags {
            Some(ts) => {
                let ghost names = lowered(crate::task::string_seq_view(ts@));
                let mut l: usize = 0;
                while l < ts.len()
                    invariant
                        l <= ts@.len(),
                        names == lowered(crate::task::string_seq_view(ts@)),
                        names.len() == ts@.len(),
                        entries_view(self.app_data.tags@) == remove_tags(
                            old_v.tags,
                            names.take(l as int),
                            id as int,
                        ),
                        tasks_view(self.app_data.tasks@) == old_v.tasks.remove(i as int),
                        self.app_data.next_id as int == old_v.next_id,
                        self.app_data.config.date_format@ == old_v.date_format,
                    decreases ts@.len() - l,
                {
                    let lt = lowercase(ts[l].as_str());
                    proof {
                        assert(lt@ == names[l as int]);
                        assert(names.take(l as int + 1) =~= names.take(l as int).push(
                            names[l as int],
                        ));
                        lemma_remove_tags_push(
                            old_v.tags,
                            names.take(l as int),
                            names[l as int],
                            id as int,
                        );
                    }
                    remove_tag_entry(&mut self.app_data.tags, &lt, id);
                    l = l + 1;
                }
                proof {
                    assert(names.take(ts@.len() as int) =~= names);
                }
            },
            None => {
                proof {
                    assert(lowered(tag_names(t@.tags)) =~= Seq::<Seq<char>>::empty());
                    assert(remove_tags(old_v.tags, lowered(tag_names(t@.tags)), id as int)
                        == old_v.tags);
                }
            },
        }
        prune_empty_exec(&mut self.app_data.tags);
        proof {
            let names = lowered(tag_names(t@.tags));
            let removed = remove_tags(old_v.tags, names, id as int);
            assert(entries_view(self.app_data.tags@) == prune_empty(removed));
            lemma_remove_tags_part_wf(old_v.tags, names, id as int, old_v.next_id);
            lemma_prune_props(removed);
            let pruned = prune_empty(removed);
            assert forall|k: int| 0 <= k < pruned.len() implies tag_entry_wf(
                #[trigger] pruned[k],
                old_v.next_id,
            ) by {
                assert(removed.contains(pruned[k]));
                let j = choose|j: int| 0 <= j < removed.len() && removed[j] == pruned[k];
                assert(forall|x: int|
                    0 <= x < removed[j].ids.len() ==> 1 <= #[trigger] removed[j].ids[x]
                        < old_v.next_id);
            }
            // the remaining tasks keep their order and their invariants
            let nt = old_v.tasks.remove(i as int);
            assert forall|a: int, b: int| 0 <= a < b < nt.len() implies (#[trigger] nt[a]).id
                < (#[trigger] nt[b]).id by {
                if b < i as int {
                    assert(nt[a] == old_v.tasks[a] && nt[b] == old_v.tasks[b]);
                } else if a < i as int {
                    assert(nt[a] == old_v.tasks[a] && nt[b] == old_v.tasks[b + 1]);
                } else {
                    assert(nt[a] == old_v.tasks[a + 1] && nt[b] == old_v.tasks[b + 1]);
                }
            }
            assert forall|a: int| 0 <= a < nt.len() implies crate::task::task_wf(#[trigger] nt[a])
                && nt[a].id < old_v.next_id by {
                if a < i as int {
                    assert(nt[a] == old_v.tasks[a]);
                } else {
                    assert(nt[a] == old_v.tasks[a + 1]);
                }
            }
            assert(self@ == spec_remove(old_v, i as int));
        }
        Ok(())
    }

    /// Marks the task done, touching nothing else — in particular not
    /// `updated_at`. Fails exactly when the id is absent.
    pub fn mark_done(&mut self, id: usize) -> (r: Result<(), crate::errors::TodoError>)
        requires
            store_wf(old(self)@),
        ensures
            store_wf(final(self)@),
            !store_has(old(self)@, id as int) ==> r == Err::<(), crate::errors::TodoError>(
                crate::errors::TodoError::TaskNotFound(id),
            ) && final(self)@ == old(self)@,
            store_has(old(self)@, id as int) ==> r is Ok && final(self)@ == (AppDataView {
                tasks: old(self)@.tasks.update(
                    task_idx(old(self)@, id as int),
                    (TaskView {
                        done: true,
                        ..old(self)@.tasks[task_idx(old(self)@, id as int)]
                    }),
                ),
                ..old(self)@
            }),
    {
        let ghost old_v = self@;
        match find_task_exec(&self.app_data.tasks, id) {
            Some(i) => {
                proof {
                    lemma_task_idx_unique(old_v, i as int);
                }
                let mut t = self.app_data.tasks.remove(i);
                let ghost tv = t@;
                t.done = true;
                self.app_data.tasks.insert(i, t);
                proof {
                    assert(tasks_view(self.app_data.tasks@) =~= old_v.tasks.update(
                        i as int,
                        (TaskView { done: true, ..old_v.tasks[i as int] }),
                    ));
                }
                Ok(())
            },
            None => {
                proof {
                    assert(!store_has(old_v, id as int));
                }
                Err(crate::errors::TodoError::TaskNotFound(id))
            },
        }
    }

    /// Clears every task and every tag entry and starts the counter over
    /// at one, whatever the prior state.
    pub fn reset_tasks(&mut self) -> (r: Result<(), crate::errors::TodoError>)
        ensures
            r is Ok,
            final(self)@.tasks.len() == 0,
            final(self)@.tags.len() == 0,
            final(self)@.next_id == 1,
            final(self)@.date_format == old(self)@.date_format,
            store_wf(final(self)@),
    {
        self.app_data.tasks = Vec::new();
        self.app_data.tags = Vec::new();
        self.app_data.next_id = 1;
        Ok(())
    }

    /// Every tag name the index holds, in the index's own order.
    pub fn list_tags(&self) -> (r: Vec<String>)
        ensures
            r@.len() == self@.tags.len(),
            forall|k: int| 0 <= k < r@.len() ==> (#[trigger] r@[k])@ == self@.tags[k].tag,
    {
        let mut out: Vec<String> = Vec::new();
        let mut k: usize = 0;
        while k < self.app_data.tags.len()
            invariant
                k <= self.app_data.tags@.len(),
                out@.len() == k,
                forall|j: int| 0 <= j < k ==> (#[trigger] out@[j])@ == self@.tags[j].tag,
            decreases self.app_data.tags@.len() - k,
        {
            out.push(self.app_data.tags[k].tag.clone());
            k = k + 1;
        }
        out
    }

    /// Copies of the tasks gathered under each given tag name in turn:
    /// each name's entry's ids resolved against the collection, duplicates
    /// and all. Names looked up exactly as given, without lowercasing.
    pub fn list_tasks_by_tags(&self, tags: &[String]) -> (r: Vec<Task>)
        requires
            store_wf(self@),
        ensures
            tasks_view(r@) == collect_by_tags(
                self@.tasks,
                self@.tags,
                crate::task::string_seq_view(tags@),
            ),
    {
        let ghost tv = self@.tasks;
        let ghost iv = self@.tags;
        let ghost names = crate::task::string_seq_view(tags@);
        let mut out: Vec<Task> = Vec::new();
        let mut l: usize = 0;
        while l < tags.len()
            invariant
                l <= tags@.len(),
                store_wf(self@),
                tv == self@.tasks,
                iv == self@.tags,
                names == crate::task::string_seq_view(tags@),
                tasks_view(out@) == collect_by_tags(tv, iv, names.take(l as int)),
            decreases tags@.len() - l,
        {
            proof {
                assert(names.take(l as int + 1).drop_last() =~= names.take(l as int));
                assert(names.take(l as int + 1).last() == names[l as int]);
            }
            match find_tag_exec(&self.app_data.tags, &tags[l]) {
                Some(k) => {
                    let ids: &Vec<usize> = &self.app_data.tags[k].ids;
                    let ghost idv = iv[k as int].ids;
                    let mut j: usize = 0;
                    while j < ids.len()
                        invariant
                            j <= ids@.len(),
                            store_wf(self@),
                            tv == self@.tasks,
                            iv == self@.tags,
                            k < self.app_data.tags@.len(),
                            ids == &self.app_data.tags@[k as int].ids,
                            idv == iv[k as int].ids,
                            idv == ids@.map_values(|x: usize| x as int),
                            tasks_view(out@) == collect_by_tags(tv, iv, names.take(l as int))
                                + collect_ids(tv, idv.take(j as int)),
                        decreases ids@.len() - j,
                    {
                        proof {
                            assert(idv.take(j as int + 1).drop_last() =~= idv.take(j as int));
                            assert(idv.take(j as int + 1).last() == idv[j as int]);
                        }
                        let ghost outv0 = tasks_view(out@);
                        match find_task_exec(&self.app_data.tasks, ids[j]) {
                            Some(i) => {
                                proof {
                                    assert(tv[i as int].id == idv[j as int]);
                                    lemma_task_pos_unique(tv, i as int);
                                    assert(has_task_id(tv, idv[j as int]));
                                    assert(task_pos(tv, idv[j as int]) == i as int);
                                }
                                out.push(self.app_data.tasks[i].duplicate());
                                proof {
                                    assert(tasks_view(out@) =~= outv0.push(tv[i as int]));
                                    assert(collect_ids(tv, idv.take(j as int + 1)) == collect_ids(
                                        tv,
                                        idv.take(j as int),
                                    ).push(tv[i as int]));
                                    assert(tasks_view(out@) =~= collect_by_tags(
                                        tv,
                                        iv,
                                        names.take(l as int),
                                    ) + collect_ids(tv, idv.take(j as int + 1)));
                                }
                            },
                            None => {
                                proof {
                                    assert(!has_task_id(tv, idv[j as int]));
                                    assert(collect_ids(tv, idv.take(j as int + 1)) == collect_ids(
                                        tv,
                                        idv.take(j as int),
                                    ));
                                }
                            },
                        }
                        j = j + 1;
                    }
                    proof {
                        assert(idv.take(ids@.len() as int) =~= idv);
                        assert(tasks_view(out@) =~= collect_by_tags(tv, iv, names.take(
                            l as int + 1,
                        )));
                    }
                },
                None => {
                    proof {
                        assert(collect_by_tags(tv, iv, names.take(l as int + 1))
                            =~= collect_by_tags(tv, iv, names.take(l as int)));
                    }
                },
            }
            l = l + 1;
        }
        proof {
            assert(names.take(tags@.len() as int) =~= names);
        }
        out
    }

    /// The tasks passing every supplied criterion, in id order, as copies:
    /// priority when asked, due on or before the given date (parsed under
    /// the configured format — the exact failure condition is that parse
    /// failing), and carrying every given tag per the index.
    pub fn filter_tasks(
        &self,
        priority: bool,
        due_date: Option<String>,
        tags: Option<Vec<String>>,
    ) -> (r: Result<Vec<Task>, crate::errors::TodoError>)
        requires
            store_wf(self@),
        ensures
            match crate::task::opt_string_view(due_date) {
                Some(s) => match crate::dates::chrono_date_of(s, self@.date_format) {
                    Some(g) => r matches Ok(v) && tasks_view(v@) == filtered_tasks(
                        self@.tasks,
                        self@.tags,
                        priority,
                        Some(g),
                        opt_names_view(tags),
                    ),
                    None => r matches Err(e) && (e
                        matches crate::errors::TodoError::InvalidDueDate(f) && f@
                        == self@.date_format),
                },
                None => r matches Ok(v) && tasks_view(v@) == filtered_tasks(
                    self@.tasks,
                    self@.tags,
                    priority,
                    None,
                    opt_names_view(tags),
                ),
            },
    {
        let due: Option<crate::dates::PlainDate> = match &due_date {
            Option::Some(s) => {
                match crate::dates::chrono_parse_date(
                    s.as_str(),
                    self.app_data.config.date_format.as_str(),
                ) {
                    Option::Some((y, m, d)) => Option::Some(
                        crate::dates::PlainDate { year: y, month: m as u8, day: d as u8 },
                    ),
                    Option::None => {
                        return Err(
                            crate::errors::TodoError::InvalidDueDate(
                                String::from_str(self.app_data.config.date_format.as_str()),
                            ),
                        );
                    },
                }
            },
            Option::None => Option::None,
        };
        let ghost tv = self@.tasks;
        let ghost iv = self@.tags;
        let ghost g = opt_date_view(due);
        let ghost na = opt_names_view(tags);
        let mut out: Vec<Task> = Vec::new();
        let mut i: usize = 0;
        while i < self.app_data.tasks.len()
            invariant
                i <= self.app_data.tasks@.len(),
                store_wf(self@),
                tv == self@.tasks,
                iv == self@.tags,
                na == opt_names_view(tags),
                g == opt_date_view(due),
                tasks_view(out@) == filtered_tasks(tv.take(i as int), iv, priority, g, na),
            decreases self.app_data.tasks@.len() - i,
        {
            proof {
                assert(tv.take(i as int + 1).drop_last() =~= tv.take(i as int));
                assert(tv.take(i as int + 1).last() == tv[i as int]);
                assert(crate::task::task_wf(tv[i as int]));
            }
            if matches_exec(&self.app_data.tags, &self.app_data.tasks[i], priority, &due, &tags) {
                out.push(self.app_data.tasks[i].duplicate());
                proof {
                    assert(tasks_view(out@) =~= filtered_tasks(
                        tv.take(i as int + 1),
                        iv,
                        priority,
                        g,
                        na,
                    ));
                }
            }
            i = i + 1;
        }
        proof {
            assert(tv.take(self.app_data.tasks@.len() as int) =~= tv);
        }
        Ok(out)
    }
}

} // verus!
