//! The persisted form of the store.
//!
//! The full state is framed as one text record: every number is rendered
//! in decimal and closed by `';'`, every string is length-prefixed, every
//! list is counted, and the fields follow in a fixed order. The decoder
//! accepts exactly what the encoder produces — nothing is skipped and
//! trailing text is rejected — and `lemma_store_round_trip` proves that
//! reading a written store gives back the identical state.

use vstd::prelude::*;
use vstd::string::StrSliceExecFns;
use vstd::string::StringExecFns;
use crate::num::all_digits;
use crate::num::digit_prefix;
use crate::num::digits_of;
use crate::num::fmt_nat;
use crate::num::is_digit_char;
use crate::num::lemma_digit_prefix_exact;
use crate::num::lemma_parse_nat_round;
use crate::num::lemma_val_of_prefix;
use crate::num::lemma_val_of_take_step;
use crate::num::lemma_val_of_nonneg;
use crate::num::parse_nat_spec;
use crate::num::val_of;
use crate::store::AppDataView;
use crate::store::TagEntryView;
use crate::task::Task;
use crate::task::TaskView;

verus! {

// ---- the encoded forms -------------------------------------------------

pub open spec fn enc_nat(n: nat) -> Seq<char> {
    digits_of(n) + seq![';']
}

pub open spec fn enc_str(t: Seq<char>) -> Seq<char> {
    enc_nat(t.len()) + t
}

pub open spec fn enc_bool(b: bool) -> Seq<char> {
    enc_nat(if b { 1nat } else { 0nat })
}

pub open spec fn enc_opt_str(o: Option<Seq<char>>) -> Seq<char> {
    match o {
        Option::None => enc_nat(0),
        Option::Some(t) => enc_nat(1) + enc_str(t),
    }
}

pub open spec fn enc_str_items(ts: Seq<Seq<char>>) -> Seq<char>
    decreases ts.len(),
{
    if ts.len() == 0 {
        Seq::<char>::empty()
    } else {
        enc_str(ts[0]) + enc_str_items(ts.skip(1))
    }
}

pub open spec fn enc_str_list(ts: Seq<Seq<char>>) -> Seq<char> {
    enc_nat(ts.len()) + enc_str_items(ts)
}

pub open spec fn enc_opt_str_list(o: Option<Seq<Seq<char>>>) -> Seq<char> {
    match o {
        Option::None => enc_nat(0),
        Option::Some(ts) => enc_nat(1) + enc_str_list(ts),
    }
}

pub open spec fn enc_nat_items(ids: Seq<int>) -> Seq<char>
    decreases ids.len(),
{
    if ids.len() == 0 {
        Seq::<char>::empty()
    } else {
        enc_nat(ids[0] as nat) + enc_nat_items(ids.skip(1))
    }
}

pub open spec fn enc_nat_list(ids: Seq<int>) -> Seq<char> {
    enc_nat(ids.len()) + enc_nat_items(ids)
}

pub open spec fn enc_task(t: TaskView) -> Seq<char> {
    enc_nat(t.id as nat) + enc_str(t.name) + enc_bool(t.priority) + enc_opt_str(t.due_date)
        + enc_opt_str_list(t.tags) + enc_bool(t.done) + enc_str(t.created_at) + enc_opt_str(
        t.updated_at,
    )
}

pub open spec fn enc_task_items(ts: Seq<TaskView>) -> Seq<char>
    decreases ts.len(),
{
    if ts.len() == 0 {
        Seq::<char>::empty()
    } else {
        enc_task(ts[0]) + enc_task_items(ts.skip(1))
    }
}

pub open spec fn enc_entry(e: TagEntryView) -> Seq<char> {
    enc_str(e.tag) + enc_nat_list(e.ids)
}

pub open spec fn enc_entry_items(es: Seq<TagEntryView>) -> Seq<char>
    decreases es.len(),
{
    if es.len() == 0 {
        Seq::<char>::empty()
    } else {
        enc_entry(es[0]) + enc_entry_items(es.skip(1))
    }
}

pub open spec fn enc_store(v: AppDataView) -> Seq<char> {
    enc_nat(v.next_id as nat) + enc_str(v.date_format) + enc_nat(v.tasks.len()) + enc_task_items(
        v.tasks,
    ) + enc_nat(v.tags.len()) + enc_entry_items(v.tags)
}

// ---- the parsers -------------------------------------------------------

pub open spec fn parse_str_spec(s: Seq<char>) -> Option<(Seq<char>, Seq<char>)> {
    match parse_nat_spec(s) {
        Option::None => Option::None,
        Option::Some((l, r)) => if r.len() >= l {
            Option::Some((r.take(l), r.skip(l)))
        } else {
            Option::None
        },
    }
}

pub open spec fn parse_bool_spec(s: Seq<char>) -> Option<(bool, Seq<char>)> {
    match parse_nat_spec(s) {
        Option::None => Option::None,
        Option::Some((v, r)) => if v == 0 || v == 1 {
            Option::Some((v == 1, r))
        } else {
            Option::None
        },
    }
}

pub open spec fn parse_opt_str_spec(s: Seq<char>) -> Option<(Option<Seq<char>>, Seq<char>)> {
    match parse_nat_spec(s) {
        Option::None => Option::None,
        Option::Some((v, r)) => if v == 0 {
            Option::Some((Option::None, r))
        } else if v == 1 {
            match parse_str_spec(r) {
                Option::None => Option::None,
                Option::Some((t, r2)) => Option::Some((Option::Some(t), r2)),
            }
        } else {
            Option::None
        },
    }
}

pub open spec fn parse_str_items_spec(s: Seq<char>, n: nat) -> Option<(Seq<Seq<char>>, Seq<char>)>
    decreases n,
{
    if n == 0 {
        Option::Some((Seq::<Seq<char>>::empty(), s))
    } else {
        match parse_str_spec(s) {
            Option::None => Option::None,
            Option::Some((t, r)) => match parse_str_items_spec(r, (n - 1) as nat) {
                Option::None => Option::None,
                Option::Some((ts, r2)) => Option::Some((seq![t] + ts, r2)),
            },
        }
    }
}

pub open spec fn parse_str_list_spec(s: Seq<char>) -> Option<(Seq<Seq<char>>, Seq<char>)> {
    match parse_nat_spec(s) {
        Option::None => Option::None,
        Option::Some((n, r)) => parse_str_items_spec(r, n as nat),
    }
}

pub open spec fn parse_opt_str_list_spec(s: Seq<char>) -> Option<
    (Option<Seq<Seq<char>>>, Seq<char>),
> {
    match parse_nat_spec(s) {
        Option::None => Option::None,
        Option::Some((v, r)) => if v == 0 {
            Option::Some((Option::None, r))
        } else if v == 1 {
            match parse_str_list_spec(r) {
                Option::None => Option::None,
                Option::Some((ts, r2)) => Option::Some((Option::Some(ts), r2)),
            }
        } else {
            Option::None
        },
    }
}

pub open spec fn parse_nat_items_spec(s: Seq<char>, n: nat) -> Option<(Seq<int>, Seq<char>)>
    decreases n,
{
    if n == 0 {
        Option::Some((Seq::<int>::empty(), s))
    } else {
        match parse_nat_spec(s) {
            Option::None => Option::None,
            Option::Some((v, r)) => match parse_nat_items_spec(r, (n - 1) as nat) {
                Option::None => Option::None,
                Option::Some((vs, r2)) => Option::Some((seq![v] + vs, r2)),
            },
        }
    }
}

pub open spec fn parse_nat_list_spec(s: Seq<char>) -> Option<(Seq<int>, Seq<char>)> {
    match parse_nat_spec(s) {
        Option::None => Option::None,
        Option::Some((n, r)) => parse_nat_items_spec(r, n as nat),
    }
}

pub open spec fn parse_task_spec(s: Seq<char>) -> Option<(TaskView, Seq<char>)> {
    match parse_nat_spec(s) {
        Option::None => Option::None,
        Option::Some((id, r1)) => match parse_str_spec(r1) {
            Option::None => Option::None,
            Option::Some((name, r2)) => match parse_bool_spec(r2) {
                Option::None => Option::None,
                Option::Some((priority, r3)) => match parse_opt_str_spec(r3) {
                    Option::None => Option::None,
                    Option::Some((due, r4)) => match parse_opt_str_list_spec(r4) {
                        Option::None => Option::None,
                        Option::Some((tags, r5)) => match parse_bool_spec(r5) {
                            Option::None => Option::None,
                            Option::Some((done, r6)) => match parse_str_spec(r6) {
                                Option::None => Option::None,
                                Option::Some((created, r7)) => match parse_opt_str_spec(r7) {
                                    Option::None => Option::None,
                                    Option::Some((updated, r8)) => Option::Some(
                                        ((TaskView {
                                            id: id,
                                            name: name,
                                            priority: priority,
                                            due_date: due,
                                            tags: tags,
                                            done: done,
                                            created_at: created,
                                            updated_at: updated,
                                        }), r8),
                                    ),
                                },
                            },
                        },
                    },
                },
            },
        },
    }
}

pub open spec fn parse_task_items_spec(s: Seq<char>, n: nat) -> Option<(Seq<TaskView>, Seq<char>)>
    decreases n,
{
    if n == 0 {
        Option::Some((Seq::<TaskView>::empty(), s))
    } else {
        match parse_task_spec(s) {
            Option::None => Option::None,
            Option::Some((t, r)) => match parse_task_items_spec(r, (n - 1) as nat) {
                Option::None => Option::None,
                Option::Some((ts, r2)) => Option::Some((seq![t] + ts, r2)),
            },
        }
    }
}

pub open spec fn parse_entry_spec(s: Seq<char>) -> Option<(TagEntryView, Seq<char>)> {
    match parse_str_spec(s) {
        Option::None => Option::None,
        Option::Some((tag, r1)) => match parse_nat_list_spec(r1) {
            Option::None => Option::None,
            Option::Some((ids, r2)) => Option::Some(((TagEntryView { tag: tag, ids: ids }), r2)),
        },
    }
}

pub open spec fn parse_entry_items_spec(s: Seq<char>, n: nat) -> Option<
    (Seq<TagEntryView>, Seq<char>),
>
    decreases n,
{
    if n == 0 {
        Option::Some((Seq::<TagEntryView>::empty(), s))
    } else {
        match parse_entry_spec(s) {
            Option::None => Option::None,
            Option::Some((e, r)) => match parse_entry_items_spec(r, (n - 1) as nat) {
                Option::None => Option::None,
                Option::Some((es, r2)) => Option::Some((seq![e] + es, r2)),
            },
        }
    }
}

/// The whole record; anything left over after the last field rejects it.
pub open spec fn parse_store_spec(s: Seq<char>) -> Option<AppDataView> {
    match parse_nat_spec(s) {
        Option::None => Option::None,
        Option::Some((next_id, r1)) => match parse_str_spec(r1) {
            Option::None => Option::None,
            Option::Some((fmt, r2)) => match parse_nat_spec(r2) {
                Option::None => Option::None,
                Option::Some((tn, r3)) => match parse_task_items_spec(r3, tn as nat) {
                    Option::None => Option::None,
                    Option::Some((tasks, r4)) => match parse_nat_spec(r4) {
                        Option::None => Option::None,
                        Option::Some((en, r5)) => match parse_entry_items_spec(r5, en as nat) {
                            Option::None => Option::None,
                            Option::Some((tags, r6)) => if r6.len() == 0 {
                                Option::Some(
                                    (AppDataView {
                                        tasks: tasks,
                                        tags: tags,
                                        next_id: next_id,
                                        date_format: fmt,
                                    }),
                                )
                            } else {
                                Option::None
                            },
                        },
                    },
                },
            },
        },
    }
}

// ---- what the machine can hold -----------------------------------------

pub open spec fn str_ok(t: Seq<char>) -> bool {
    t.len() <= usize::MAX
}

pub open spec fn opt_str_ok(o: Option<Seq<char>>) -> bool {
    o matches Some(t) ==> str_ok(t)
}

pub open spec fn task_bounded(t: TaskView) -> bool {
    &&& 0 <= t.id <= usize::MAX
    &&& str_ok(t.name)
    &&& opt_str_ok(t.due_date)
    &&& (t.tags matches Some(ts) ==> ts.len() <= usize::MAX && forall|x: int|
        0 <= x < ts.len() ==> str_ok(#[trigger] ts[x]))
    &&& str_ok(t.created_at)
    &&& opt_str_ok(t.updated_at)
}

pub open spec fn entry_bounded(e: TagEntryView) -> bool {
    &&& str_ok(e.tag)
    &&& e.ids.len() <= usize::MAX
    &&& forall|j: int| 0 <= j < e.ids.len() ==> 0 <= #[trigger] e.ids[j] <= usize::MAX
}

/// Every number and length in the state fits the machine, as it does in
/// any state actually held in memory.
pub open spec fn store_bounded(v: AppDataView) -> bool {
    &&& 0 <= v.next_id <= usize::MAX
    &&& str_ok(v.date_format)
    &&& v.tasks.len() <= usize::MAX
    &&& forall|i: int| 0 <= i < v.tasks.len() ==> task_bounded(#[trigger] v.tasks[i])
    &&& v.tags.len() <= usize::MAX
    &&& forall|k: int| 0 <= k < v.tags.len() ==> entry_bounded(#[trigger] v.tags[k])
}

// ---- the round trip ----------------------------------------------------

proof fn lemma_nat_round(n: nat, rest: Seq<char>)
    requires
        n <= usize::MAX,
    ensures
        parse_nat_spec(enc_nat(n) + rest) == Option::Some((n as int, rest)),
{
    assert(enc_nat(n) + rest =~= digits_of(n) + seq![';'] + rest);
    lemma_parse_nat_round(n, rest);
}

proof fn lemma_str_round(t: Seq<char>, rest: Seq<char>)
    requires
        str_ok(t),
    ensures
        parse_str_spec(enc_str(t) + rest) == Option::Some((t, rest)),
{
    let tail = t + rest;
    assert(enc_str(t) + rest =~= enc_nat(t.len()) + tail);
    lemma_nat_round(t.len(), tail);
    assert(tail.take(t.len() as int) =~= t);
    assert(tail.skip(t.len() as int) =~= rest);
}

proof fn lemma_bool_round(b: bool, rest: Seq<char>)
    ensures
        parse_bool_spec(enc_bool(b) + rest) == Option::Some((b, rest)),
{
    lemma_nat_round(if b { 1nat } else { 0nat }, rest);
}

proof fn lemma_opt_str_round(o: Option<Seq<char>>, rest: Seq<char>)
    requires
        opt_str_ok(o),
    ensures
        parse_opt_str_spec(enc_opt_str(o) + rest) == Option::Some((o, rest)),
{
    match o {
        Option::None => {
            lemma_nat_round(0, rest);
        },
        Option::Some(t) => {
            assert(enc_opt_str(o) + rest =~= enc_nat(1) + (enc_str(t) + rest));
            lemma_nat_round(1, enc_str(t) + rest);
            lemma_str_round(t, rest);
        },
    }
}

proof fn lemma_str_items_round(ts: Seq<Seq<char>>, rest: Seq<char>)
    requires
        forall|x: int| 0 <= x < ts.len() ==> str_ok(#[trigger] ts[x]),
    ensures
        parse_str_items_spec(enc_str_items(ts) + rest, ts.len()) == Option::Some((ts, rest)),
    decreases ts.len(),
{
    if ts.len() == 0 {
        assert(enc_str_items(ts) + rest =~= rest);
        assert(parse_str_items_spec(rest, 0) == Option::Some((Seq::<Seq<char>>::empty(), rest)));
        assert(Seq::<Seq<char>>::empty() =~= ts);
    } else {
        let tail = enc_str_items(ts.skip(1)) + rest;
        assert(enc_str_items(ts) + rest =~= enc_str(ts[0]) + tail);
        lemma_str_round(ts[0], tail);
        assert(forall|x: int|
            0 <= x < ts.skip(1).len() ==> str_ok(#[trigger] ts.skip(1)[x])) by {
            assert(forall|x: int| 0 <= x < ts.len() - 1 ==> ts.skip(1)[x] == #[trigger] ts[x + 1]);
        }
        lemma_str_items_round(ts.skip(1), rest);
        assert(seq![ts[0]] + ts.skip(1) =~= ts);
    }
}

proof fn lemma_str_list_round(ts: Seq<Seq<char>>, rest: Seq<char>)
    requires
        ts.len() <= usize::MAX,
        forall|x: int| 0 <= x < ts.len() ==> str_ok(#[trigger] ts[x]),
    ensures
        parse_str_list_spec(enc_str_list(ts) + rest) == Option::Some((ts, rest)),
{
    let tail = enc_str_items(ts) + rest;
    assert(enc_str_list(ts) + rest =~= enc_nat(ts.len()) + tail);
    lemma_nat_round(ts.len(), tail);
    lemma_str_items_round(ts, rest);
}

proof fn lemma_opt_str_list_round(o: Option<Seq<Seq<char>>>, rest: Seq<char>)
    requires
        o matches Some(ts) ==> ts.len() <= usize::MAX && forall|x: int|
            0 <= x < ts.len() ==> str_ok(#[trigger] ts[x]),
    ensures
        parse_opt_str_list_spec(enc_opt_str_list(o) + rest) == Option::Some((o, rest)),
{
    match o {
        Option::None => {
            lemma_nat_round(0, rest);
        },
        Option::Some(ts) => {
            assert(enc_opt_str_list(o) + rest =~= enc_nat(1) + (enc_str_list(ts) + rest));
            lemma_nat_round(1, enc_str_list(ts) + rest);
            lemma_str_list_round(ts, rest);
        },
    }
}

proof fn lemma_nat_items_round(ids: Seq<int>, rest: Seq<char>)
    requires
        forall|j: int| 0 <= j < ids.len() ==> 0 <= #[trigger] ids[j] <= usize::MAX,
    ensures
        parse_nat_items_spec(enc_nat_items(ids) + rest, ids.len()) == Option::Some((ids, rest)),
    decreases ids.len(),
{
    if ids.len() == 0 {
        assert(enc_nat_items(ids) + rest =~= rest);
        assert(Seq::<int>::empty() =~= ids);
    } else {
        let tail = enc_nat_items(ids.skip(1)) + rest;
        assert(enc_nat_items(ids) + rest =~= enc_nat(ids[0] as nat) + tail);
        lemma_nat_round(ids[0] as nat, tail);
        assert(forall|j: int|
            0 <= j < ids.skip(1).len() ==> 0 <= #[trigger] ids.skip(1)[j] <= usize::MAX) by {
            assert(forall|j: int|
                0 <= j < ids.len() - 1 ==> ids.skip(1)[j] == #[trigger] ids[j + 1]);
        }
        lemma_nat_items_round(ids.skip(1), rest);
        assert(seq![ids[0]] + ids.skip(1) =~= ids);
    }
}

proof fn lemma_nat_list_round(ids: Seq<int>, rest: Seq<char>)
    requires
        ids.len() <= usize::MAX,
        forall|j: int| 0 <= j < ids.len() ==> 0 <= #[trigger] ids[j] <= usize::MAX,
    ensures
        parse_nat_list_spec(enc_nat_list(ids) + rest) == Option::Some((ids, rest)),
{
    let tail = enc_nat_items(ids) + rest;
    assert(enc_nat_list(ids) + rest =~= enc_nat(ids.len()) + tail);
    lemma_nat_round(ids.len(), tail);
    lemma_nat_items_round(ids, rest);
}

#[verifier::rlimit(100)]
proof fn lemma_task_round(t: TaskView, rest: Seq<char>)
    requires
        task_bounded(t),
    ensures
        parse_task_spec(enc_task(t) + rest) == Option::Some((t, rest)),
{
    let r8 = rest;
    let r7 = enc_opt_str(t.updated_at) + r8;
    let r6 = enc_str(t.created_at) + r7;
    let r5 = enc_bool(t.done) + r6;
    let r4 = enc_opt_str_list(t.tags) + r5;
    let r3 = enc_opt_str(t.due_date) + r4;
    let r2 = enc_bool(t.priority) + r3;
    let r1 = enc_str(t.name) + r2;
    assert(enc_task(t) + rest =~= enc_nat(t.id as nat) + r1);
    lemma_nat_round(t.id as nat, r1);
    lemma_str_round(t.name, r2);
    lemma_bool_round(t.priority, r3);
    lemma_opt_str_round(t.due_date, r4);
    lemma_opt_str_list_round(t.tags, r5);
    lemma_bool_round(t.done, r6);
    lemma_str_round(t.created_at, r7);
    lemma_opt_str_round(t.updated_at, r8);
}

proof fn lemma_task_items_round(ts: Seq<TaskView>, rest: Seq<char>)
    requires
        forall|i: int| 0 <= i < ts.len() ==> task_bounded(#[trigger] ts[i]),
    ensures
        parse_task_items_spec(enc_task_items(ts) + rest, ts.len()) == Option::Some((ts, rest)),
    decreases ts.len(),
{
    if ts.len() == 0 {
        assert(enc_task_items(ts) + rest =~= rest);
        assert(Seq::<TaskView>::empty() =~= ts);
    } else {
        let tail = enc_task_items(ts.skip(1)) + rest;
        assert(enc_task_items(ts) + rest =~= enc_task(ts[0]) + tail);
        lemma_task_round(ts[0], tail);
        assert(forall|i: int|
            0 <= i < ts.skip(1).len() ==> task_bounded(#[trigger] ts.skip(1)[i])) by {
            assert(forall|i: int| 0 <= i < ts.len() - 1 ==> ts.skip(1)[i] == #[trigger] ts[i + 1]);
        }
        lemma_task_items_round(ts.skip(1), rest);
        assert(seq![ts[0]] + ts.skip(1) =~= ts);
    }
}

proof fn lemma_entry_round(e: TagEntryView, rest: Seq<char>)
    requires
        entry_bounded(e),
    ensures
        parse_entry_spec(enc_entry(e) + rest) == Option::Some((e, rest)),
{
    let r1 = enc_nat_list(e.ids) + rest;
    assert(enc_entry(e) + rest =~= enc_str(e.tag) + r1);
    lemma_str_round(e.tag, r1);
    lemma_nat_list_round(e.ids, rest);
}

proof fn lemma_entry_items_round(es: Seq<TagEntryView>, rest: Seq<char>)
    requires
        forall|k: int| 0 <= k < es.len() ==> entry_bounded(#[trigger] es[k]),
    ensures
        parse_entry_items_spec(enc_entry_items(es) + rest, es.len()) == Option::Some((es, rest)),
    decreases es.len(),
{
    if es.len() == 0 {
        assert(enc_entry_items(es) + rest =~= rest);
        assert(Seq::<TagEntryView>::empty() =~= es);
    } else {
        let tail = enc_entry_items(es.skip(1)) + rest;
        assert(enc_entry_items(es) + rest =~= enc_entry(es[0]) + tail);
        lemma_entry_round(es[0], tail);
        assert(forall|k: int|
            0 <= k < es.skip(1).len() ==> entry_bounded(#[trigger] es.skip(1)[k])) by {
            assert(forall|k: int| 0 <= k < es.len() - 1 ==> es.skip(1)[k] == #[trigger] es[k + 1]);
        }
        lemma_entry_items_round(es.skip(1), rest);
        assert(seq![es[0]] + es.skip(1) =~= es);
    }
}

proof fn lemma_enc_str_items_push(ts: Seq<Seq<char>>, t: Seq<char>)
    ensures
        enc_str_items(ts.push(t)) == enc_str_items(ts) + enc_str(t),
    decreases ts.len(),
{
    let ns = ts.push(t);
    if ts.len() == 0 {
        assert(ns[0] == t);
        assert(ns.skip(1) =~= Seq::<Seq<char>>::empty());
        assert(enc_str_items(ns) == enc_str(t) + enc_str_items(ns.skip(1)));
        assert(enc_str(t) + Seq::<char>::empty() =~= enc_str(t));
        assert(Seq::<char>::empty() + enc_str(t) =~= enc_str(t));
    } else {
        assert(ns[0] == ts[0]);
        assert(ns.skip(1) =~= ts.skip(1).push(t));
        lemma_enc_str_items_push(ts.skip(1), t);
        assert(enc_str_items(ns) == enc_str(ts[0]) + (enc_str_items(ts.skip(1)) + enc_str(t)));
        assert(enc_str(ts[0]) + (enc_str_items(ts.skip(1)) + enc_str(t)) =~= (enc_str(ts[0])
            + enc_str_items(ts.skip(1))) + enc_str(t));
    }
}

proof fn lemma_enc_nat_items_push(ids: Seq<int>, x: int)
    ensures
        enc_nat_items(ids.push(x)) == enc_nat_items(ids) + enc_nat(x as nat),
    decreases ids.len(),
{
    let ns = ids.push(x);
    if ids.len() == 0 {
        assert(ns[0] == x);
        assert(ns.skip(1) =~= Seq::<int>::empty());
        assert(enc_nat_items(ns) == enc_nat(x as nat) + enc_nat_items(ns.skip(1)));
        assert(enc_nat_items(ids) == Seq::<char>::empty());
        assert(enc_nat(x as nat) + Seq::<char>::empty() =~= enc_nat(x as nat));
        assert(Seq::<char>::empty() + enc_nat(x as nat) =~= enc_nat(x as nat));
    } else {
        assert(ns[0] == ids[0]);
        assert(ns.skip(1) =~= ids.skip(1).push(x));
        lemma_enc_nat_items_push(ids.skip(1), x);
        assert(enc_nat_items(ns) == enc_nat(ns[0] as nat) + enc_nat_items(ns.skip(1)));
        assert(enc_nat_items(ids) == enc_nat(ids[0] as nat) + enc_nat_items(ids.skip(1)));
        assert(enc_nat(ids[0] as nat) + (enc_nat_items(ids.skip(1)) + enc_nat(x as nat)) =~= (
        enc_nat(ids[0] as nat) + enc_nat_items(ids.skip(1))) + enc_nat(x as nat));
    }
}

proof fn lemma_enc_task_items_push(ts: Seq<TaskView>, t: TaskView)
    ensures
        enc_task_items(ts.push(t)) == enc_task_items(ts) + enc_task(t),
    decreases ts.len(),
{
    let ns = ts.push(t);
    if ts.len() == 0 {
        assert(ns[0] == t);
        assert(ns.skip(1) =~= Seq::<TaskView>::empty());
        assert(enc_task_items(ns) == enc_task(t) + enc_task_items(ns.skip(1)));
        assert(enc_task_items(ts) == Seq::<char>::empty());
        assert(enc_task(t) + Seq::<char>::empty() =~= enc_task(t));
        assert(Seq::<char>::empty() + enc_task(t) =~= enc_task(t));
    } else {
        assert(ns[0] == ts[0]);
        assert(ns.skip(1) =~= ts.skip(1).push(t));
        lemma_enc_task_items_push(ts.skip(1), t);
        assert(enc_task_items(ns) == enc_task(ns[0]) + enc_task_items(ns.skip(1)));
        assert(enc_task_items(ts) == enc_task(ts[0]) + enc_task_items(ts.skip(1)));
        assert(enc_task(ts[0]) + (enc_task_items(ts.skip(1)) + enc_task(t)) =~= (enc_task(ts[0])
            + enc_task_items(ts.skip(1))) + enc_task(t));
    }
}

proof fn lemma_enc_entry_items_push(es: Seq<TagEntryView>, e: TagEntryView)
    ensures
        enc_entry_items(es.push(e)) == enc_entry_items(es) + enc_entry(e),
    decreases es.len(),
{
    let ns = es.push(e);
    if es.len() == 0 {
        assert(ns[0] == e);
        assert(ns.skip(1) =~= Seq::<TagEntryView>::empty());
        assert(enc_entry_items(ns) == enc_entry(e) + enc_entry_items(ns.skip(1)));
        assert(enc_entry_items(es) == Seq::<char>::empty());
        assert(enc_entry(e) + Seq::<char>::empty() =~= enc_entry(e));
        assert(Seq::<char>::empty() + enc_entry(e) =~= enc_entry(e));
    } else {
        assert(ns[0] == es[0]);
        assert(ns.skip(1) =~= es.skip(1).push(e));
        lemma_enc_entry_items_push(es.skip(1), e);
        assert(enc_entry_items(ns) == enc_entry(ns[0]) + enc_entry_items(ns.skip(1)));
        assert(enc_entry_items(es) == enc_entry(es[0]) + enc_entry_items(es.skip(1)));
        assert(enc_entry(es[0]) + (enc_entry_items(es.skip(1)) + enc_entry(e)) =~= (enc_entry(
            es[0],
        ) + enc_entry_items(es.skip(1))) + enc_entry(e));
    }
}

// ---- writing -----------------------------------------------------------

fn push_nat(out: &mut String, n: usize)
    ensures
        final(out)@ == old(out)@ + enc_nat(n as nat),
{
    let d = fmt_nat(n);
    out.append(d.as_str());
    out.append(";");
    proof {
        reveal_strlit(";");
        assert(out@ =~= old(out)@ + enc_nat(n as nat));
    }
}

fn push_str_field(out: &mut String, s: &str)
    ensures
        final(out)@ == old(out)@ + enc_str(s@),
{
    let l = s.unicode_len();
    push_nat(out, l);
    out.append(s);
    proof {
        assert(out@ =~= old(out)@ + enc_str(s@));
    }
}

fn push_bool(out: &mut String, b: bool)
    ensures
        final(out)@ == old(out)@ + enc_bool(b),
{
    if b {
        push_nat(out, 1);
    } else {
        push_nat(out, 0);
    }
}

fn push_opt_str(out: &mut String, o: &Option<String>)
    ensures
        final(out)@ == old(out)@ + enc_opt_str(crate::task::opt_string_view(*o)),
{
    match o {
        Option::None => {
            push_nat(out, 0);
        },
        Option::Some(s) => {
            push_nat(out, 1);
            push_str_field(out, s.as_str());
            proof {
                assert(out@ =~= old(out)@ + (enc_nat(1) + enc_str(s@)));
            }
        },
    }
}

fn push_str_list(out: &mut String, v: &Vec<String>)
    ensures
        final(out)@ == old(out)@ + enc_str_list(crate::task::string_seq_view(v@)),
{
    let ghost sv = crate::task::string_seq_view(v@);
    push_nat(out, v.len());
    let ghost base = out@;
    let mut l: usize = 0;
    while l < v.len()
        invariant
            l <= v@.len(),
            sv == crate::task::string_seq_view(v@),
            sv.len() == v@.len(),
            out@ == base + enc_str_items(sv.take(l as int)),
        decreases v@.len() - l,
    {
        proof {
            assert(sv.take(l as int + 1) =~= sv.take(l as int).push(sv[l as int]));
            lemma_enc_str_items_push(sv.take(l as int), sv[l as int]);
        }
        push_str_field(out, v[l].as_str());
        proof {
            assert(out@ =~= base + enc_str_items(sv.take(l as int + 1)));
        }
        l = l + 1;
    }
    proof {
        assert(sv.take(v@.len() as int) =~= sv);
        assert(out@ =~= old(out)@ + enc_str_list(sv));
    }
}

fn push_opt_str_list(out: &mut String, o: &Option<Vec<String>>)
    ensures
        final(out)@ == old(out)@ + enc_opt_str_list(crate::task::opt_tags_view(*o)),
{
    match o {
        Option::None => {
            push_nat(out, 0);
        },
        Option::Some(v) => {
            push_nat(out, 1);
            push_str_list(out, v);
            proof {
                assert(out@ =~= old(out)@ + (enc_nat(1) + enc_str_list(
                    crate::task::string_seq_view(v@),
                )));
            }
        },
    }
}

fn push_nat_list(out: &mut String, v: &Vec<usize>)
    ensures
        final(out)@ == old(out)@ + enc_nat_list(v@.map_values(|x: usize| x as int)),
{
    let ghost iv = v@.map_values(|x: usize| x as int);
    push_nat(out, v.len());
    let ghost base = out@;
    let mut l: usize = 0;
    while l < v.len()
        invariant
            l <= v@.len(),
            iv == v@.map_values(|x: usize| x as int),
            iv.len() == v@.len(),
            out@ == base + enc_nat_items(iv.take(l as int)),
        decreases v@.len() - l,
    {
        proof {
            assert(iv.take(l as int + 1) =~= iv.take(l as int).push(iv[l as int]));
            lemma_enc_nat_items_push(iv.take(l as int), iv[l as int]);
        }
        push_nat(out, v[l]);
        proof {
            assert(out@ =~= base + enc_nat_items(iv.take(l as int + 1)));
        }
        l = l + 1;
    }
    proof {
        assert(iv.take(v@.len() as int) =~= iv);
        assert(out@ =~= old(out)@ + enc_nat_list(iv));
    }
}

#[verifier::rlimit(100)]
fn push_task(out: &mut String, t: &Task)
    ensures
        final(out)@ == old(out)@ + enc_task(t@),
{
    push_nat(out, t.id);
    push_str_field(out, t.name.as_str());
    push_bool(out, t.priority);
    push_opt_str(out, &t.due_date);
    push_opt_str_list(out, &t.tags);
    push_bool(out, t.done);
    push_str_field(out, t.created_at.as_str());
    push_opt_str(out, &t.updated_at);
    proof {
        assert(out@ =~= old(out)@ + enc_task(t@));
    }
}

fn push_task_list(out: &mut String, v: &Vec<Task>)
    ensures
        final(out)@ == old(out)@ + enc_nat(v@.len()) + enc_task_items(
            crate::store::tasks_view(v@),
        ),
{
    let ghost tv = crate::store::tasks_view(v@);
    push_nat(out, v.len());
    let ghost base = out@;
    let mut l: usize = 0;
    while l < v.len()
        invariant
            l <= v@.len(),
            tv == crate::store::tasks_view(v@),
            tv.len() == v@.len(),
            out@ == base + enc_task_items(tv.take(l as int)),
        decreases v@.len() - l,
    {
        proof {
            assert(tv.take(l as int + 1) =~= tv.take(l as int).push(tv[l as int]));
            lemma_enc_task_items_push(tv.take(l as int), tv[l as int]);
        }
        push_task(out, &v[l]);
        proof {
            assert(out@ =~= base + enc_task_items(tv.take(l as int + 1)));
        }
        l = l + 1;
    }
    proof {
        assert(tv.take(v@.len() as int) =~= tv);
    }
}

fn push_entry(out: &mut String, e: &crate::store::TagEntry)
    ensures
        final(out)@ == old(out)@ + enc_entry(e@),
{
    push_str_field(out, e.tag.as_str());
    push_nat_list(out, &e.ids);
    proof {
        assert(out@ =~= old(out)@ + enc_entry(e@));
    }
}

fn push_entry_list(out: &mut String, v: &Vec<crate::store::TagEntry>)
    ensures
        final(out)@ == old(out)@ + enc_nat(v@.len()) + enc_entry_items(
            crate::store::entries_view(v@),
        ),
{
    let ghost ev = crate::store::entries_view(v@);
    push_nat(out, v.len());
    let ghost base = out@;
    let mut l: usize = 0;
    while l < v.len()
        invariant
            l <= v@.len(),
            ev == crate::store::entries_view(v@),
            ev.len() == v@.len(),
            out@ == base + enc_entry_items(ev.take(l as int)),
        decreases v@.len() - l,
    {
        proof {
            assert(ev.take(l as int + 1) =~= ev.take(l as int).push(ev[l as int]));
            lemma_enc_entry_items_push(ev.take(l as int), ev[l as int]);
        }
        push_entry(out, &v[l]);
        proof {
            assert(out@ =~= base + enc_entry_items(ev.take(l as int + 1)));
        }
        l = l + 1;
    }
    proof {
        assert(ev.take(v@.len() as int) =~= ev);
    }
}

/// Writes the store's full state as one text record.
#[verifier::rlimit(100)]
pub fn encode_store(d: &crate::store::AppData) -> (r: String)
    ensures
        r@ == enc_store(d@),
{
    let mut out = String::new();
    push_nat(&mut out, d.next_id);
    push_str_field(&mut out, d.config.date_format.as_str());
    push_task_list(&mut out, &d.tasks);
    push_entry_list(&mut out, &d.tags);
    proof {
        assert(out@ =~= enc_store(d@));
    }
    out
}

// ---- reading -----------------------------------------------------------

fn dec_nat(s: &str, n: usize, pos: usize) -> (r: Option<(usize, usize)>)
    requires
        n == s@.len(),
        pos <= n,
    ensures
        match r {
            Some(v) => v.1 <= n && parse_nat_spec(s@.skip(pos as int)) == Option::Some(
                (v.0 as int, s@.skip(v.1 as int)),
            ),
            None => parse_nat_spec(s@.skip(pos as int)) is None,
        },
{
    let ghost rm = s@.skip(pos as int);
    let mut i: usize = pos;
    let mut cont: bool = true;
    while cont && i < n
        invariant
            n == s@.len(),
            pos <= i <= n,
            forall|j: int| pos <= j < i ==> crate::num::is_digit_char(#[trigger] s@[j]),
            !cont ==> i < n && !crate::num::is_digit_char(s@[i as int]),
        decreases n - i, (if cont { 1int } else { 0int }),
    {
        let c = s.get_char(i);
        if crate::num::is_digit_exec(c) {
            i = i + 1;
        } else {
            cont = false;
        }
    }
    proof {
        assert(forall|j: int| 0 <= j < rm.len() ==> rm[j] == #[trigger] s@[pos + j]);
        assert(forall|j: int|
            0 <= j < (i - pos) ==> crate::num::is_digit_char(#[trigger] rm[j]));
        lemma_digit_prefix_exact(rm, i - pos);
        assert(digit_prefix(rm) == rm.take(i - pos));
    }
    let ghost dp = digit_prefix(rm);
    if i == pos {
        proof {
            assert(dp.len() == 0);
        }
        return None;
    }
    if i == n {
        proof {
            assert(dp.len() == rm.len());
        }
        return None;
    }
    let term = s.get_char(i);
    if !(term == ';') {
        proof {
            assert(rm[dp.len() as int] == s@[i as int]);
        }
        return None;
    }
    proof {
        assert(rm[dp.len() as int] == ';');
        assert(all_digits(dp)) by {
            assert(forall|j: int| 0 <= j < dp.len() ==> dp[j] == #[trigger] rm.take(i - pos)[j]);
        }
    }
    let mut acc: usize = 0;
    let mut j: usize = pos;
    while j < i
        invariant
            n == s@.len(),
            pos <= j <= i <= n,
            i < n,
            rm == s@.skip(pos as int),
            dp == digit_prefix(rm),
            dp == rm.take(i - pos),
            all_digits(dp),
            forall|x: int| pos <= x < i ==> crate::num::is_digit_char(#[trigger] s@[x]),
            acc as int == val_of(dp.take(j - pos)),
        decreases i - j,
    {
        let c2 = s.get_char(j);
        let d32 = crate::num::digit_val_exec(c2);
        let d = d32 as usize;
        proof {
            assert(dp[(j - pos) as int] == rm[(j - pos) as int]);
            assert(rm[(j - pos) as int] == s@[j as int]);
            lemma_val_of_take_step(dp, j - pos);
        }
        let m = match acc.checked_mul(10) {
            Some(m) => m,
            None => {
                proof {
                    lemma_val_of_nonneg(dp);
                    assert(val_of(dp.take((j - pos) as int + 1)) > usize::MAX as int);
                    lemma_val_of_prefix(dp, (j - pos) as int + 1);
                }
                return None;
            },
        };
        let a2 = match m.checked_add(d) {
            Some(a) => a,
            None => {
                proof {
                    assert(val_of(dp.take((j - pos) as int + 1)) > usize::MAX as int);
                    lemma_val_of_prefix(dp, (j - pos) as int + 1);
                }
                return None;
            },
        };
        acc = a2;
        j = j + 1;
    }
    proof {
        assert(dp.take((i - pos) as int) =~= dp);
        assert(parse_nat_spec(rm) == Option::Some((acc as int, rm.skip(dp.len() as int + 1))));
        assert(rm.skip((i - pos) as int + 1) =~= s@.skip(i as int + 1));
    }
    Some((acc, i + 1))
}

fn dec_str(s: &str, n: usize, pos: usize) -> (r: Option<(String, usize)>)
    requires
        n == s@.len(),
        pos <= n,
    ensures
        match r {
            Some(v) => v.1 <= n && parse_str_spec(s@.skip(pos as int)) == Option::Some(
                (v.0@, s@.skip(v.1 as int)),
            ),
            None => parse_str_spec(s@.skip(pos as int)) is None,
        },
{
    match dec_nat(s, n, pos) {
        None => None,
        Some((l, p)) => {
            proof {
                assert(s@.skip(p as int).len() == n - p);
            }
            if l > n - p {
                None
            } else {
                let sub = s.substring_char(p, p + l);
                let t = String::from_str(sub);
                proof {
                    assert(s@.skip(p as int).take(l as int) =~= s@.subrange(
                        p as int,
                        (p + l) as int,
                    ));
                    assert(s@.skip(p as int).skip(l as int) =~= s@.skip((p + l) as int));
                }
                Some((t, p + l))
            }
        },
    }
}

fn dec_bool(s: &str, n: usize, pos: usize) -> (r: Option<(bool, usize)>)
    requires
        n == s@.len(),
        pos <= n,
    ensures
        match r {
            Some(v) => v.1 <= n && parse_bool_spec(s@.skip(pos as int)) == Option::Some(
                (v.0, s@.skip(v.1 as int)),
            ),
            None => parse_bool_spec(s@.skip(pos as int)) is None,
        },
{
    match dec_nat(s, n, pos) {
        None => None,
        Some((v, p)) => {
            if v <= 1 {
                Some((v == 1, p))
            } else {
                None
            }
        },
    }
}

fn dec_opt_str(s: &str, n: usize, pos: usize) -> (r: Option<(Option<String>, usize)>)
    requires
        n == s@.len(),
        pos <= n,
    ensures
        match r {
            Some(v) => v.1 <= n && parse_opt_str_spec(s@.skip(pos as int)) == Option::Some(
                (crate::task::opt_string_view(v.0), s@.skip(v.1 as int)),
            ),
            None => parse_opt_str_spec(s@.skip(pos as int)) is None,
        },
{
    match dec_nat(s, n, pos) {
        None => None,
        Some((v, p)) => {
            if v == 0 {
                Some((Option::None, p))
            } else if v == 1 {
                match dec_str(s, n, p) {
                    None => None,
                    Some((t, p2)) => Some((Option::Some(t), p2)),
                }
            } else {
                None
            }
        },
    }
}

fn dec_str_list(s: &str, n: usize, pos: usize) -> (r: Option<(Vec<String>, usize)>)
    requires
        n == s@.len(),
        pos <= n,
    ensures
        match r {
            Some(v) => v.1 <= n && parse_str_list_spec(s@.skip(pos as int)) == Option::Some(
                (crate::task::string_seq_view(v.0@), s@.skip(v.1 as int)),
            ),
            None => parse_str_list_spec(s@.skip(pos as int)) is None,
        },
{
    match dec_nat(s, n, pos) {
        None => None,
        Some((cnt, p0)) => {
            let mut out: Vec<String> = Vec::new();
            let mut p = p0;
            let mut l: usize = 0;
            while l < cnt
                invariant
                    n == s@.len(),
                    pos <= n,
                    p <= n,
                    l <= cnt,
                    parse_nat_spec(s@.skip(pos as int)) == Option::Some(
                        (cnt as int, s@.skip(p0 as int)),
                    ),
                    match parse_str_items_spec(s@.skip(p as int), (cnt - l) as nat) {
                        Option::Some(t) => parse_str_items_spec(s@.skip(p0 as int), cnt as nat)
                            == Option::Some(
                            (crate::task::string_seq_view(out@) + t.0, t.1),
                        ),
                        Option::None => parse_str_items_spec(s@.skip(p0 as int), cnt as nat)
                            is None,
                    },
                decreases cnt - l,
            {
                let ghost m = (cnt - l) as nat;
                match dec_str(s, n, p) {
                    None => {
                        proof {
                            assert(parse_str_items_spec(s@.skip(p as int), m) is None);
                        }
                        return None;
                    },
                    Some((t, p2)) => {
                        let ghost sv0 = crate::task::string_seq_view(out@);
                        proof {
                            match parse_str_items_spec(s@.skip(p2 as int), (m - 1) as nat) {
                                Option::Some((ts, r2)) => {
                                    assert(parse_str_items_spec(s@.skip(p as int), m)
                                        == Option::Some((seq![t@] + ts, r2)));
                                    assert(sv0 + (seq![t@] + ts) =~= sv0.push(t@) + ts);
                                },
                                Option::None => {
                                    assert(parse_str_items_spec(s@.skip(p as int), m) is None);
                                },
                            }
                        }
                        out.push(t);
                        p = p2;
                        proof {
                            assert(crate::task::string_seq_view(out@) =~= sv0.push(out@.last()@));
                        }
                    },
                }
                l = l + 1;
            }
            proof {
                assert(parse_str_items_spec(s@.skip(p as int), 0) == Option::Some(
                    (Seq::<Seq<char>>::empty(), s@.skip(p as int)),
                ));
                assert(crate::task::string_seq_view(out@) + Seq::<Seq<char>>::empty()
                    =~= crate::task::string_seq_view(out@));
            }
            Some((out, p))
        },
    }
}

fn dec_opt_str_list(s: &str, n: usize, pos: usize) -> (r: Option<(Option<Vec<String>>, usize)>)
    requires
        n == s@.len(),
        pos <= n,
    ensures
        match r {
            Some(v) => v.1 <= n && parse_opt_str_list_spec(s@.skip(pos as int)) == Option::Some(
                (crate::task::opt_tags_view(v.0), s@.skip(v.1 as int)),
            ),
            None => parse_opt_str_list_spec(s@.skip(pos as int)) is None,
        },
{
    match dec_nat(s, n, pos) {
        None => None,
        Some((v, p)) => {
            if v == 0 {
                Some((Option::None, p))
            } else if v == 1 {
                match dec_str_list(s, n, p) {
                    None => None,
                    Some((ts, p2)) => Some((Option::Some(ts), p2)),
                }
            } else {
                None
            }
        },
    }
}

fn dec_nat_list(s: &str, n: usize, pos: usize) -> (r: Option<(Vec<usize>, usize)>)
    requires
        n == s@.len(),
        pos <= n,
    ensures
        match r {
            Some(v) => v.1 <= n && parse_nat_list_spec(s@.skip(pos as int)) == Option::Some(
                (v.0@.map_values(|x: usize| x as int), s@.skip(v.1 as int)),
            ),
            None => parse_nat_list_spec(s@.skip(pos as int)) is None,
        },
{
    match dec_nat(s, n, pos) {
        None => None,
        Some((cnt, p0)) => {
            let mut out: Vec<usize> = Vec::new();
            let mut p = p0;
            let mut l: usize = 0;
            while l < cnt
                invariant
                    n == s@.len(),
                    pos <= n,
                    p <= n,
                    l <= cnt,
                    parse_nat_spec(s@.skip(pos as int)) == Option::Some(
                        (cnt as int, s@.skip(p0 as int)),
                    ),
                    match parse_nat_items_spec(s@.skip(p as int), (cnt - l) as nat) {
                        Option::Some(t) => parse_nat_items_spec(s@.skip(p0 as int), cnt as nat)
                            == Option::Some(
                            (out@.map_values(|x: usize| x as int) + t.0, t.1),
                        ),
                        Option::None => parse_nat_items_spec(s@.skip(p0 as int), cnt as nat)
                            is None,
                    },
                decreases cnt - l,
            {
                let ghost m = (cnt - l) as nat;
                match dec_nat(s, n, p) {
                    None => {
                        proof {
                            assert(parse_nat_items_spec(s@.skip(p as int), m) is None);
                        }
                        return None;
                    },
                    Some((v, p2)) => {
                        let ghost sv0 = out@.map_values(|x: usize| x as int);
                        proof {
                            match parse_nat_items_spec(s@.skip(p2 as int), (m - 1) as nat) {
                                Option::Some((vs, r2)) => {
                                    assert(parse_nat_items_spec(s@.skip(p as int), m)
                                        == Option::Some((seq![v as int] + vs, r2)));
                                    assert(sv0 + (seq![v as int] + vs) =~= sv0.push(v as int) + vs);
                                },
                                Option::None => {
                                    assert(parse_nat_items_spec(s@.skip(p as int), m) is None);
                                },
                            }
                        }
                        out.push(v);
                        p = p2;
                        proof {
                            assert(out@.map_values(|x: usize| x as int) =~= sv0.push(
                                out@.last() as int,
                            ));
                        }
                    },
                }
                l = l + 1;
            }
            proof {
                assert(parse_nat_items_spec(s@.skip(p as int), 0) == Option::Some(
                    (Seq::<int>::empty(), s@.skip(p as int)),
                ));
                assert(out@.map_values(|x: usize| x as int) + Seq::<int>::empty()
                    =~= out@.map_values(|x: usize| x as int));
            }
            Some((out, p))
        },
    }
}

fn dec_task(s: &str, n: usize, pos: usize) -> (r: Option<(Task, usize)>)
    requires
        n == s@.len(),
        pos <= n,
    ensures
        match r {
            Some(v) => v.1 <= n && parse_task_spec(s@.skip(pos as int)) == Option::Some(
                (v.0@, s@.skip(v.1 as int)),
            ),
            None => parse_task_spec(s@.skip(pos as int)) is None,
        },
{
    let (id, p1) = match dec_nat(s, n, pos) {
        None => {
            return None;
        },
        Some(v) => v,
    };
    let (name, p2) = match dec_str(s, n, p1) {
        None => {
            return None;
        },
        Some(v) => v,
    };
    let (priority, p3) = match dec_bool(s, n, p2) {
        None => {
            return None;
        },
        Some(v) => v,
    };
    let (due_date, p4) = match dec_opt_str(s, n, p3) {
        None => {
            return None;
        },
        Some(v) => v,
    };
    let (tags, p5) = match dec_opt_str_list(s, n, p4) {
        None => {
            return None;
        },
        Some(v) => v,
    };
    let (done, p6) = match dec_bool(s, n, p5) {
        None => {
            return None;
        },
        Some(v) => v,
    };
    let (created_at, p7) = match dec_str(s, n, p6) {
        None => {
            return None;
        },
        Some(v) => v,
    };
    let (updated_at, p8) = match dec_opt_str(s, n, p7) {
        None => {
            return None;
        },
        Some(v) => v,
    };
    let t = Task { id, name, priority, due_date, tags, done, created_at, updated_at };
    Some((t, p8))
}

fn dec_task_list(s: &str, n: usize, pos: usize) -> (r: Option<(Vec<Task>, usize)>)
    requires
        n == s@.len(),
        pos <= n,
    ensures
        match r {
            Some(v) => v.1 <= n && (match parse_nat_spec(s@.skip(pos as int)) {
                Option::Some((cnt, r1)) => parse_task_items_spec(r1, cnt as nat) == Option::Some(
                    (crate::store::tasks_view(v.0@), s@.skip(v.1 as int)),
                ),
                Option::None => false,
            }),
            None => match parse_nat_spec(s@.skip(pos as int)) {
                Option::Some((cnt, r1)) => parse_task_items_spec(r1, cnt as nat) is None,
                Option::None => true,
            },
        },
{
    match dec_nat(s, n, pos) {
        None => None,
        Some((cnt, p0)) => {
            let mut out: Vec<Task> = Vec::new();
            let mut p = p0;
            let mut l: usize = 0;
            while l < cnt
                invariant
                    n == s@.len(),
                    pos <= n,
                    p <= n,
                    l <= cnt,
                    parse_nat_spec(s@.skip(pos as int)) == Option::Some(
                        (cnt as int, s@.skip(p0 as int)),
                    ),
                    match parse_task_items_spec(s@.skip(p as int), (cnt - l) as nat) {
                        Option::Some(t) => parse_task_items_spec(s@.skip(p0 as int), cnt as nat)
                            == Option::Some(
                            (crate::store::tasks_view(out@) + t.0, t.1),
                        ),
                        Option::None => parse_task_items_spec(s@.skip(p0 as int), cnt as nat)
                            is None,
                    },
                decreases cnt - l,
            {
                let ghost m = (cnt - l) as nat;
                match dec_task(s, n, p) {
                    None => {
                        proof {
                            assert(parse_task_items_spec(s@.skip(p as int), m) is None);
                        }
                        return None;
                    },
                    Some((t, p2)) => {
                        let ghost sv0 = crate::store::tasks_view(out@);
                        let ghost tv = t@;
                        proof {
                            match parse_task_items_spec(s@.skip(p2 as int), (m - 1) as nat) {
                                Option::Some((ts, r2)) => {
                                    assert(parse_task_items_spec(s@.skip(p as int), m)
                                        == Option::Some((seq![tv] + ts, r2)));
                                    assert(sv0 + (seq![tv] + ts) =~= sv0.push(tv) + ts);
                                },
                                Option::None => {
                                    assert(parse_task_items_spec(s@.skip(p as int), m) is None);
                                },
                            }
                        }
                        out.push(t);
                        p = p2;
                        proof {
                            assert(crate::store::tasks_view(out@) =~= sv0.push(tv));
                        }
                    },
                }
                l = l + 1;
            }
            proof {
                assert(parse_task_items_spec(s@.skip(p as int), 0) == Option::Some(
                    (Seq::<TaskView>::empty(), s@.skip(p as int)),
                ));
                assert(crate::store::tasks_view(out@) + Seq::<TaskView>::empty()
                    =~= crate::store::tasks_view(out@));
            }
            Some((out, p))
        },
    }
}

fn dec_entry(s: &str, n: usize, pos: usize) -> (r: Option<(crate::store::TagEntry, usize)>)
    requires
        n == s@.len(),
        pos <= n,
    ensures
        match r {
            Some(v) => v.1 <= n && parse_entry_spec(s@.skip(pos as int)) == Option::Some(
                (v.0@, s@.skip(v.1 as int)),
            ),
            None => parse_entry_spec(s@.skip(pos as int)) is None,
        },
{
    let (tag, p1) = match dec_str(s, n, pos) {
        None => {
            return None;
        },
        Some(v) => v,
    };
    let (ids, p2) = match dec_nat_list(s, n, p1) {
        None => {
            return None;
        },
        Some(v) => v,
    };
    Some((crate::store::TagEntry { tag, ids }, p2))
}

fn dec_entry_list(s: &str, n: usize, pos: usize) -> (r: Option<
    (Vec<crate::store::TagEntry>, usize),
>)
    requires
        n == s@.len(),
        pos <= n,
    ensures
        match r {
            Some(v) => v.1 <= n && (match parse_nat_spec(s@.skip(pos as int)) {
                Option::Some((cnt, r1)) => parse_entry_items_spec(r1, cnt as nat) == Option::Some(
                    (crate::store::entries_view(v.0@), s@.skip(v.1 as int)),
                ),
                Option::None => false,
            }),
            None => match parse_nat_spec(s@.skip(pos as int)) {
                Option::Some((cnt, r1)) => parse_entry_items_spec(r1, cnt as nat) is None,
                Option::None => true,
            },
        },
{
    match dec_nat(s, n, pos) {
        None => None,
        Some((cnt, p0)) => {
            let mut out: Vec<crate::store::TagEntry> = Vec::new();
            let mut p = p0;
            let mut l: usize = 0;
            while l < cnt
                invariant
                    n == s@.len(),
                    pos <= n,
                    p <= n,
                    l <= cnt,
                    parse_nat_spec(s@.skip(pos as int)) == Option::Some(
                        (cnt as int, s@.skip(p0 as int)),
                    ),
                    match parse_entry_items_spec(s@.skip(p as int), (cnt - l) as nat) {
                        Option::Some(t) => parse_entry_items_spec(s@.skip(p0 as int), cnt as nat)
                            == Option::Some(
                            (crate::store::entries_view(out@) + t.0, t.1),
                        ),
                        Option::None => parse_entry_items_spec(s@.skip(p0 as int), cnt as nat)
                            is None,
                    },
                decreases cnt - l,
            {
                let ghost m = (cnt - l) as nat;
                match dec_entry(s, n, p) {
                    None => {
                        proof {
                            assert(parse_entry_items_spec(s@.skip(p as int), m) is None);
                        }
                        return None;
                    },
                    Some((e, p2)) => {
                        let ghost sv0 = crate::store::entries_view(out@);
                        let ghost ev = e@;
                        proof {
                            match parse_entry_items_spec(s@.skip(p2 as int), (m - 1) as nat) {
                                Option::Some((es, r2)) => {
                                    assert(parse_entry_items_spec(s@.skip(p as int), m)
                                        == Option::Some((seq![ev] + es, r2)));
                                    assert(sv0 + (seq![ev] + es) =~= sv0.push(ev) + es);
                                },
                                Option::None => {
                                    assert(parse_entry_items_spec(s@.skip(p as int), m) is None);
                                },
                            }
                        }
                        out.push(e);
                        p = p2;
                        proof {
                            assert(crate::store::entries_view(out@) =~= sv0.push(ev));
                        }
                    },
                }
                l = l + 1;
            }
            proof {
                assert(parse_entry_items_spec(s@.skip(p as int), 0) == Option::Some(
                    (Seq::<TagEntryView>::empty(), s@.skip(p as int)),
                ));
                assert(crate::store::entries_view(out@) + Seq::<TagEntryView>::empty()
                    =~= crate::store::entries_view(out@));
            }
            Some((out, p))
        },
    }
}

/// Reads a full record back. Exactly the texts `parse_store_spec` accepts
/// come back as a store; anything else — including trailing text — is
/// rejected.
pub fn decode_store(s: &str) -> (r: Option<crate::store::AppData>)
    ensures
        match r {
            Some(d) => parse_store_spec(s@) == Option::Some(d@),
            None => parse_store_spec(s@) is None,
        },
{
    let n = s.unicode_len();
    proof {
        assert(s@.skip(0) =~= s@);
    }
    let (next_id, p1) = match dec_nat(s, n, 0) {
        None => {
            return None;
        },
        Some(v) => v,
    };
    let (date_format, p2) = match dec_str(s, n, p1) {
        None => {
            return None;
        },
        Some(v) => v,
    };
    let (tasks, p3) = match dec_task_list(s, n, p2) {
        None => {
            return None;
        },
        Some(v) => v,
    };
    let (tags, p4) = match dec_entry_list(s, n, p3) {
        None => {
            return None;
        },
        Some(v) => v,
    };
    if p4 != n {
        proof {
            assert(s@.skip(p4 as int).len() > 0);
        }
        return None;
    }
    proof {
        assert(s@.skip(p4 as int).len() == 0);
    }
    let d = crate::store::AppData {
        tasks,
        tags,
        next_id,
        config: crate::store::AppConfig { date_format },
    };
    Some(d)
}

/// Round trip: a written store reads back as the identical state — the
/// same tasks, the same tag index, the same counter, the same format.
pub proof fn lemma_store_round_trip(v: AppDataView)
    requires
        store_bounded(v),
    ensures
        parse_store_spec(enc_store(v)) == Option::Some(v),
{
    let r5 = enc_entry_items(v.tags);
    let r4 = enc_nat(v.tags.len()) + r5;
    let r3 = enc_task_items(v.tasks) + r4;
    let r2 = enc_nat(v.tasks.len()) + r3;
    let r1 = enc_str(v.date_format) + r2;
    assert(enc_store(v) =~= enc_nat(v.next_id as nat) + r1);
    lemma_nat_round(v.next_id as nat, r1);
    lemma_str_round(v.date_format, r2);
    lemma_nat_round(v.tasks.len(), r3);
    lemma_task_items_round(v.tasks, r4);
    lemma_nat_round(v.tags.len(), r5);
    lemma_entry_items_round(v.tags, Seq::<char>::empty());
    assert(enc_entry_items(v.tags) + Seq::<char>::empty() =~= r5);
}

} // verus!
