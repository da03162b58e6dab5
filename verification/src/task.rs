//! The task entity: one unit of work, with a mathematical view.

use vstd::prelude::*;
use crate::dates::PlainDate;
use crate::dates::canonical_of;
use crate::dates::canonical_ymd;
use crate::dates::chrono_date_of;
use crate::dates::chrono_parse_date;
use crate::dates::date_le;
use crate::dates::format_canonical;
use crate::dates::is_canonical_date;
use crate::dates::lemma_canonical_round;
use crate::dates::local_now_string;
use crate::dates::local_today;
use crate::dates::read_canonical;
use crate::errors::TodoError;

verus! {

pub struct Task {
    pub id: usize,
    pub name: String,
    pub priority: bool,
    pub due_date: Option<String>,
    pub tags: Option<Vec<String>>,
    pub done: bool,
    pub created_at: String,
    pub updated_at: Option<String>,
}

/// The mathematical shape of a task.
pub ghost struct TaskView {
    pub id: int,
    pub name: Seq<char>,
    pub priority: bool,
    pub due_date: Option<Seq<char>>,
    pub tags: Option<Seq<Seq<char>>>,
    pub done: bool,
    pub created_at: Seq<char>,
    pub updated_at: Option<Seq<char>>,
}

pub open spec fn opt_string_view(o: Option<String>) -> Option<Seq<char>> {
    match o {
        Option::Some(s) => Option::Some(s@),
        Option::None => Option::None,
    }
}

pub open spec fn string_seq_view(v: Seq<String>) -> Seq<Seq<char>> {
    v.map_values(|s: String| s@)
}

pub open spec fn opt_tags_view(o: Option<Vec<String>>) -> Option<Seq<Seq<char>>> {
    match o {
        Option::Some(v) => Option::Some(string_seq_view(v@)),
        Option::None => Option::None,
    }
}

impl View for Task {
    type V = TaskView;

    open spec fn view(&self) -> TaskView {
        TaskView {
            id: self.id as int,
            name: self.name@,
            priority: self.priority,
            due_date: opt_string_view(self.due_date),
            tags: opt_tags_view(self.tags),
            done: self.done,
            created_at: self.created_at@,
            updated_at: opt_string_view(self.updated_at),
        }
    }
}

/// The entity's invariant: a positive id, a non-empty name, a canonical due
/// date if one is set, and non-empty tags if any.
pub open spec fn task_wf(t: TaskView) -> bool {
    &&& 1 <= t.id
    &&& 1 <= t.name.len()
    &&& (t.due_date matches Some(s) ==> is_canonical_date(s))
    &&& (t.tags matches Some(ts) ==> 1 <= ts.len() && forall|l: int|
        0 <= l < ts.len() ==> 1 <= #[trigger] ts[l].len())
}

/// Validating and normalizing a due date under a format: `None` when the
/// text is rejected, otherwise the canonical form (or no date at all).
pub open spec fn normalize_due(due: Option<Seq<char>>, fmt: Seq<char>) -> Option<
    Option<Seq<char>>,
> {
    match due {
        Option::None => Option::Some(Option::None),
        Option::Some(s) => match chrono_date_of(s, fmt) {
            Option::Some(ymd) => if 0 <= ymd.0 <= 9999 {
                Option::Some(Option::Some(canonical_of(ymd.0, ymd.1, ymd.2)))
            } else {
                Option::None
            },
            Option::None => Option::None,
        },
    }
}

/// Parses `due` under `fmt` and renders it canonically; the exact failure
/// condition is `normalize_due` returning `None`.
fn normalize_due_exec(due: &Option<String>, fmt: &str) -> (r: Result<Option<String>, TodoError>)
    ensures
        match normalize_due(opt_string_view(*due), fmt@) {
            Some(nd) => r matches Ok(o) && opt_string_view(o) == nd && (o matches Some(c)
                ==> is_canonical_date(c@)),
            None => r matches Err(e) && (e matches TodoError::InvalidDueDate(f) && f@ == fmt@),
        },
{
    match due {
        Option::None => Ok(Option::None),
        Option::Some(s) => {
            match chrono_parse_date(s.as_str(), fmt) {
                Option::Some((y, m, d)) => {
                    if 0 <= y && y <= 9999 {
                        let pd = PlainDate { year: y, month: m as u8, day: d as u8 };
                        let c = format_canonical(&pd);
                        proof {
                            lemma_canonical_round(y as int, m as int, d as int);
                        }
                        Ok(Option::Some(c))
                    } else {
                        Err(TodoError::InvalidDueDate(String::from_str(fmt)))
                    }
                },
                Option::None => Err(TodoError::InvalidDueDate(String::from_str(fmt))),
            }
        },
    }
}

/// The task's due date compared against a given date: set, and on or
/// before it.
pub open spec fn spec_due_on_or_before(t: TaskView, g: (int, int, int)) -> bool {
    t.due_date matches Some(s) && date_le(canonical_ymd(s), g)
}

impl Task {
    /// Builds a task: validates the due date under `date_format`, stores it
    /// canonically, stamps the creation time from the clock, and starts
    /// pending. Everything but the clock reading is pinned down.
    pub fn new(
        id: usize,
        name: String,
        priority: bool,
        due_date: Option<String>,
        tags: Option<Vec<String>>,
        date_format: &str,
    ) -> (r: Result<Task, TodoError>)
        requires
            1 <= id,
            1 <= name@.len(),
            tags matches Some(ts) ==> 1 <= ts@.len() && forall|l: int|
                0 <= l < ts@.len() ==> 1 <= #[trigger] ts@[l]@.len(),
        ensures
            match normalize_due(opt_string_view(due_date), date_format@) {
                Some(nd) => r matches Ok(t) && task_wf(t@) && t@ == (TaskView {
                    id: id as int,
                    name: name@,
                    priority: priority,
                    due_date: nd,
                    tags: opt_tags_view(tags),
                    done: false,
                    created_at: t@.created_at,
                    updated_at: None,
                }),
                None => r matches Err(e) && (e matches TodoError::InvalidDueDate(f) && f@
                    == date_format@),
            },
    {
        let due = match normalize_due_exec(&due_date, date_format) {
            Ok(o) => o,
            Err(e) => {
                return Err(e);
            },
        };
        let task = Task {
            id,
            name,
            priority,
            due_date: due,
            tags,
            done: false,
            created_at: local_now_string(),
            updated_at: Option::None,
        };
        Ok(task)
    }

    /// Edits only the supplied fields; a supplied due date is validated and
    /// normalized exactly as at creation, and nothing changes on a rejected
    /// one. Always stamps `updated_at` from the clock on success.
    pub fn edit(
        &mut self,
        name: Option<String>,
        priority: Option<bool>,
        due_date: Option<String>,
        tags: Option<Vec<String>>,
        done: Option<bool>,
        date_format: &str,
    ) -> (r: Result<(), TodoError>)
        requires
            name matches Some(n) ==> 1 <= n@.len(),
            tags matches Some(ts) ==> 1 <= ts@.len() && forall|l: int|
                0 <= l < ts@.len() ==> 1 <= #[trigger] ts@[l]@.len(),
        ensures
            match due_date {
                Some(s) => match normalize_due(Some(s@), date_format@) {
                    Some(nd) => r is Ok && final(self)@ == (TaskView {
                        due_date: nd,
                        ..edited_view(old(self)@, opt_string_view(name), priority, opt_tags_view(
                            tags,
                        ), done, final(self)@.updated_at)
                    }),
                    None => r matches Err(e) && (e matches TodoError::InvalidDueDate(f) && f@
                        == date_format@) && *final(self) == *old(self),
                },
                None => r is Ok && final(self)@ == edited_view(
                    old(self)@,
                    opt_string_view(name),
                    priority,
                    opt_tags_view(tags),
                    done,
                    final(self)@.updated_at,
                ),
            },
            r is Ok ==> final(self)@.updated_at is Some,
            task_wf(old(self)@) && r is Ok ==> task_wf(final(self)@),
    {
        let due = match normalize_due_exec(&due_date, date_format) {
            Ok(o) => o,
            Err(e) => {
                return Err(e);
            },
        };
        if let Option::Some(n) = name {
            self.name = n;
        }
        if let Option::Some(p) = priority {
            self.priority = p;
        }
        if let Option::Some(d) = due {
            self.due_date = Option::Some(d);
        }
        if let Option::Some(ts) = tags {
            self.tags = Option::Some(ts);
        }
        if let Option::Some(dn) = done {
            self.done = dn;
        }
        self.updated_at = Option::Some(local_now_string());
        Ok(())
    }

    /// A copy of the task, equal in every field.
    pub fn duplicate(&self) -> (r: Task)
        ensures
            r@ == self@,
    {
        let due_date = match &self.due_date {
            Option::Some(s) => Option::Some(s.clone()),
            Option::None => Option::None,
        };
        let tags = match &self.tags {
            Option::Some(v) => {
                let c = v.clone();
                proof {
                    assert forall|l: int| 0 <= l < v@.len() implies (#[trigger] c@[l])@
                        == v@[l]@ by {
                        assert(vstd::pervasive::cloned::<String>(v@[l], c@[l]));
                    }
                    assert(string_seq_view(c@) =~= string_seq_view(v@));
                }
                Option::Some(c)
            },
            Option::None => Option::None,
        };
        let updated_at = match &self.updated_at {
            Option::Some(s) => Option::Some(s.clone()),
            Option::None => Option::None,
        };
        Task {
            id: self.id,
            name: self.name.clone(),
            priority: self.priority,
            due_date,
            tags,
            done: self.done,
            created_at: self.created_at.clone(),
            updated_at,
        }
    }

    /// Whether the task is due today or overdue, measured by the local
    /// clock; a result of true means a due date is set.
    pub fn is_due_today(&self) -> (r: bool)
        requires
            self@.due_date matches Some(s) ==> is_canonical_date(s),
        ensures
            r ==> self@.due_date is Some,
    {
        let (y, m, d) = local_today();
        let today = PlainDate { year: y, month: m as u8, day: d as u8 };
        self.is_due_before_given_date(&today)
    }

    /// The due date as a plain (year, month, day) value, if one is set.
    pub fn get_parsed_due_date(&self) -> (r: Option<PlainDate>)
        requires
            self@.due_date matches Some(s) ==> is_canonical_date(s),
        ensures
            match self@.due_date {
                Some(s) => r matches Some(pd) && (pd.year as int, pd.month as int, pd.day as int)
                    == canonical_ymd(s),
                None => r is None,
            },
    {
        match &self.due_date {
            Option::Some(s) => {
                let (y, m, d) = read_canonical(s.as_str());
                Option::Some(PlainDate { year: y, month: m, day: d })
            },
            Option::None => Option::None,
        }
    }

    /// True iff a due date is set and falls on or before the given date.
    pub fn is_due_before_given_date(&self, given: &PlainDate) -> (r: bool)
        requires
            self@.due_date matches Some(s) ==> is_canonical_date(s),
        ensures
            r == spec_due_on_or_before(self@, (given.year as int, given.month as int, given.day as int)),
    {
        match &self.due_date {
            Option::Some(s) => {
                let (y, m, d) = read_canonical(s.as_str());
                let gy = given.year;
                let gm = given.month as u32;
                let gd = given.day as u32;
                y < gy || (y == gy && ((m as u32) < gm || ((m as u32) == gm && (d as u32) <= gd)))
            },
            Option::None => false,
        }
    }
}

/// The task after an edit of the supplied fields, with the given update
/// stamp; the due date is handled by the caller.
pub open spec fn edited_view(
    t: TaskView,
    name: Option<Seq<char>>,
    priority: Option<bool>,
    tags: Option<Seq<Seq<char>>>,
    done: Option<bool>,
    stamp: Option<Seq<char>>,
) -> TaskView {
    TaskView {
        id: t.id,
        name: match name {
            Some(n) => n,
            None => t.name,
        },
        priority: match priority {
            Some(p) => p,
            None => t.priority,
        },
        due_date: t.due_date,
        tags: match tags {
            Some(ts) => Some(ts),
            None => t.tags,
        },
        done: match done {
            Some(d) => d,
            None => t.done,
        },
        created_at: t.created_at,
        updated_at: stamp,
    }
}

} // verus!
