//! The task entity, the flat record it is stored as, and the codec
//! between the two.

use vstd::prelude::*;

use crate::date::{date_le_spec, Date};
use crate::status::{spec_is_complete, Status};
use crate::strutil::{
    comma_free, join_commas, join_commas_seq, lemma_split_join, split_commas, split_commas_seq,
    str_eq,
};

verus! {

/// One task, together with its derived `is_blocked` flag. The `blocked`
/// state is owned by the resolver in `tasklist`; it is never persisted.
#[derive(Debug)]
pub struct Task {
    pub priority: u8,
    pub subject: String,
    pub status: Status,
    pub projects: Vec<String>,
    pub contexts: Vec<String>,
    pub id: Option<String>,
    pub after: Vec<String>,
    pub due: Option<Date>,
    pub is_blocked: bool,
}

/// Mathematical model of a task: text as character sequences, label lists
/// as sequences of those.
#[verifier::ext_equal]
pub ghost struct TaskView {
    pub priority: u8,
    pub subject: Seq<char>,
    pub status: Status,
    pub projects: Seq<Seq<char>>,
    pub contexts: Seq<Seq<char>>,
    pub id: Option<Seq<char>>,
    pub after: Seq<Seq<char>>,
    pub due: Option<Date>,
    pub blocked: bool,
}

impl View for Task {
    type V = TaskView;

    open spec fn view(&self) -> TaskView {
        TaskView {
            priority: self.priority,
            subject: self.subject@,
            status: self.status,
            projects: self.projects.deep_view(),
            contexts: self.contexts.deep_view(),
            id: self.id.deep_view(),
            after: self.after.deep_view(),
            due: self.due,
            blocked: self.is_blocked,
        }
    }
}

impl DeepView for Task {
    type V = TaskView;

    open spec fn deep_view(&self) -> TaskView {
        self.view()
    }
}

/// One parsed store record, with only the fields the core reads. The two
/// reserved tags `id` and `after` appear as optional fields; everything
/// else of the store's text dialect stays with the parsing collaborator.
#[derive(Debug)]
pub struct Record {
    pub finished: bool,
    pub priority: u8,
    pub subject: String,
    pub projects: Vec<String>,
    pub contexts: Vec<String>,
    pub id_tag: Option<String>,
    pub after_tag: Option<String>,
    pub due: Option<Date>,
}

/// Mathematical model of a record.
#[verifier::ext_equal]
pub ghost struct RecordView {
    pub finished: bool,
    pub priority: u8,
    pub subject: Seq<char>,
    pub projects: Seq<Seq<char>>,
    pub contexts: Seq<Seq<char>>,
    pub id_tag: Option<Seq<char>>,
    pub after_tag: Option<Seq<char>>,
    pub due: Option<Date>,
}

impl View for Record {
    type V = RecordView;

    open spec fn view(&self) -> RecordView {
        RecordView {
            finished: self.finished,
            priority: self.priority,
            subject: self.subject@,
            projects: self.projects.deep_view(),
            contexts: self.contexts.deep_view(),
            id_tag: self.id_tag.deep_view(),
            after_tag: self.after_tag.deep_view(),
            due: self.due,
        }
    }
}

impl DeepView for Record {
    type V = RecordView;

    open spec fn deep_view(&self) -> RecordView {
        self.view()
    }
}

/// How a task is written out: completion becomes the finished marker, the
/// identifier becomes the `id` tag when present, and a non-empty
/// prerequisite list becomes the comma-joined `after` tag. The blocked
/// flag is not part of the encoded form.
pub open spec fn encode_spec(t: TaskView) -> RecordView {
    RecordView {
        finished: spec_is_complete(t.status),
        priority: t.priority,
        subject: t.subject,
        projects: t.projects,
        contexts: t.contexts,
        id_tag: t.id,
        after_tag: if t.after.len() > 0 {
            Some(join_commas_seq(t.after))
        } else {
            None
        },
        due: t.due,
    }
}

/// How a record is read back: an absent `after` tag yields an empty
/// prerequisite list, a present one is split on commas; the blocked flag
/// always starts out false.
pub open spec fn decode_spec(r: RecordView) -> TaskView {
    TaskView {
        priority: r.priority,
        subject: r.subject,
        status: if r.finished {
            Status::Complete
        } else {
            Status::Todo
        },
        projects: r.projects,
        contexts: r.contexts,
        id: r.id_tag,
        after: match r.after_tag {
            Some(s) => split_commas_seq(s),
            None => Seq::empty(),
        },
        due: r.due,
        blocked: false,
    }
}

/// Whether the task is due on the given day: true exactly when a due date
/// is set and that date is on or before `today`.
pub open spec fn is_due_spec(t: TaskView, today: Date) -> bool {
    match t.due {
        Some(d) => date_le_spec(d, today),
        None => false,
    }
}

/// The prerequisite list as presented text: comma-joined when non-empty,
/// the sentinel `-` when empty.
pub open spec fn after_csv_spec(after: Seq<Seq<char>>) -> Seq<char> {
    if after.len() > 0 {
        join_commas_seq(after)
    } else {
        "-"@
    }
}

impl Task {
    /// True exactly when the task's status is complete.
    pub fn is_complete(&self) -> (r: bool)
        ensures
            r == spec_is_complete(self@.status),
    {
        match self.status {
            Status::Complete => true,
            _ => false,
        }
    }

    /// True exactly when the task carries the given identifier.
    pub fn is_id(&self, id: String) -> (r: bool)
        ensures
            r == (self@.id == Some(id@)),
    {
        match &self.id {
            Some(x) => str_eq(x.as_str(), id.as_str()),
            None => false,
        }
    }

    /// The task's identifier, or empty text when it has none.
    pub fn get_id(&self) -> (r: String)
        ensures
            r@ == (match self@.id {
                Some(s) => s,
                None => Seq::<char>::empty(),
            }),
    {
        match &self.id {
            Some(x) => x.clone(),
            None => String::new(),
        }
    }

    /// True exactly when the task has a due date on or before `today`.
    pub fn is_task_due(&self, today: &Date) -> (r: bool)
        ensures
            r == is_due_spec(self@, *today),
    {
        match &self.due {
            Some(d) => d.le(today),
            None => false,
        }
    }

    /// The prerequisite ids joined with commas, or `-` when there are none.
    pub fn get_after_as_csv(&self) -> (r: String)
        ensures
            r@ == after_csv_spec(self@.after),
    {
        if self.after.len() > 0 {
            join_commas(&self.after)
        } else {
            String::from_str("-")
        }
    }

    /// Encodes the task as a store record, as `encode_spec` describes.
    pub fn to_todo(&self) -> (r: Record)
        ensures
            r@ == encode_spec(self@),
    {
        let after_tag: Option<String> = if self.after.len() > 0 {
            Some(join_commas(&self.after))
        } else {
            None
        };
        let id_tag: Option<String> = match &self.id {
            Some(x) => Some(x.clone()),
            None => None,
        };
        let projects = self.projects.clone();
        let contexts = self.contexts.clone();
        proof {
            assert(forall|i: int|
                0 <= i < self.projects.len() ==> projects[i] == self.projects[i]);
            assert(projects.deep_view() =~~= self.projects.deep_view());
            assert(forall|i: int|
                0 <= i < self.contexts.len() ==> contexts[i] == self.contexts[i]);
            assert(contexts.deep_view() =~~= self.contexts.deep_view());
        }
        let r = Record {
            finished: self.is_complete(),
            priority: self.priority,
            subject: self.subject.clone(),
            projects,
            contexts,
            id_tag,
            after_tag,
            due: self.due,
        };
        proof {
            assert(r@ =~~= encode_spec(self@));
        }
        r
    }

    /// Decodes a store record into a task, as `decode_spec` describes.
    pub fn from_record(rec: Record) -> (t: Task)
        ensures
            t@ == decode_spec(rec@),
    {
        let after: Vec<String> = match &rec.after_tag {
            Some(s) => split_commas(s.as_str()),
            None => Vec::new(),
        };
        let t = Task {
            priority: rec.priority,
            subject: rec.subject,
            status: if rec.finished {
                Status::Complete
            } else {
                Status::Todo
            },
            projects: rec.projects,
            contexts: rec.contexts,
            id: rec.id_tag,
            after,
            due: rec.due,
            is_blocked: false,
        };
        proof {
            assert(t@ =~~= decode_spec(rec@));
        }
        t
    }
}

/// Round-trip law: decoding an encoded task reproduces every field except
/// the blocked flag, which decoding always clears. It holds for every task
/// whose prerequisite ids are free of commas, the separator of the
/// `after` tag.
pub proof fn lemma_round_trip(t: TaskView)
    requires
        forall|i: int| 0 <= i < t.after.len() ==> comma_free(#[trigger] t.after[i]),
    ensures
        decode_spec(encode_spec(t)) == (TaskView { blocked: false, ..t }),
{
    if t.after.len() > 0 {
        lemma_split_join(t.after);
    }
    match t.status {
        Status::Complete => {},
        Status::Todo => {},
    }
    assert(decode_spec(encode_spec(t)) =~~= TaskView { blocked: false, ..t });
}

} // verus!
