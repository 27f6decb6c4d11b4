//! The task record and its mathematical image.

use vstd::prelude::*;

verus! {

/// Completion status of a task: a closed enumeration of exactly two variants.
#[allow(non_camel_case_types)]
#[derive(Clone, Copy, PartialEq, Eq, Structural, Debug)]
pub enum Status {
    ACTIVE,
    DONE,
}

/// One task record.
///
/// `id` is `None` only on an inbound creation payload; every record held in
/// or returned by the store carries `Some(identifier)`.
#[derive(Debug, PartialEq, Eq)]
pub struct Todo {
    pub id: Option<u32>,
    pub text: String,
    pub status: Status,
}

/// Mathematical image of a `Todo`: the description as a sequence of
/// characters, the other fields as they are.
pub struct TodoView {
    pub id: Option<u32>,
    pub text: Seq<char>,
    pub status: Status,
}

impl View for Todo {
    type V = TodoView;

    open spec fn view(&self) -> TodoView {
        TodoView { id: self.id, text: self.text@, status: self.status }
    }
}

/// The image of a record stored under identifier `id`.
pub open spec fn stored(id: u32, text: Seq<char>, status: Status) -> TodoView {
    TodoView { id: Some(id), text, status }
}

/// A copy of a record, equal to the original.
pub fn clone_todo(t: &Todo) -> (r: Todo)
    ensures
        r == *t,
{
    Todo { id: t.id, text: t.text.clone(), status: t.status }
}

} // verus!
