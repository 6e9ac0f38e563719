//! The data model: one logged attempt batch (`TaskRecord`) and the derived
//! per-day activity total (`ActivityPoint`), with spec-level views.

use vstd::prelude::*;

verus! {

/// One logged unit of practice work, persisted as a member of an ordered
/// sequence under a date key. `correct <= solved` is a convention of callers,
/// not enforced here.
#[derive(Debug, PartialEq, Eq)]
pub struct TaskRecord {
    pub id: String,
    pub subject: String,
    pub task_type: String,
    pub solved: u32,
    pub correct: u32,
}

/// Mathematical view of a `TaskRecord`: the three text fields as character
/// sequences, the two counters unchanged.
pub struct TaskRecordView {
    pub id: Seq<char>,
    pub subject: Seq<char>,
    pub task_type: Seq<char>,
    pub solved: u32,
    pub correct: u32,
}

impl View for TaskRecord {
    type V = TaskRecordView;

    open spec fn view(&self) -> TaskRecordView {
        TaskRecordView {
            id: self.id@,
            subject: self.subject@,
            task_type: self.task_type@,
            solved: self.solved,
            correct: self.correct,
        }
    }
}

impl DeepView for TaskRecord {
    type V = TaskRecordView;

    open spec fn deep_view(&self) -> TaskRecordView {
        self.view()
    }
}

impl Clone for TaskRecord {
    fn clone(&self) -> (r: Self)
        ensures
            r@ == self@,
    {
        TaskRecord {
            id: self.id.clone(),
            subject: self.subject.clone(),
            task_type: self.task_type.clone(),
            solved: self.solved,
            correct: self.correct,
        }
    }
}

/// Derived, read-only: the date key together with the sum of `solved` over
/// all records stored under that date. Recomputed on every query, never
/// persisted. The sum of up to `usize::MAX` values of `u32` always fits in
/// `u128`, so the count is exact.
#[derive(Debug, PartialEq, Eq)]
pub struct ActivityPoint {
    pub date: String,
    pub count: u128,
}

/// Mathematical view of an `ActivityPoint`.
pub struct ActivityPointView {
    pub date: Seq<char>,
    pub count: u128,
}

impl View for ActivityPoint {
    type V = ActivityPointView;

    open spec fn view(&self) -> ActivityPointView {
        ActivityPointView { date: self.date@, count: self.count }
    }
}

impl DeepView for ActivityPoint {
    type V = ActivityPointView;

    open spec fn deep_view(&self) -> ActivityPointView {
        self.view()
    }
}

/// The record file held text that is not a well-formed record sequence.
#[derive(Debug, PartialEq, Eq)]
pub struct ParseError;

} // verus!
