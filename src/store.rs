//! The task store: tasks, their annotations, and the rules that keep them
//! consistent.
//!
//! Every operation either succeeds completely or leaves the store as it was.
//! Ids are handed out in increasing order and never reused. Deleting a task
//! deletes its annotations with it. Each successful change is also recorded
//! as a list of row changes, which whoever persists the store writes out as
//! one unit.
use vstd::prelude::*;
use crate::stamp::{Instant, NANOS_PER_SEC, stamp_parse};

verus! {

/// Why a store operation was refused.
#[derive(Clone, Copy, Debug, PartialEq, Eq, Structural)]
pub enum StoreError {
    /// A description is empty, or an instant is not well formed.
    Validation,
    /// The task id refers to no task.
    NotFound,
    /// Rows read back from storage do not form a consistent store, or the
    /// task asked for is one whose creation instant could not be read back.
    CorruptData,
    /// No further id can be handed out.
    IdsExhausted,
}

/// A task as kept in storage.
#[derive(Debug)]
pub struct TaskRow {
    pub id: i64,
    pub description: String,
    pub created: Instant,
}

/// An annotation as kept in storage.
#[derive(Debug)]
pub struct AnnotationRow {
    pub id: i64,
    pub task_id: i64,
    pub description: String,
}

/// A task row as read from storage, with its creation instant still in
/// stored textual form.
#[derive(Debug)]
pub struct StoredTask {
    pub id: i64,
    pub description: String,
    pub created: Vec<u8>,
}

/// A task as shown to the user, with the texts of its annotations.
#[derive(Debug)]
pub struct Task {
    pub id: i64,
    pub description: String,
    pub created: Instant,
    pub annotations: Vec<String>,
}

/// One change to the stored rows.
#[derive(Debug)]
pub enum Change {
    InsertTask(TaskRow),
    InsertAnnotation(AnnotationRow),
    /// Removes the task and, by cascade, every annotation of it.
    DeleteTask(i64),
}

pub struct TaskRowView {
    pub id: int,
    pub description: Seq<char>,
    pub created: Instant,
}

pub struct AnnotationRowView {
    pub id: int,
    pub task_id: int,
    pub description: Seq<char>,
}

pub struct TaskView {
    pub id: int,
    pub description: Seq<char>,
    pub created: Instant,
    pub annotations: Seq<Seq<char>>,
}

pub enum ChangeView {
    InsertTask(TaskRowView),
    InsertAnnotation(AnnotationRowView),
    DeleteTask(int),
}

pub struct StoredTaskView {
    pub id: int,
    pub description: Seq<char>,
    pub created: Seq<u8>,
}

/// The abstract state of a store.
pub struct StoreView {
    /// The tasks, in ascending id order.
    pub tasks: Seq<TaskRowView>,
    /// The annotations, in ascending id (and so insertion) order.
    pub annotations: Seq<AnnotationRowView>,
    /// The id the next task will get.
    pub next_task_id: int,
    /// The id the next annotation will get.
    pub next_annotation_id: int,
    /// Row changes made since they were last taken out.
    pub pending: Seq<ChangeView>,
    /// Ids of task rows whose creation instant could not be read back. They
    /// and their annotations are kept out of the store; looking one up
    /// reports corrupt data, and it can still be deleted.
    pub unreadable: Seq<int>,
}

impl View for TaskRow {
    type V = TaskRowView;

    open spec fn view(&self) -> TaskRowView {
        TaskRowView { id: self.id as int, description: self.description@, created: self.created }
    }
}

impl View for StoredTask {
    type V = StoredTaskView;

    open spec fn view(&self) -> StoredTaskView {
        StoredTaskView { id: self.id as int, description: self.description@, created: self.created@ }
    }
}

impl View for AnnotationRow {
    type V = AnnotationRowView;

    open spec fn view(&self) -> AnnotationRowView {
        AnnotationRowView {
            id: self.id as int,
            task_id: self.task_id as int,
            description: self.description@,
        }
    }
}

impl View for Task {
    type V = TaskView;

    open spec fn view(&self) -> TaskView {
        TaskView {
            id: self.id as int,
            description: self.description@,
            created: self.created,
            annotations: self.annotations@.map_values(|s: String| s@),
        }
    }
}

impl View for Change {
    type V = ChangeView;

    open spec fn view(&self) -> ChangeView {
        match self {
            Change::InsertTask(t) => ChangeView::InsertTask(t@),
            Change::InsertAnnotation(a) => ChangeView::InsertAnnotation(a@),
            Change::DeleteTask(id) => ChangeView::DeleteTask(*id as int),
        }
    }
}

pub open spec fn task_rows_view(s: Seq<TaskRow>) -> Seq<TaskRowView> {
    s.map_values(|t: TaskRow| t@)
}

pub open spec fn annotation_rows_view(s: Seq<AnnotationRow>) -> Seq<AnnotationRowView> {
    s.map_values(|a: AnnotationRow| a@)
}

pub open spec fn stored_tasks_view(s: Seq<StoredTask>) -> Seq<StoredTaskView> {
    s.map_values(|t: StoredTask| t@)
}

pub open spec fn tasks_view(s: Seq<Task>) -> Seq<TaskView> {
    s.map_values(|t: Task| t@)
}

pub open spec fn texts_view(s: Seq<String>) -> Seq<Seq<char>> {
    s.map_values(|t: String| t@)
}

pub open spec fn changes_view(s: Seq<Change>) -> Seq<ChangeView> {
    s.map_values(|c: Change| c@)
}

/// Whether `key` strictly ascends along `s`.
pub open spec fn ascends_by<A>(s: Seq<A>, key: spec_fn(A) -> int) -> bool {
    forall|i: int, j: int| 0 <= i < j < s.len() ==> key(s[i]) < key(s[j])
}

/// The id of a task row.
pub open spec fn task_id_key() -> spec_fn(TaskRowView) -> int {
    |t: TaskRowView| t.id
}

/// The id of an annotation row.
pub open spec fn annotation_id_key() -> spec_fn(AnnotationRowView) -> int {
    |a: AnnotationRowView| a.id
}

/// Whether the tasks' ids strictly ascend.
pub open spec fn task_ids_ascend(s: Seq<TaskRowView>) -> bool {
    ascends_by(s, task_id_key())
}

/// Whether the annotations' ids strictly ascend.
pub open spec fn annotation_ids_ascend(s: Seq<AnnotationRowView>) -> bool {
    ascends_by(s, annotation_id_key())
}

/// Whether some task of `v` has id `id`.
pub open spec fn has_task(v: StoreView, id: int) -> bool {
    exists|k: int| 0 <= k < v.tasks.len() && #[trigger] v.tasks[k].id == id
}

/// Whether a text is acceptable as a description.
pub open spec fn valid_text(s: Seq<char>) -> bool {
    s.len() > 0
}

impl StoreView {
    /// The invariants of a store: ids ascend, lie below the next id to hand
    /// out, and are positive; descriptions are non-empty; instants are well
    /// formed; every annotation belongs to a task that exists.
    pub open spec fn wf(self) -> bool {
        &&& 1 <= self.next_task_id <= i64::MAX
        &&& 1 <= self.next_annotation_id <= i64::MAX
        &&& task_ids_ascend(self.tasks)
        &&& annotation_ids_ascend(self.annotations)
        &&& forall|i: int|
            #![trigger self.tasks[i]]
            0 <= i < self.tasks.len() ==> {
                &&& 1 <= self.tasks[i].id < self.next_task_id
                &&& valid_text(self.tasks[i].description)
                &&& self.tasks[i].created.wf()
            }
        &&& forall|i: int|
            #![trigger self.annotations[i]]
            0 <= i < self.annotations.len() ==> {
                &&& 1 <= self.annotations[i].id < self.next_annotation_id
                &&& valid_text(self.annotations[i].description)
                &&& has_task(self, self.annotations[i].task_id)
            }
        &&& forall|i: int|
            #![trigger self.unreadable[i]]
            0 <= i < self.unreadable.len() ==> {
                &&& 1 <= self.unreadable[i] < self.next_task_id
                &&& !has_task(self, self.unreadable[i])
            }
    }

    /// The same state with `pending` replaced.
    pub open spec fn with_pending(self, pending: Seq<ChangeView>) -> StoreView {
        StoreView { pending, ..self }
    }
}

/// The annotations made as `texts` are attached to task `task_id`, the
/// first getting id `first_id`.
pub open spec fn new_annotations(first_id: int, task_id: int, texts: Seq<Seq<char>>) -> Seq<
    AnnotationRowView,
> {
    Seq::new(
        texts.len(),
        |i: int| AnnotationRowView { id: first_id + i, task_id, description: texts[i] },
    )
}

/// What creating a task does: its result and the state after it.
pub open spec fn create_spec(
    v: StoreView,
    description: Seq<char>,
    created: Instant,
    texts: Seq<Seq<char>>,
) -> (Result<i64, StoreError>, StoreView) {
    if !valid_text(description) || !created.wf() || exists|i: int|
        0 <= i < texts.len() && !valid_text(#[trigger] texts[i]) {
        (Err(StoreError::Validation), v)
    } else if v.next_task_id >= i64::MAX || v.next_annotation_id + texts.len() > i64::MAX {
        (Err(StoreError::IdsExhausted), v)
    } else {
        let task = TaskRowView { id: v.next_task_id, description, created };
        let notes = new_annotations(v.next_annotation_id, v.next_task_id, texts);
        (
            Ok(v.next_task_id as i64),
            StoreView {
                tasks: v.tasks.push(task),
                annotations: v.annotations + notes,
                next_task_id: v.next_task_id + 1,
                next_annotation_id: v.next_annotation_id + texts.len(),
                pending: v.pending.push(ChangeView::InsertTask(task)) + notes.map_values(
                    |a: AnnotationRowView| ChangeView::InsertAnnotation(a),
                ),
                unreadable: v.unreadable,
            },
        )
    }
}

/// The error for a task id that names no readable task.
pub open spec fn missing_task_error(v: StoreView, task_id: int) -> StoreError {
    if v.unreadable.contains(task_id) {
        StoreError::CorruptData
    } else {
        StoreError::NotFound
    }
}

/// What annotating a task does: its result and the state after it.
pub open spec fn annotate_spec(v: StoreView, task_id: int, description: Seq<char>) -> (Result<
    i64,
    StoreError,
>, StoreView) {
    if !has_task(v, task_id) {
        (Err(missing_task_error(v, task_id)), v)
    } else if !valid_text(description) {
        (Err(StoreError::Validation), v)
    } else if v.next_annotation_id >= i64::MAX {
        (Err(StoreError::IdsExhausted), v)
    } else {
        let note = AnnotationRowView { id: v.next_annotation_id, task_id, description };
        (
            Ok(v.next_annotation_id as i64),
            StoreView {
                annotations: v.annotations.push(note),
                next_annotation_id: v.next_annotation_id + 1,
                pending: v.pending.push(ChangeView::InsertAnnotation(note)),
                ..v
            },
        )
    }
}

/// Holds of the tasks other than task `task_id`.
pub open spec fn other_task(task_id: int) -> spec_fn(TaskRowView) -> bool {
    |t: TaskRowView| t.id != task_id
}

/// Holds of the annotations of tasks other than task `task_id`.
pub open spec fn other_task_note(task_id: int) -> spec_fn(AnnotationRowView) -> bool {
    |a: AnnotationRowView| a.task_id != task_id
}

/// Holds of the annotations of task `task_id`.
pub open spec fn note_of(task_id: int) -> spec_fn(AnnotationRowView) -> bool {
    |a: AnnotationRowView| a.task_id == task_id
}

/// Holds of the ids other than `id`.
pub open spec fn other_id(id: int) -> spec_fn(int) -> bool {
    |x: int| x != id
}

/// What deleting a task does: its result and the state after it. A task
/// whose row could not be read is deleted all the same; a task that does
/// not exist is reported, not silently ignored.
pub open spec fn delete_spec(v: StoreView, task_id: int) -> (Result<(), StoreError>, StoreView) {
    if !has_task(v, task_id) {
        if v.unreadable.contains(task_id) {
            (
                Ok(()),
                StoreView {
                    unreadable: v.unreadable.filter(other_id(task_id)),
                    pending: v.pending.push(ChangeView::DeleteTask(task_id)),
                    ..v
                },
            )
        } else {
            (Err(StoreError::NotFound), v)
        }
    } else {
        (
            Ok(()),
            StoreView {
                tasks: v.tasks.filter(other_task(task_id)),
                annotations: v.annotations.filter(other_task_note(task_id)),
                pending: v.pending.push(ChangeView::DeleteTask(task_id)),
                ..v
            },
        )
    }
}

/// A task row shown without annotations.
pub open spec fn summary(t: TaskRowView) -> TaskView {
    TaskView { id: t.id, description: t.description, created: t.created, annotations: seq![] }
}

/// All tasks, in the order kept (ascending id), without annotations.
pub open spec fn list_spec(v: StoreView) -> Seq<TaskView> {
    v.tasks.map_values(|t: TaskRowView| summary(t))
}

/// The annotations of task `task_id`, in the order kept (ascending id).
pub open spec fn notes_of(v: StoreView, task_id: int) -> Seq<AnnotationRowView> {
    v.annotations.filter(note_of(task_id))
}

/// The position of the task with id `task_id`.
pub open spec fn task_index(v: StoreView, task_id: int) -> int {
    choose|k: int| 0 <= k < v.tasks.len() && v.tasks[k].id == task_id
}

/// What looking up one task gives: the task with the texts of its
/// annotations in ascending id order.
pub open spec fn get_spec(v: StoreView, task_id: int) -> Result<TaskView, StoreError> {
    if !has_task(v, task_id) {
        Err(missing_task_error(v, task_id))
    } else {
        let t = v.tasks[task_index(v, task_id)];
        Ok(
            TaskView {
                id: t.id,
                description: t.description,
                created: t.created,
                annotations: notes_of(v, task_id).map_values(|a: AnnotationRowView| a.description),
            },
        )
    }
}

/// Holds of the rows whose creation instant is in stored form.
pub open spec fn readable_row() -> spec_fn(StoredTaskView) -> bool {
    |r: StoredTaskView| stamp_parse(r.created) is Some
}

/// Holds of the rows whose creation instant is not in stored form.
pub open spec fn unreadable_row() -> spec_fn(StoredTaskView) -> bool {
    |r: StoredTaskView| stamp_parse(r.created) is None
}

/// Holds of the annotations of tasks outside `ids`.
pub open spec fn not_of_any(ids: Seq<int>) -> spec_fn(AnnotationRowView) -> bool {
    |a: AnnotationRowView| !ids.contains(a.task_id)
}

/// A task row read from storage, with its creation instant read back.
pub open spec fn parsed_row(r: StoredTaskView) -> TaskRowView {
    TaskRowView { id: r.id, description: r.description, created: stamp_parse(r.created)->Some_0 }
}

/// The ids of the rows whose creation instant cannot be read back.
pub open spec fn unreadable_ids(rows: Seq<StoredTaskView>) -> Seq<int> {
    rows.filter(unreadable_row()).map_values(|r: StoredTaskView| r.id)
}

/// The state made of rows read from storage and the last ids handed out:
/// the rows whose creation instant reads back become tasks; the others are
/// set aside by id, together with their annotations.
pub open spec fn loaded_view(
    rows: Seq<StoredTaskView>,
    notes: Seq<AnnotationRowView>,
    last_task_id: int,
    last_annotation_id: int,
) -> StoreView {
    StoreView {
        tasks: rows.filter(readable_row()).map_values(|r: StoredTaskView| parsed_row(r)),
        annotations: notes.filter(not_of_any(unreadable_ids(rows))),
        next_task_id: last_task_id + 1,
        next_annotation_id: last_annotation_id + 1,
        pending: seq![],
        unreadable: unreadable_ids(rows),
    }
}

/// What reading a store back from storage gives: the store, where the rows
/// form a consistent one and further ids can be handed out. A row whose
/// creation instant cannot be read back does not make the others
/// unreadable: it is set aside and reported on its own.
pub open spec fn load_spec(
    rows: Seq<StoredTaskView>,
    notes: Seq<AnnotationRowView>,
    last_task_id: int,
    last_annotation_id: int,
) -> Result<StoreView, StoreError> {
    if last_task_id >= i64::MAX || last_annotation_id >= i64::MAX {
        Err(StoreError::IdsExhausted)
    } else if loaded_view(rows, notes, last_task_id, last_annotation_id).wf() {
        Ok(loaded_view(rows, notes, last_task_id, last_annotation_id))
    } else {
        Err(StoreError::CorruptData)
    }
}

pub open spec fn ids_view(s: Seq<i64>) -> Seq<int> {
    s.map_values(|id: i64| id as int)
}

/// The tasks and annotations of a store, with the next ids to hand out.
#[derive(Debug)]
pub struct Store {
    tasks: Vec<TaskRow>,
    annotations: Vec<AnnotationRow>,
    next_task_id: i64,
    next_annotation_id: i64,
    pending: Vec<Change>,
    unreadable: Vec<i64>,
}

impl View for Store {
    type V = StoreView;

    closed spec fn view(&self) -> StoreView {
        StoreView {
            tasks: task_rows_view(self.tasks@),
            annotations: annotation_rows_view(self.annotations@),
            next_task_id: self.next_task_id as int,
            next_annotation_id: self.next_annotation_id as int,
            pending: changes_view(self.pending@),
            unreadable: ids_view(self.unreadable@),
        }
    }
}

impl TaskRow {
    fn duplicate(&self) -> (r: TaskRow)
        ensures
            r@ == self@,
    {
        TaskRow { id: self.id, description: self.description.clone(), created: self.created }
    }
}

impl AnnotationRow {
    fn duplicate(&self) -> (r: AnnotationRow)
        ensures
            r@ == self@,
    {
        AnnotationRow {
            id: self.id,
            task_id: self.task_id,
            description: self.description.clone(),
        }
    }
}

impl Store {
    pub open spec fn wf(&self) -> bool {
        self@.wf()
    }

    /// An empty store: no tasks, no annotations, ids starting at 1.
    pub fn new() -> (r: Store)
        ensures
            r.wf(),
            r@ == (StoreView {
                tasks: seq![],
                annotations: seq![],
                next_task_id: 1,
                next_annotation_id: 1,
                pending: seq![],
                unreadable: seq![],
            }),
    {
        let r = Store {
            tasks: Vec::new(),
            annotations: Vec::new(),
            next_task_id: 1,
            next_annotation_id: 1,
            pending: Vec::new(),
            unreadable: Vec::new(),
        };
        assert(r@.unreadable =~= seq![]);
        assert(r@.tasks =~= seq![]);
        assert(r@.annotations =~= seq![]);
        assert(r@.pending =~= seq![]);
        r
    }

    /// Creates a task with the given description, creation instant and
    /// annotation texts, as one unit: either the task and all its
    /// annotations are added, or nothing changes. Returns the new task's id.
    pub fn create_task(
        &mut self,
        description: String,
        created: Instant,
        annotations: Vec<String>,
    ) -> (r: Result<i64, StoreError>)
        requires
            old(self).wf(),
        ensures
            final(self).wf(),
            (r, final(self)@) == create_spec(
                old(self)@,
                description@,
                created,
                texts_view(annotations@),
            ),
    {
        let ghost texts = texts_view(annotations@);
        if description.as_str().is_empty() || created.nanos >= NANOS_PER_SEC {
            return Err(StoreError::Validation);
        }
        let mut i: usize = 0;
        while i < annotations.len()
            invariant
                self.wf(),
                self@ == old(self)@,
                i <= annotations@.len(),
                texts == texts_view(annotations@),
                forall|j: int| 0 <= j < i ==> valid_text(#[trigger] texts[j]),
            decreases annotations@.len() - i,
        {
            if annotations[i].as_str().is_empty() {
                assert(!valid_text(texts[i as int]));
                return Err(StoreError::Validation);
            }
            i = i + 1;
        }
        if self.next_task_id == i64::MAX || (annotations.len() as u64) > (i64::MAX
            - self.next_annotation_id) as u64 {
            return Err(StoreError::IdsExhausted);
        }
        let ghost v = self@;
        let ghost w = create_spec(v, description@, created, texts).1;
        let id = self.next_task_id;
        let first = self.next_annotation_id;
        let row = TaskRow { id, description, created };
        let ghost task = row@;
        self.pending.push(Change::InsertTask(row.duplicate()));
        self.tasks.push(row);
        proof {
            assert(self@.tasks =~= v.tasks.push(task));
            assert(self@.pending =~= v.pending.push(ChangeView::InsertTask(task)));
            assert(new_annotations(first as int, id as int, texts.subrange(0, 0)) =~= seq![]);
            assert(self@.annotations =~= v.annotations + new_annotations(first as int, id as int, texts.subrange(0, 0)));
        }
        let mut i: usize = 0;
        while i < annotations.len()
            invariant
                i <= annotations@.len(),
                texts == texts_view(annotations@),
                texts.len() == annotations@.len(),
                v.wf(),
                v.next_annotation_id + texts.len() <= i64::MAX,
                first == v.next_annotation_id,
                id == v.next_task_id,
                self.next_task_id == id,
                self.next_annotation_id == first,
                self@.tasks == v.tasks.push(task),
                self@.unreadable == v.unreadable,
                self@.annotations == v.annotations + new_annotations(first as int, id as int, texts.subrange(0, i as int)),
                self@.pending == v.pending.push(ChangeView::InsertTask(task)) + new_annotations(first as int, id as int, texts.subrange(0, i as int)).map_values(|a: AnnotationRowView| ChangeView::InsertAnnotation(a)),
            decreases annotations@.len() - i,
        {
            let note = AnnotationRow { id: first + i as i64, task_id: id, description: annotations[i].clone() };
            let ghost a = note@;
            let ghost before = self@;
            assert(a.description == texts[i as int]);
            assert(a.id == first + i);
            self.pending.push(Change::InsertAnnotation(note.duplicate()));
            self.annotations.push(note);
            proof {
                let nb = new_annotations(first as int, id as int, texts.subrange(0, i as int));
                let na = new_annotations(first as int, id as int, texts.subrange(0, i + 1));
                assert(na =~= nb.push(a));
                assert(self@.annotations =~= before.annotations.push(a));
                assert(self@.annotations =~= v.annotations + na);
                assert(self@.pending =~= before.pending.push(ChangeView::InsertAnnotation(a)));
                assert(na.map_values(|a: AnnotationRowView| ChangeView::InsertAnnotation(a)) =~= nb.map_values(|a: AnnotationRowView| ChangeView::InsertAnnotation(a)).push(ChangeView::InsertAnnotation(a)));
            }
            i = i + 1;
        }
        self.next_task_id = id + 1;
        self.next_annotation_id = first + annotations.len() as i64;
        proof {
            assert(texts.subrange(0, texts.len() as int) =~= texts);
            assert(self@ =~= w);
            lemma_create_wf(v, description@, created, texts);
        }
        Ok(id)
    }

    /// Attaches an annotation to an existing task. Returns its id.
    pub fn add_annotation(&mut self, task_id: i64, description: String) -> (r: Result<
        i64,
        StoreError,
    >)
        requires
            old(self).wf(),
        ensures
            final(self).wf(),
            (r, final(self)@) == annotate_spec(old(self)@, task_id as int, description@),
    {
        if !self.contains_task(task_id) {
            return Err(self.missing_task_error(task_id));
        }
        if description.as_str().is_empty() {
            return Err(StoreError::Validation);
        }
        if self.next_annotation_id == i64::MAX {
            return Err(StoreError::IdsExhausted);
        }
        let ghost v = self@;
        let id = self.next_annotation_id;
        let note = AnnotationRow { id, task_id, description };
        self.pending.push(Change::InsertAnnotation(note.duplicate()));
        self.annotations.push(note);
        self.next_annotation_id = id + 1;
        proof {
            let note_v = AnnotationRowView { id: id as int, task_id: task_id as int, description: description@ };
            assert(self@.annotations =~= v.annotations.push(note_v));
            assert(self@.pending =~= v.pending.push(ChangeView::InsertAnnotation(note_v)));
            assert(self@.tasks == v.tasks);
            assert(self@ =~= annotate_spec(v, task_id as int, description@).1);
            lemma_annotate_wf(v, task_id as int, description@);
        }
        Ok(id)
    }

    /// Deletes a task and every annotation of it. A task that does not exist
    /// is reported as not found.
    pub fn delete_task(&mut self, task_id: i64) -> (r: Result<(), StoreError>)
        requires
            old(self).wf(),
        ensures
            final(self).wf(),
            (r, final(self)@) == delete_spec(old(self)@, task_id as int),
    {
        if !self.contains_task(task_id) {
            if !holds_id(&self.unreadable, task_id) {
                return Err(StoreError::NotFound);
            }
            let ghost v = self@;
            let ghost pu = other_id(task_id as int);
            let mut kept: Vec<i64> = Vec::new();
            let mut i: usize = 0;
            while i < self.unreadable.len()
                invariant
                    self@ == v,
                    i <= self.unreadable@.len(),
                    pu == other_id(task_id as int),
                    ids_view(kept@) == v.unreadable.subrange(0, i as int).filter(pu),
                decreases self.unreadable@.len() - i,
            {
                if self.unreadable[i] != task_id {
                    kept.push(self.unreadable[i]);
                }
                proof {
                    lemma_filter_step(v.unreadable, pu, i as int);
                    assert(ids_view(kept@) =~= v.unreadable.subrange(0, i + 1).filter(pu));
                }
                i = i + 1;
            }
            self.unreadable = kept;
            self.pending.push(Change::DeleteTask(task_id));
            proof {
                assert(v.unreadable.subrange(0, v.unreadable.len() as int) =~= v.unreadable);
                assert(self@.pending =~= v.pending.push(ChangeView::DeleteTask(task_id as int)));
                assert(self@.unreadable == v.unreadable.filter(pu));
                assert(self@ =~= delete_spec(v, task_id as int).1);
                lemma_delete_wf(v, task_id as int);
            }
            return Ok(());
        }
        let ghost v = self@;
        let ghost pt = other_task(task_id as int);
        let ghost pa = other_task_note(task_id as int);
        let mut kept: Vec<TaskRow> = Vec::new();
        let mut i: usize = 0;
        while i < self.tasks.len()
            invariant
                self@ == v,
                i <= self.tasks@.len(),
                pt == other_task(task_id as int),
                task_rows_view(kept@) == v.tasks.subrange(0, i as int).filter(pt),
            decreases self.tasks@.len() - i,
        {
            if self.tasks[i].id != task_id {
                kept.push(self.tasks[i].duplicate());
            }
            proof {
                lemma_filter_step(v.tasks, pt, i as int);
                assert(task_rows_view(kept@) =~= v.tasks.subrange(0, i + 1).filter(pt));
            }
            i = i + 1;
        }
        let mut kept_notes: Vec<AnnotationRow> = Vec::new();
        let mut i: usize = 0;
        while i < self.annotations.len()
            invariant
                self@ == v,
                i <= self.annotations@.len(),
                pa == other_task_note(task_id as int),
                annotation_rows_view(kept_notes@) == v.annotations.subrange(0, i as int).filter(pa),
            decreases self.annotations@.len() - i,
        {
            if self.annotations[i].task_id != task_id {
                kept_notes.push(self.annotations[i].duplicate());
            }
            proof {
                lemma_filter_step(v.annotations, pa, i as int);
                assert(annotation_rows_view(kept_notes@) =~= v.annotations.subrange(0, i + 1).filter(pa));
            }
            i = i + 1;
        }
        self.tasks = kept;
        self.annotations = kept_notes;
        self.pending.push(Change::DeleteTask(task_id));
        proof {
            assert(self@.pending =~= v.pending.push(ChangeView::DeleteTask(task_id as int)));
            assert(v.tasks.subrange(0, v.tasks.len() as int) =~= v.tasks);
            assert(v.annotations.subrange(0, v.annotations.len() as int) =~= v.annotations);
            assert(self@.tasks == v.tasks.filter(pt));
            assert(self@.annotations == v.annotations.filter(pa));
            assert(self@ =~= delete_spec(v, task_id as int).1);
            lemma_delete_wf(v, task_id as int);
        }
        Ok(())
    }

    /// All tasks in ascending id order, without their annotations.
    pub fn list_tasks(&self) -> (r: Vec<Task>)
        requires
            self.wf(),
        ensures
            tasks_view(r@) == list_spec(self@),
    {
        let mut out: Vec<Task> = Vec::new();
        let mut i: usize = 0;
        while i < self.tasks.len()
            invariant
                i <= self.tasks@.len(),
                tasks_view(out@) == list_spec(self@).subrange(0, i as int),
            decreases self.tasks@.len() - i,
        {
            let row = &self.tasks[i];
            let t = Task {
                id: row.id,
                description: row.description.clone(),
                created: row.created,
                annotations: Vec::new(),
            };
            let ghost before = out@;
            out.push(t);
            proof {
                assert(t@.annotations =~= seq![]);
                assert(t@ == list_spec(self@)[i as int]);
                assert(tasks_view(out@) =~= tasks_view(before).push(t@));
                assert(tasks_view(out@) =~= list_spec(self@).subrange(0, i + 1));
            }
            i = i + 1;
        }
        assert(list_spec(self@).subrange(0, self.tasks@.len() as int) =~= list_spec(self@));
        out
    }

    /// The task with id `task_id`, with the texts of its annotations in
    /// ascending id order.
    pub fn get_task(&self, task_id: i64) -> (r: Result<Task, StoreError>)
        requires
            self.wf(),
        ensures
            match r {
                Ok(t) => get_spec(self@, task_id as int) == Ok::<TaskView, StoreError>(t@),
                Err(e) => get_spec(self@, task_id as int) == Err::<TaskView, StoreError>(e),
            },
    {
        let k = match self.find_task(task_id) {
            Some(k) => k,
            None => return Err(self.missing_task_error(task_id)),
        };
        let ghost v = self@;
        let ghost p = note_of(task_id as int);
        let mut notes: Vec<String> = Vec::new();
        let mut i: usize = 0;
        while i < self.annotations.len()
            invariant
                self@ == v,
                i <= self.annotations@.len(),
                p == note_of(task_id as int),
                texts_view(notes@) == v.annotations.subrange(0, i as int).filter(p).map_values(
                    |a: AnnotationRowView| a.description,
                ),
            decreases self.annotations@.len() - i,
        {
            let ghost before = notes@;
            if self.annotations[i].task_id == task_id {
                notes.push(self.annotations[i].description.clone());
                assert(texts_view(notes@) =~= texts_view(before).push(v.annotations[i as int].description));
            } else {
                assert(notes@ == before);
            }
            proof {
                lemma_filter_step(v.annotations, p, i as int);
                assert(texts_view(notes@) =~= v.annotations.subrange(0, i + 1).filter(p).map_values(
                    |a: AnnotationRowView| a.description,
                ));
            }
            i = i + 1;
        }
        assert(v.annotations.subrange(0, v.annotations.len() as int) =~= v.annotations);
        let row = &self.tasks[k];
        let t = Task {
            id: row.id,
            description: row.description.clone(),
            created: row.created,
            annotations: notes,
        };
        assert(t@ == get_spec(v, task_id as int)->Ok_0);
        Ok(t)
    }

    /// Takes out the row changes made since they were last taken out, in the
    /// order they were made.
    pub fn take_pending(&mut self) -> (r: Vec<Change>)
        requires
            old(self).wf(),
        ensures
            final(self).wf(),
            changes_view(r@) == old(self)@.pending,
            final(self)@ == old(self)@.with_pending(seq![]),
    {
        let mut out: Vec<Change> = Vec::new();
        std::mem::swap(&mut out, &mut self.pending);
        assert(self@.pending =~= seq![]);
        assert(changes_view(out@) == old(self)@.pending);
        assert(self@ =~= old(self)@.with_pending(seq![]));
        out
    }

    /// The ids of the task rows whose creation instant could not be read
    /// back, in the order they were read.
    pub fn unreadable_tasks(&self) -> (r: Vec<i64>)
        ensures
            ids_view(r@) == self@.unreadable,
    {
        let mut out: Vec<i64> = Vec::new();
        let mut i: usize = 0;
        while i < self.unreadable.len()
            invariant
                i <= self.unreadable@.len(),
                ids_view(out@) == self@.unreadable.subrange(0, i as int),
            decreases self.unreadable@.len() - i,
        {
            let ghost before = out@;
            out.push(self.unreadable[i]);
            assert(ids_view(out@) =~= ids_view(before).push(self.unreadable@[i as int] as int));
            assert(ids_view(out@) =~= self@.unreadable.subrange(0, i + 1));
            i = i + 1;
        }
        assert(self@.unreadable.subrange(0, i as int) =~= self@.unreadable);
        out
    }

    /// The error for a task id that names no readable task.
    fn missing_task_error(&self, task_id: i64) -> (r: StoreError)
        ensures
            r == missing_task_error(self@, task_id as int),
    {
        if holds_id(&self.unreadable, task_id) {
            StoreError::CorruptData
        } else {
            StoreError::NotFound
        }
    }

    /// Whether a task with id `task_id` exists.
    pub fn contains_task(&self, task_id: i64) -> (r: bool)
        ensures
            r == has_task(self@, task_id as int),
    {
        let mut k: usize = 0;
        while k < self.tasks.len()
            invariant
                k <= self.tasks@.len(),
                forall|j: int| 0 <= j < k ==> self@.tasks[j].id != task_id,
            decreases self.tasks@.len() - k,
        {
            if self.tasks[k].id == task_id {
                assert(self@.tasks[k as int].id == task_id);
                return true;
            }
            k = k + 1;
        }
        false
    }

    /// Rebuilds a store from rows read back from storage: the tasks and the
    /// annotations, each in ascending id order, and the last task and
    /// annotation ids ever handed out (0 where none was). A task row whose
    /// creation instant is not in stored form is set aside with its
    /// annotations: the other rows stay readable, and looking that task up
    /// reports corrupt data. Rows that break the store's invariants make the
    /// whole store corrupt data.
    pub fn load(
        tasks: Vec<StoredTask>,
        annotations: Vec<AnnotationRow>,
        last_task_id: i64,
        last_annotation_id: i64,
    ) -> (r: Result<Store, StoreError>)
        ensures
            match r {
                Ok(s) => s.wf() && load_spec(
                    stored_tasks_view(tasks@),
                    annotation_rows_view(annotations@),
                    last_task_id as int,
                    last_annotation_id as int,
                ) == Ok::<StoreView, StoreError>(s@),
                Err(e) => load_spec(
                    stored_tasks_view(tasks@),
                    annotation_rows_view(annotations@),
                    last_task_id as int,
                    last_annotation_id as int,
                ) == Err::<StoreView, StoreError>(e),
            },
    {
        let ghost rows = stored_tasks_view(tasks@);
        let ghost notes = annotation_rows_view(annotations@);
        if last_task_id == i64::MAX || last_annotation_id == i64::MAX {
            return Err(StoreError::IdsExhausted);
        }
        if last_task_id < 0 || last_annotation_id < 0 {
            assert(!loaded_view(rows, notes, last_task_id as int, last_annotation_id as int).wf());
            return Err(StoreError::CorruptData);
        }
        let mut parsed: Vec<TaskRow> = Vec::new();
        let mut bad: Vec<i64> = Vec::new();
        let mut i: usize = 0;
        while i < tasks.len()
            invariant
                i <= tasks@.len(),
                rows == stored_tasks_view(tasks@),
                task_rows_view(parsed@) == rows.subrange(0, i as int).filter(readable_row()).map_values(
                    |r: StoredTaskView| parsed_row(r),
                ),
                ids_view(bad@) == rows.subrange(0, i as int).filter(unreadable_row()).map_values(
                    |r: StoredTaskView| r.id,
                ),
            decreases tasks@.len() - i,
        {
            let row = &tasks[i];
            let ghost before = parsed@;
            let ghost before_bad = bad@;
            proof {
                lemma_filter_step(rows, readable_row(), i as int);
                lemma_filter_step(rows, unreadable_row(), i as int);
            }
            match Instant::parse_stamp(row.created.as_slice()) {
                Some(created) => {
                    parsed.push(TaskRow { id: row.id, description: row.description.clone(), created });
                    assert(task_rows_view(parsed@) =~= task_rows_view(before).push(parsed_row(rows[i as int])));
                    assert(bad@ == before_bad);
                },
                None => {
                    bad.push(row.id);
                    assert(ids_view(bad@) =~= ids_view(before_bad).push(rows[i as int].id));
                    assert(parsed@ == before);
                },
            }
            proof {
                assert(task_rows_view(parsed@) =~= rows.subrange(0, i + 1).filter(readable_row()).map_values(
                    |r: StoredTaskView| parsed_row(r),
                ));
                assert(ids_view(bad@) =~= rows.subrange(0, i + 1).filter(unreadable_row()).map_values(
                    |r: StoredTaskView| r.id,
                ));
            }
            i = i + 1;
        }
        assert(rows.subrange(0, rows.len() as int) =~= rows);
        let ghost pn = not_of_any(ids_view(bad@));
        let mut kept: Vec<AnnotationRow> = Vec::new();
        let mut i: usize = 0;
        while i < annotations.len()
            invariant
                i <= annotations@.len(),
                notes == annotation_rows_view(annotations@),
                pn == not_of_any(ids_view(bad@)),
                annotation_rows_view(kept@) == notes.subrange(0, i as int).filter(pn),
            decreases annotations@.len() - i,
        {
            if !holds_id(&bad, annotations[i].task_id) {
                kept.push(annotations[i].duplicate());
            }
            proof {
                lemma_filter_step(notes, pn, i as int);
                assert(annotation_rows_view(kept@) =~= notes.subrange(0, i + 1).filter(pn));
            }
            i = i + 1;
        }
        assert(notes.subrange(0, notes.len() as int) =~= notes);
        let store = Store {
            tasks: parsed,
            annotations: kept,
            next_task_id: last_task_id + 1,
            next_annotation_id: last_annotation_id + 1,
            pending: Vec::new(),
            unreadable: bad,
        };
        assert(store@.pending =~= seq![]);
        assert(store@ =~= loaded_view(rows, notes, last_task_id as int, last_annotation_id as int));
        if store.is_consistent() {
            Ok(store)
        } else {
            Err(StoreError::CorruptData)
        }
    }

    /// Whether the store's invariants hold, given that its ids to hand out
    /// are positive and nothing is pending.
    fn is_consistent(&self) -> (r: bool)
        requires
            1 <= self@.next_task_id <= i64::MAX,
            1 <= self@.next_annotation_id <= i64::MAX,
        ensures
            r == self@.wf(),
    {
        let v = Ghost(self@);
        let mut i: usize = 0;
        while i < self.tasks.len()
            invariant
                v@ == self@,
                i <= self.tasks@.len(),
                forall|a: int, b: int| 0 <= a < b < i ==> self@.tasks[a].id < self@.tasks[b].id,
                forall|j: int|
                    #![trigger self@.tasks[j]]
                    0 <= j < i ==> {
                        &&& 1 <= self@.tasks[j].id < self@.next_task_id
                        &&& valid_text(self@.tasks[j].description)
                        &&& self@.tasks[j].created.wf()
                    },
            decreases self.tasks@.len() - i,
        {
            let t = &self.tasks[i];
            if t.id < 1 || t.id >= self.next_task_id || t.description.as_str().is_empty()
                || t.created.nanos >= NANOS_PER_SEC {
                assert(!(1 <= self@.tasks[i as int].id < self@.next_task_id && valid_text(self@.tasks[i as int].description) && self@.tasks[i as int].created.wf()));
                return false;
            }
            if i > 0 && self.tasks[i - 1].id >= t.id {
                assert(!(self@.tasks[i - 1].id < self@.tasks[i as int].id));
                return false;
            }
            i = i + 1;
        }
        let mut i: usize = 0;
        while i < self.annotations.len()
            invariant
                v@ == self@,
                i <= self.annotations@.len(),
                task_ids_ascend(self@.tasks),
                forall|j: int|
                    #![trigger self@.tasks[j]]
                    0 <= j < self@.tasks.len() ==> {
                        &&& 1 <= self@.tasks[j].id < self@.next_task_id
                        &&& valid_text(self@.tasks[j].description)
                        &&& self@.tasks[j].created.wf()
                    },
                forall|a: int, b: int| 0 <= a < b < i ==> self@.annotations[a].id < self@.annotations[b].id,
                forall|j: int|
                    #![trigger self@.annotations[j]]
                    0 <= j < i ==> {
                        &&& 1 <= self@.annotations[j].id < self@.next_annotation_id
                        &&& valid_text(self@.annotations[j].description)
                        &&& has_task(self@, self@.annotations[j].task_id)
                    },
            decreases self.annotations@.len() - i,
        {
            let a = &self.annotations[i];
            if a.id < 1 || a.id >= self.next_annotation_id || a.description.as_str().is_empty()
                || !self.contains_task(a.task_id) {
                assert(!(1 <= self@.annotations[i as int].id < self@.next_annotation_id && valid_text(self@.annotations[i as int].description) && has_task(self@, self@.annotations[i as int].task_id)));
                return false;
            }
            if i > 0 && self.annotations[i - 1].id >= a.id {
                assert(!(self@.annotations[i - 1].id < self@.annotations[i as int].id));
                return false;
            }
            assert forall|x: int, y: int| 0 <= x < y < i + 1 implies self@.annotations[x].id
                < self@.annotations[y].id by {
                if y == i && x < i - 1 {
                    assert(self@.annotations[x].id < self@.annotations[i - 1].id);
                }
            }
            i = i + 1;
        }
        let mut i: usize = 0;
        while i < self.unreadable.len()
            invariant
                v@ == self@,
                i <= self.unreadable@.len(),
                task_ids_ascend(self@.tasks),
                forall|j: int|
                    #![trigger self@.tasks[j]]
                    0 <= j < self@.tasks.len() ==> {
                        &&& 1 <= self@.tasks[j].id < self@.next_task_id
                        &&& valid_text(self@.tasks[j].description)
                        &&& self@.tasks[j].created.wf()
                    },
                annotation_ids_ascend(self@.annotations),
                forall|j: int|
                    #![trigger self@.annotations[j]]
                    0 <= j < self@.annotations.len() ==> {
                        &&& 1 <= self@.annotations[j].id < self@.next_annotation_id
                        &&& valid_text(self@.annotations[j].description)
                        &&& has_task(self@, self@.annotations[j].task_id)
                    },
                forall|j: int|
                    #![trigger self@.unreadable[j]]
                    0 <= j < i ==> {
                        &&& 1 <= self@.unreadable[j] < self@.next_task_id
                        &&& !has_task(self@, self@.unreadable[j])
                    },
            decreases self.unreadable@.len() - i,
        {
            let u = self.unreadable[i];
            if u < 1 || u >= self.next_task_id || self.contains_task(u) {
                assert(!(1 <= self@.unreadable[i as int] < self@.next_task_id && !has_task(self@, self@.unreadable[i as int])));
                return false;
            }
            i = i + 1;
        }
        true
    }

    /// The position of the task with id `task_id`, if there is one.
    fn find_task(&self, task_id: i64) -> (r: Option<usize>)
        requires
            self.wf(),
        ensures
            r is Some <==> has_task(self@, task_id as int),
            r matches Some(k) ==> k == task_index(self@, task_id as int) && k
                < self.tasks@.len(),
    {
        let mut k: usize = 0;
        while k < self.tasks.len()
            invariant
                self.wf(),
                k <= self.tasks@.len(),
                forall|j: int| 0 <= j < k ==> self@.tasks[j].id != task_id,
            decreases self.tasks@.len() - k,
        {
            if self.tasks[k].id == task_id {
                assert(self@.tasks[k as int].id == task_id);
                assert(has_task(self@, task_id as int));
                let ghost c = task_index(self@, task_id as int);
                assert(c == k) by {
                    if c < k {
                        assert(self@.tasks[c].id < self@.tasks[k as int].id);
                    } else if c > k {
                        assert(self@.tasks[k as int].id < self@.tasks[c].id);
                    }
                }
                return Some(k);
            }
            k = k + 1;
        }
        None
    }
}


/// Whether `id` is among `ids`.
fn holds_id(ids: &Vec<i64>, id: i64) -> (r: bool)
    ensures
        r == ids_view(ids@).contains(id as int),
{
    let mut k: usize = 0;
    while k < ids.len()
        invariant
            k <= ids@.len(),
            forall|j: int| 0 <= j < k ==> ids_view(ids@)[j] != id,
        decreases ids@.len() - k,
    {
        if ids[k] == id {
            assert(ids_view(ids@)[k as int] == id);
            return true;
        }
        k = k + 1;
    }
    false
}

/// A successful creation keeps the store's invariants.
pub(crate) proof fn lemma_create_wf(v: StoreView, description: Seq<char>, created: Instant, texts: Seq<Seq<char>>)
    requires
        v.wf(),
        create_spec(v, description, created, texts).0 is Ok,
    ensures
        create_spec(v, description, created, texts).1.wf(),
{
    let w = create_spec(v, description, created, texts).1;
    let n = v.tasks.len();
    assert(w.tasks[n as int].id == v.next_task_id);
    assert forall|i: int| 0 <= i < w.annotations.len() implies has_task(
        w,
        #[trigger] w.annotations[i].task_id,
    ) by {
        if i < v.annotations.len() {
            assert(w.annotations[i] == v.annotations[i]);
            let k = choose|k: int| 0 <= k < v.tasks.len() && #[trigger] v.tasks[k].id
                == v.annotations[i].task_id;
            assert(w.tasks[k] == v.tasks[k]);
        } else {
            assert(w.annotations[i].task_id == w.tasks[n as int].id);
        }
    }
    assert forall|i: int| 0 <= i < w.unreadable.len() implies !has_task(
        w,
        #[trigger] w.unreadable[i],
    ) by {
        let u = w.unreadable[i];
        assert(u == v.unreadable[i]);
        if has_task(w, u) {
            let k = choose|k: int| 0 <= k < w.tasks.len() && #[trigger] w.tasks[k].id == u;
            if k < n {
                assert(w.tasks[k] == v.tasks[k]);
            }
        }
    }
}


/// A successful annotation keeps the store's invariants.
pub(crate) proof fn lemma_annotate_wf(v: StoreView, task_id: int, description: Seq<char>)
    requires
        v.wf(),
        annotate_spec(v, task_id, description).0 is Ok,
    ensures
        annotate_spec(v, task_id, description).1.wf(),
{
    let w = annotate_spec(v, task_id, description).1;
    assert forall|i: int| 0 <= i < w.annotations.len() implies has_task(
        w,
        #[trigger] w.annotations[i].task_id,
    ) by {
        assert(w.tasks == v.tasks);
        if i < v.annotations.len() {
            assert(w.annotations[i] == v.annotations[i]);
        } else {
            assert(w.annotations[i].task_id == task_id);
        }
    }
}

/// Filtering keeps a strictly ascending key ascending.
pub(crate) proof fn lemma_filter_ascends<A>(s: Seq<A>, key: spec_fn(A) -> int, p: spec_fn(A) -> bool)
    requires
        ascends_by(s, key),
    ensures
        ascends_by(s.filter(p), key),
    decreases s.len(),
{
    reveal(Seq::filter);
    if s.len() > 0 {
        let d = s.drop_last();
        assert(ascends_by(d, key)) by {
            assert forall|i: int, j: int| 0 <= i < j < d.len() implies key(d[i]) < key(d[j]) by {
                assert(d[i] == s[i] && d[j] == s[j]);
            }
        }
        lemma_filter_ascends(d, key, p);
        let f = d.filter(p);
        assert forall|i: int| 0 <= i < f.len() implies #[trigger] key(f[i]) < key(s.last()) by {
            assert(f.contains(f[i]));
            d.lemma_filter_contains_rev(p, f[i]);
            let j = choose|j: int| 0 <= j < d.len() && d[j] == f[i];
            assert(s[j] == d[j]);
        }
    }
}

/// One more element of a prefix, filtered.
proof fn lemma_filter_step<A>(s: Seq<A>, p: spec_fn(A) -> bool, i: int)
    requires
        0 <= i < s.len(),
    ensures
        s.subrange(0, i + 1).filter(p) == (if p(s[i]) {
            s.subrange(0, i).filter(p).push(s[i])
        } else {
            s.subrange(0, i).filter(p)
        }),
{
    reveal(Seq::filter);
    assert(s.subrange(0, i + 1).drop_last() =~= s.subrange(0, i));
}

/// A successful deletion keeps the store's invariants.
pub(crate) proof fn lemma_delete_wf(v: StoreView, task_id: int)
    requires
        v.wf(),
    ensures
        delete_spec(v, task_id).1.wf(),
{
    if has_task(v, task_id) {
        let w = delete_spec(v, task_id).1;
        let pt = other_task(task_id);
        let pa = other_task_note(task_id);
        lemma_filter_ascends(v.tasks, task_id_key(), pt);
        lemma_filter_ascends(v.annotations, annotation_id_key(), pa);
        assert forall|i: int| 0 <= i < w.tasks.len() implies {
            &&& 1 <= (#[trigger] w.tasks[i]).id < w.next_task_id
            &&& valid_text(w.tasks[i].description)
            &&& w.tasks[i].created.wf()
        } by {
            assert(w.tasks.contains(w.tasks[i]));
            v.tasks.lemma_filter_contains_rev(pt, w.tasks[i]);
            let j = choose|j: int| 0 <= j < v.tasks.len() && v.tasks[j] == w.tasks[i];
            assert(v.tasks[j] == w.tasks[i]);
        }
        assert forall|i: int| 0 <= i < w.annotations.len() implies {
            &&& 1 <= (#[trigger] w.annotations[i]).id < w.next_annotation_id
            &&& valid_text(w.annotations[i].description)
            &&& has_task(w, w.annotations[i].task_id)
        } by {
            let a = w.annotations[i];
            assert(w.annotations.contains(a));
            v.annotations.lemma_filter_contains_rev(pa, a);
            v.annotations.lemma_filter_pred(pa, i);
            let j = choose|j: int| 0 <= j < v.annotations.len() && v.annotations[j] == a;
            assert(v.annotations[j] == a);
            let k = choose|k: int| 0 <= k < v.tasks.len() && #[trigger] v.tasks[k].id == a.task_id;
            v.tasks.lemma_filter_contains(pt, k);
            let m = choose|m: int| 0 <= m < w.tasks.len() && w.tasks[m] == v.tasks[k];
            assert(w.tasks[m].id == a.task_id);
        }
        assert forall|i: int| 0 <= i < w.unreadable.len() implies !has_task(
            w,
            #[trigger] w.unreadable[i],
        ) by {
            let u = w.unreadable[i];
            if has_task(w, u) {
                let m = choose|m: int| 0 <= m < w.tasks.len() && #[trigger] w.tasks[m].id == u;
                assert(w.tasks.contains(w.tasks[m]));
                v.tasks.lemma_filter_contains_rev(pt, w.tasks[m]);
                let j = choose|j: int| 0 <= j < v.tasks.len() && v.tasks[j] == w.tasks[m];
                assert(v.tasks[j].id == u);
            }
        }
    } else if v.unreadable.contains(task_id) {
        let w = delete_spec(v, task_id).1;
        let pu = other_id(task_id);
        assert(w.tasks == v.tasks);
        assert forall|i: int| 0 <= i < w.unreadable.len() implies {
            &&& 1 <= #[trigger] w.unreadable[i] < w.next_task_id
            &&& !has_task(w, w.unreadable[i])
        } by {
            let u = w.unreadable[i];
            assert(w.unreadable.contains(u));
            v.unreadable.lemma_filter_contains_rev(pu, u);
            let j = choose|j: int| 0 <= j < v.unreadable.len() && v.unreadable[j] == u;
            assert(v.unreadable[j] == u);
        }
        assert forall|i: int| 0 <= i < w.annotations.len() implies has_task(
            w,
            #[trigger] w.annotations[i].task_id,
        ) by {
            assert(w.annotations[i] == v.annotations[i]);
        }
    }
}

} // verus!
