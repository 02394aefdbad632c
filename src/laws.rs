//! Properties of the store that span several operations.
use vstd::prelude::*;
use crate::stamp::Instant;
use crate::store::{
    AnnotationRowView, StoreError, StoreView, TaskView, create_spec, annotate_spec, delete_spec,
    get_spec, has_task, list_spec, note_of, notes_of, other_task, other_task_note,
    annotation_ids_ascend, lemma_create_wf, lemma_annotate_wf, lemma_delete_wf,
    lemma_filter_ascends, annotation_id_key, StoredTaskView, load_spec, readable_row,
    unreadable_row, parsed_row, task_index, TaskRowView, summary,
};
use crate::stamp::stamp_parse;

verus! {

/// One operation that changes a store.
pub enum Command {
    Create { description: Seq<char>, created: Instant, texts: Seq<Seq<char>> },
    Annotate { task_id: int, description: Seq<char> },
    Delete { task_id: int },
}

/// The state after `c`, with the id of the task it created, if it created
/// one.
pub open spec fn step(v: StoreView, c: Command) -> (Option<int>, StoreView) {
    match c {
        Command::Create { description, created, texts } => {
            let (r, w) = create_spec(v, description, created, texts);
            (
                match r {
                    Ok(id) => Some(id as int),
                    Err(_) => None,
                },
                w,
            )
        },
        Command::Annotate { task_id, description } => (
            None,
            annotate_spec(v, task_id, description).1,
        ),
        Command::Delete { task_id } => (None, delete_spec(v, task_id).1),
    }
}

/// The state after the commands `cs` in turn, with the ids of the tasks
/// they created, in order.
pub open spec fn run(v: StoreView, cs: Seq<Command>) -> (Seq<int>, StoreView)
    decreases cs.len(),
{
    if cs.len() == 0 {
        (seq![], v)
    } else {
        let (ids, w) = run(v, cs.drop_last());
        let (made, u) = step(w, cs.last());
        (
            match made {
                Some(id) => ids.push(id),
                None => ids,
            },
            u,
        )
    }
}

/// Deleting a task leaves nothing of it: the listing no longer holds it,
/// looking it up fails, and no annotation of it remains.
pub proof fn lemma_delete_cascades(v: StoreView, x: int)
    requires
        v.wf(),
    ensures
        ({
            let w = delete_spec(v, x).1;
            &&& forall|i: int| 0 <= i < list_spec(w).len() ==> (#[trigger] list_spec(w)[i]).id != x
            &&& get_spec(w, x) == Err::<TaskView, StoreError>(StoreError::NotFound)
            &&& forall|i: int|
                0 <= i < w.annotations.len() ==> (#[trigger] w.annotations[i]).task_id != x
            &&& notes_of(w, x).len() == 0
        }),
{
    let w = delete_spec(v, x).1;
    lemma_delete_wf(v, x);
    if has_task(v, x) {
        assert forall|i: int| 0 <= i < w.tasks.len() implies (#[trigger] w.tasks[i]).id != x by {
            v.tasks.lemma_filter_pred(other_task(x), i);
        }
        assert forall|i: int| 0 <= i < w.annotations.len() implies (
        #[trigger] w.annotations[i]).task_id != x by {
            v.annotations.lemma_filter_pred(other_task_note(x), i);
        }
    } else {
        assert forall|i: int| 0 <= i < w.annotations.len() implies (
        #[trigger] w.annotations[i]).task_id != x by {
            assert(has_task(v, v.annotations[i].task_id));
        }
    }
    assert forall|i: int| 0 <= i < list_spec(w).len() implies (#[trigger] list_spec(w)[i]).id
        != x by {
        assert(list_spec(w)[i].id == w.tasks[i].id);
    }
    assert(!has_task(w, x));
    w.annotations.lemma_all_neg_filter_empty(note_of(x));
}

/// A creation that is refused changes nothing. In particular, where one
/// annotation text is empty, no task is created and the listing stays as
/// it was.
pub proof fn lemma_refused_create_changes_nothing(
    v: StoreView,
    description: Seq<char>,
    created: Instant,
    texts: Seq<Seq<char>>,
)
    requires
        v.wf(),
    ensures
        create_spec(v, description, created, texts).0 is Err ==> create_spec(
            v,
            description,
            created,
            texts,
        ).1 == v,
        (exists|i: int| 0 <= i < texts.len() && #[trigger] texts[i].len() == 0) ==> {
            &&& create_spec(v, description, created, texts).0 == Err::<i64, StoreError>(
                StoreError::Validation,
            )
            &&& list_spec(create_spec(v, description, created, texts).1) == list_spec(v)
        },
{
}

/// Over any sequence of commands, the ids of the tasks created strictly
/// increase, start at or above the store's next id (so above every id it
/// ever held), stay below the next id of the final state, and the store
/// stays consistent, whatever was deleted in between.
pub proof fn lemma_created_ids_increase(v: StoreView, cs: Seq<Command>)
    requires
        v.wf(),
    ensures
        ({
            let (ids, w) = run(v, cs);
            &&& w.wf()
            &&& v.next_task_id <= w.next_task_id
            &&& forall|i: int, j: int| 0 <= i < j < ids.len() ==> ids[i] < ids[j]
            &&& forall|i: int|
                0 <= i < ids.len() ==> v.next_task_id <= #[trigger] ids[i] < w.next_task_id
        }),
    decreases cs.len(),
{
    if cs.len() > 0 {
        lemma_created_ids_increase(v, cs.drop_last());
        let (ids, w) = run(v, cs.drop_last());
        match cs.last() {
            Command::Create { description, created, texts } => {
                if create_spec(w, description, created, texts).0 is Ok {
                    lemma_create_wf(w, description, created, texts);
                }
            },
            Command::Annotate { task_id, description } => {
                if annotate_spec(w, task_id, description).0 is Ok {
                    lemma_annotate_wf(w, task_id, description);
                }
            },
            Command::Delete { task_id } => {
                lemma_delete_wf(w, task_id);
            },
        }
    }
}

/// The listing holds the tasks in ascending id order, and the annotations
/// of a task come in ascending id order, which is the order they were made.
pub proof fn lemma_listing_is_ordered(v: StoreView, x: int)
    requires
        v.wf(),
    ensures
        forall|i: int, j: int|
            0 <= i < j < list_spec(v).len() ==> list_spec(v)[i].id < list_spec(v)[j].id,
        annotation_ids_ascend(notes_of(v, x)),
        get_spec(v, x) matches Ok(t) ==> t.annotations == notes_of(v, x).map_values(
            |a: AnnotationRowView| a.description,
        ),
{
    lemma_filter_ascends(v.annotations, annotation_id_key(), note_of(x));
    assert forall|i: int, j: int| 0 <= i < j < list_spec(v).len() implies list_spec(v)[i].id
        < list_spec(v)[j].id by {
        assert(list_spec(v)[i].id == v.tasks[i].id);
        assert(list_spec(v)[j].id == v.tasks[j].id);
    }
}

/// Reading a store back, a task row whose creation instant cannot be read
/// does not make the other rows unreadable: a row whose instant reads back
/// is a task that can be looked up, with that instant, description and id,
/// and looking up a row whose instant does not read back reports corrupt
/// data for that row alone.
pub proof fn lemma_unreadable_row_stays_apart(
    rows: Seq<StoredTaskView>,
    notes: Seq<AnnotationRowView>,
    last_task_id: int,
    last_annotation_id: int,
    k: int,
)
    requires
        load_spec(rows, notes, last_task_id, last_annotation_id) is Ok,
        0 <= k < rows.len(),
    ensures
        ({
            let v = load_spec(rows, notes, last_task_id, last_annotation_id)->Ok_0;
            let r = rows[k];
            &&& stamp_parse(r.created) is Some ==> (get_spec(v, r.id) matches Ok(t) && t.id == r.id
                && t.description == r.description && t.created == stamp_parse(r.created)->Some_0)
            &&& stamp_parse(r.created) is None ==> get_spec(v, r.id) == Err::<TaskView, StoreError>(
                StoreError::CorruptData,
            )
        }),
{
    let v = load_spec(rows, notes, last_task_id, last_annotation_id)->Ok_0;
    let r = rows[k];
    if stamp_parse(r.created) is Some {
        let f = rows.filter(readable_row());
        rows.lemma_filter_contains(readable_row(), k);
        let m = choose|m: int| 0 <= m < f.len() && f[m] == r;
        assert(v.tasks[m] == parsed_row(r));
        assert(has_task(v, r.id));
        let c = task_index(v, r.id);
        if c < m {
            assert(v.tasks[c].id < v.tasks[m].id);
        } else if c > m {
            assert(v.tasks[m].id < v.tasks[c].id);
        }
    } else {
        let f = rows.filter(unreadable_row());
        rows.lemma_filter_contains(unreadable_row(), k);
        let m = choose|m: int| 0 <= m < f.len() && f[m] == r;
        assert(v.unreadable[m] == r.id);
        assert(v.unreadable.contains(r.id));
    }
}

/// Whether `row` is the only row `v` can hold under its id, and that id is
/// below the next one to hand out.
pub open spec fn keeps_row(v: StoreView, row: TaskRowView) -> bool {
    &&& row.id < v.next_task_id
    &&& forall|k: int| 0 <= k < v.tasks.len() && (#[trigger] v.tasks[k]).id == row.id ==> v.tasks[k] == row
}

proof fn lemma_step_keeps_row(v: StoreView, c: Command, row: TaskRowView)
    requires
        v.wf(),
        keeps_row(v, row),
    ensures
        step(v, c).1.wf(),
        keeps_row(step(v, c).1, row),
{
    let w = step(v, c).1;
    match c {
        Command::Create { description, created, texts } => {
            if create_spec(v, description, created, texts).0 is Ok {
                lemma_create_wf(v, description, created, texts);
                assert forall|k: int| 0 <= k < w.tasks.len() && (#[trigger] w.tasks[k]).id
                    == row.id implies w.tasks[k] == row by {
                    if k < v.tasks.len() {
                        assert(w.tasks[k] == v.tasks[k]);
                    }
                }
            }
        },
        Command::Annotate { task_id, description } => {
            if annotate_spec(v, task_id, description).0 is Ok {
                lemma_annotate_wf(v, task_id, description);
            }
        },
        Command::Delete { task_id } => {
            lemma_delete_wf(v, task_id);
            if has_task(v, task_id) {
                assert forall|k: int| 0 <= k < w.tasks.len() && (#[trigger] w.tasks[k]).id
                    == row.id implies w.tasks[k] == row by {
                    assert(w.tasks.contains(w.tasks[k]));
                    v.tasks.lemma_filter_contains_rev(other_task(task_id), w.tasks[k]);
                    let j = choose|j: int| 0 <= j < v.tasks.len() && v.tasks[j] == w.tasks[k];
                    assert(v.tasks[j] == w.tasks[k]);
                }
            }
        },
    }
}

proof fn lemma_run_keeps_row(v: StoreView, cs: Seq<Command>, row: TaskRowView)
    requires
        v.wf(),
        keeps_row(v, row),
    ensures
        run(v, cs).1.wf(),
        keeps_row(run(v, cs).1, row),
    decreases cs.len(),
{
    if cs.len() > 0 {
        lemma_run_keeps_row(v, cs.drop_last(), row);
        lemma_step_keeps_row(run(v, cs.drop_last()).1, cs.last(), row);
    }
}

/// A task keeps what it was created with through any later commands: as
/// long as it has not been deleted, looking it up gives its id, description
/// and creation instant exactly (nanoseconds included), and the listing
/// shows it with that instant.
pub proof fn lemma_created_task_persists(
    v: StoreView,
    description: Seq<char>,
    created: Instant,
    texts: Seq<Seq<char>>,
    cs: Seq<Command>,
)
    requires
        v.wf(),
        create_spec(v, description, created, texts).0 is Ok,
    ensures
        ({
            let x = create_spec(v, description, created, texts).0->Ok_0 as int;
            let w = run(create_spec(v, description, created, texts).1, cs).1;
            has_task(w, x) ==> {
                &&& get_spec(w, x) matches Ok(t) && t.id == x && t.description == description
                    && t.created == created
                &&& exists|k: int|
                    0 <= k < list_spec(w).len() && #[trigger] list_spec(w)[k] == summary(
                        TaskRowView { id: x, description, created },
                    )
            }
        }),
{
    let u = create_spec(v, description, created, texts).1;
    let x = v.next_task_id;
    let row = TaskRowView { id: x, description, created };
    lemma_create_wf(v, description, created, texts);
    assert forall|k: int| 0 <= k < u.tasks.len() && (#[trigger] u.tasks[k]).id == row.id implies u.tasks[k]
        == row by {
        if k < v.tasks.len() {
            assert(u.tasks[k] == v.tasks[k]);
        }
    }
    lemma_run_keeps_row(u, cs, row);
    let w = run(u, cs).1;
    if has_task(w, x) {
        let c = task_index(w, x);
        assert(w.tasks[c] == row);
        assert(list_spec(w)[c] == summary(row));
    }
}

} // verus!
