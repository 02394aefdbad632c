use taskr::stamp::Instant;
use taskr::store::{AnnotationRow, Change, Store, StoreError, StoredTask};

fn at(secs: i64) -> Instant {
    Instant::new(secs, 0).unwrap()
}

fn texts(items: &[&str]) -> Vec<String> {
    items.iter().map(|s| String::from(*s)).collect()
}

fn ids(store: &Store) -> Vec<i64> {
    store.list_tasks().iter().map(|t| t.id).collect()
}

#[test]
fn buy_milk_then_write_report() {
    let t0 = at(1_700_000_000);
    let t1 = at(1_700_000_100);
    let t2 = at(1_700_000_200);
    let mut store = Store::new();

    assert_eq!(store.create_task(String::from("buy milk"), t0, vec![]), Ok(1));
    let list = store.list_tasks();
    assert_eq!(list.len(), 1);
    assert_eq!(list[0].id, 1);
    assert_eq!(list[0].description, "buy milk");
    assert_eq!(list[0].created, t0);
    assert!(list[0].annotations.is_empty());

    assert_eq!(store.create_task(String::from("write report"), t1, texts(&["draft section 1"])), Ok(2));
    let task = store.get_task(2).unwrap();
    assert_eq!(task.description, "write report");
    assert_eq!(task.created, t1);
    assert_eq!(task.annotations, texts(&["draft section 1"]));

    assert!(store.add_annotation(2, String::from("draft section 2")).is_ok());
    assert_eq!(store.get_task(2).unwrap().annotations, texts(&["draft section 1", "draft section 2"]));

    store.take_pending();
    assert_eq!(store.add_annotation(999, String::from("x")), Err(StoreError::NotFound));
    assert!(store.take_pending().is_empty());
    assert_eq!(store.get_task(2).unwrap().annotations.len(), 2);

    assert_eq!(store.delete_task(1), Ok(()));
    assert_eq!(ids(&store), vec![2]);
    assert_eq!(store.get_task(1).unwrap_err(), StoreError::NotFound);

    assert_eq!(store.create_task(String::from(""), t2, vec![]), Err(StoreError::Validation));
    assert_eq!(ids(&store), vec![2]);
}

#[test]
fn delete_removes_annotations_of_the_task() {
    let mut store = Store::new();
    let a = store.create_task(String::from("a"), at(1), texts(&["a1", "a2", "a3"])).unwrap();
    let b = store.create_task(String::from("b"), at(2), texts(&["b1"])).unwrap();
    assert_eq!(store.delete_task(a), Ok(()));
    assert_eq!(ids(&store), vec![b]);
    assert_eq!(store.get_task(a).unwrap_err(), StoreError::NotFound);
    assert_eq!(store.add_annotation(a, String::from("late")), Err(StoreError::NotFound));
    assert_eq!(store.get_task(b).unwrap().annotations, texts(&["b1"]));
}

#[test]
fn delete_of_missing_task_is_not_found() {
    let mut store = Store::new();
    store.create_task(String::from("a"), at(1), vec![]).unwrap();
    store.take_pending();
    assert_eq!(store.delete_task(7), Err(StoreError::NotFound));
    assert!(store.take_pending().is_empty());
    assert_eq!(ids(&store), vec![1]);
}

#[test]
fn creation_with_empty_annotation_creates_nothing() {
    let mut store = Store::new();
    store.create_task(String::from("keep"), at(1), vec![]).unwrap();
    store.take_pending();
    let r = store.create_task(String::from("valid"), at(2), texts(&["fine", ""]));
    assert_eq!(r, Err(StoreError::Validation));
    assert_eq!(ids(&store), vec![1]);
    assert!(store.take_pending().is_empty());
    assert_eq!(store.create_task(String::from("next"), at(3), vec![]), Ok(2));
}

#[test]
fn creation_with_invalid_instant_is_refused() {
    let mut store = Store::new();
    let bad = Instant { secs: 1, nanos: 1_000_000_000 };
    assert_eq!(store.create_task(String::from("a"), bad, vec![]), Err(StoreError::Validation));
    assert!(store.list_tasks().is_empty());
}

#[test]
fn empty_annotation_is_refused() {
    let mut store = Store::new();
    store.create_task(String::from("a"), at(1), vec![]).unwrap();
    assert_eq!(store.add_annotation(1, String::new()), Err(StoreError::Validation));
    assert!(store.get_task(1).unwrap().annotations.is_empty());
}

#[test]
fn ids_increase_across_deletes() {
    let mut store = Store::new();
    let a = store.create_task(String::from("a"), at(1), vec![]).unwrap();
    let b = store.create_task(String::from("b"), at(2), vec![]).unwrap();
    store.delete_task(b).unwrap();
    let c = store.create_task(String::from("c"), at(3), vec![]).unwrap();
    store.delete_task(a).unwrap();
    store.delete_task(c).unwrap();
    let d = store.create_task(String::from("d"), at(4), vec![]).unwrap();
    assert_eq!(vec![a, b, c, d], vec![1, 2, 3, 4]);
}

#[test]
fn listing_and_annotations_are_ordered() {
    let mut store = Store::new();
    for name in ["one", "two", "three"].iter() {
        store.create_task(String::from(*name), at(10), vec![]).unwrap();
    }
    store.delete_task(2).unwrap();
    store.create_task(String::from("four"), at(11), vec![]).unwrap();
    assert_eq!(ids(&store), vec![1, 3, 4]);
    store.add_annotation(3, String::from("first")).unwrap();
    store.add_annotation(1, String::from("other")).unwrap();
    store.add_annotation(3, String::from("second")).unwrap();
    assert_eq!(store.get_task(3).unwrap().annotations, texts(&["first", "second"]));
}

#[test]
fn annotation_ids_continue_across_tasks() {
    let mut store = Store::new();
    store.create_task(String::from("a"), at(1), texts(&["x", "y"])).unwrap();
    assert_eq!(store.add_annotation(1, String::from("z")), Ok(3));
}

#[test]
fn pending_changes_describe_each_write() {
    let mut store = Store::new();
    let t = at(1_700_000_000);
    store.create_task(String::from("write report"), t, texts(&["draft"])).unwrap();
    store.delete_task(1).unwrap();
    let changes = store.take_pending();
    assert_eq!(changes.len(), 3);
    match &changes[0] {
        Change::InsertTask(row) => {
            assert_eq!(row.id, 1);
            assert_eq!(row.description, "write report");
            assert_eq!(row.created, t);
        }
        other => panic!("unexpected change {:?}", other),
    }
    match &changes[1] {
        Change::InsertAnnotation(row) => {
            assert_eq!((row.id, row.task_id), (1, 1));
            assert_eq!(row.description, "draft");
        }
        other => panic!("unexpected change {:?}", other),
    }
    match &changes[2] {
        Change::DeleteTask(id) => assert_eq!(*id, 1),
        other => panic!("unexpected change {:?}", other),
    }
    assert!(store.take_pending().is_empty());
}

fn stored(id: i64, description: &str, secs: i64) -> StoredTask {
    StoredTask { id, description: String::from(description), created: at(secs).to_stamp() }
}

fn note(id: i64, task_id: i64, description: &str) -> AnnotationRow {
    AnnotationRow { id, task_id, description: String::from(description) }
}

#[test]
fn load_rebuilds_the_store() {
    let tasks = vec![stored(2, "b", 20), stored(5, "e", 50)];
    let notes = vec![note(1, 5, "e1"), note(4, 2, "b1"), note(6, 5, "e2")];
    let mut store = Store::load(tasks, notes, 7, 9).unwrap();
    assert_eq!(ids(&store), vec![2, 5]);
    let e = store.get_task(5).unwrap();
    assert_eq!(e.created, at(50));
    assert_eq!(e.annotations, texts(&["e1", "e2"]));
    assert!(store.take_pending().is_empty());
    assert_eq!(store.create_task(String::from("f"), at(60), texts(&["f1"])), Ok(8));
    assert_eq!(store.add_annotation(8, String::from("f2")), Ok(11));
}

#[test]
fn load_of_nothing_is_an_empty_store() {
    let mut store = Store::load(vec![], vec![], 0, 0).unwrap();
    assert!(store.list_tasks().is_empty());
    assert_eq!(store.create_task(String::from("a"), at(1), vec![]), Ok(1));
}

fn unreadable(id: i64, description: &str) -> StoredTask {
    StoredTask {
        id,
        description: String::from(description),
        created: b"Tue, 1 Jul 2003 10:52:37 +0000".to_vec(),
    }
}

#[test]
fn load_sets_unreadable_instant_aside() {
    let tasks = vec![stored(1, "a", 10), unreadable(2, "b"), stored(3, "c", 30)];
    let notes = vec![note(1, 1, "a1"), note(2, 2, "b1"), note(3, 3, "c1")];
    let store = Store::load(tasks, notes, 3, 3).unwrap();
    assert_eq!(ids(&store), vec![1, 3]);
    assert_eq!(store.unreadable_tasks(), vec![2]);
    assert_eq!(store.get_task(2).unwrap_err(), StoreError::CorruptData);
    let c = store.get_task(3).unwrap();
    assert_eq!(c.created, at(30));
    assert_eq!(c.annotations, texts(&["c1"]));
    assert_eq!(store.get_task(1).unwrap().annotations, texts(&["a1"]));
    assert_eq!(store.get_task(4).unwrap_err(), StoreError::NotFound);
}

#[test]
fn unreadable_task_cannot_be_annotated_but_can_be_deleted() {
    let tasks = vec![unreadable(1, "a"), stored(2, "b", 20)];
    let mut store = Store::load(tasks, vec![note(1, 1, "a1")], 2, 1).unwrap();
    assert_eq!(store.add_annotation(1, String::from("x")), Err(StoreError::CorruptData));
    assert!(store.take_pending().is_empty());
    assert_eq!(store.delete_task(1), Ok(()));
    assert!(store.unreadable_tasks().is_empty());
    assert_eq!(store.get_task(1).unwrap_err(), StoreError::NotFound);
    assert_eq!(store.delete_task(1), Err(StoreError::NotFound));
    let changes = store.take_pending();
    assert_eq!(changes.len(), 1);
    match &changes[0] {
        Change::DeleteTask(id) => assert_eq!(*id, 1),
        other => panic!("unexpected change {:?}", other),
    }
    assert_eq!(ids(&store), vec![2]);
    assert_eq!(store.create_task(String::from("c"), at(30), vec![]), Ok(3));
}

#[test]
fn load_rejects_unreadable_row_clashing_with_a_task() {
    let tasks = vec![stored(1, "a", 10), unreadable(1, "dup")];
    assert_eq!(Store::load(tasks, vec![], 1, 0).unwrap_err(), StoreError::CorruptData);
    let beyond_last = vec![unreadable(5, "late")];
    assert_eq!(Store::load(beyond_last, vec![], 4, 0).unwrap_err(), StoreError::CorruptData);
}

#[test]
fn load_rejects_orphan_annotation() {
    let tasks = vec![stored(1, "a", 1)];
    let notes = vec![note(1, 2, "orphan")];
    assert_eq!(Store::load(tasks, notes, 2, 1).unwrap_err(), StoreError::CorruptData);
}

#[test]
fn load_rejects_inconsistent_ids() {
    let unordered = vec![stored(2, "b", 1), stored(1, "a", 1)];
    assert_eq!(Store::load(unordered, vec![], 2, 0).unwrap_err(), StoreError::CorruptData);
    let beyond_last = vec![stored(3, "c", 1)];
    assert_eq!(Store::load(beyond_last, vec![], 2, 0).unwrap_err(), StoreError::CorruptData);
    let empty_text = vec![stored(1, "", 1)];
    assert_eq!(Store::load(empty_text, vec![], 1, 0).unwrap_err(), StoreError::CorruptData);
    assert_eq!(Store::load(vec![], vec![], -1, 0).unwrap_err(), StoreError::CorruptData);
}

#[test]
fn load_with_ids_used_up() {
    assert_eq!(Store::load(vec![], vec![], i64::MAX, 0).unwrap_err(), StoreError::IdsExhausted);
    assert_eq!(Store::load(vec![], vec![], 0, i64::MAX).unwrap_err(), StoreError::IdsExhausted);
}

#[test]
fn creation_when_ids_are_used_up() {
    let mut store = Store::load(vec![], vec![], i64::MAX - 1, 0).unwrap();
    assert_eq!(store.create_task(String::from("a"), at(1), vec![]), Err(StoreError::IdsExhausted));
    let mut store = Store::load(vec![stored(1, "a", 1)], vec![], 1, i64::MAX - 2).unwrap();
    assert_eq!(store.create_task(String::from("b"), at(1), texts(&["x", "y"])), Err(StoreError::IdsExhausted));
    assert_eq!(store.create_task(String::from("b"), at(1), texts(&["x"])), Ok(2));
    assert_eq!(store.add_annotation(2, String::from("y")), Err(StoreError::IdsExhausted));
    assert!(store.contains_task(2));
}

#[test]
fn created_instant_survives_later_operations() {
    let mut store = Store::new();
    let exact = Instant::new(1_700_000_000, 123_456_789).unwrap();
    let other = store.create_task(String::from("other"), at(1), texts(&["o1"])).unwrap();
    let x = store.create_task(String::from("keep me"), exact, texts(&["k1"])).unwrap();
    store.add_annotation(other, String::from("o2")).unwrap();
    store.create_task(String::from("later"), at(2), vec![]).unwrap();
    store.delete_task(other).unwrap();
    store.add_annotation(x, String::from("k2")).unwrap();
    let t = store.get_task(x).unwrap();
    assert_eq!((t.id, t.description.as_str(), t.created), (x, "keep me", exact));
    assert_eq!(t.annotations, texts(&["k1", "k2"]));
    let listed = store.list_tasks();
    let entry = listed.iter().find(|t| t.id == x).unwrap();
    assert_eq!(entry.created, exact);
}
