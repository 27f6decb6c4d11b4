use todo_store::store::Store;
use todo_store::todo::{Status, Todo};

fn status_name(s: Status) -> &'static str {
    match s {
        Status::ACTIVE => "ACTIVE",
        Status::DONE => "DONE",
    }
}

/// The collection as (id, text, status) triples, ordered by id, so that two
/// listings can be compared regardless of iteration order.
fn sorted(v: &[Todo]) -> Vec<(u32, String, &'static str)> {
    let mut out: Vec<(u32, String, &'static str)> = v
        .iter()
        .map(|t| (t.id.unwrap(), t.text.clone(), status_name(t.status)))
        .collect();
    out.sort();
    out
}

#[test]
fn create_on_empty_store_assigns_id_one() {
    let mut store = Store::new();
    let result = store.create(String::from("Eat Pizza"), Status::ACTIVE);
    assert_eq!(result.len(), 1);
    assert_eq!(result[0].id, Some(1));
    assert_eq!(result[0].text, "Eat Pizza");
    assert_eq!(result[0].status, Status::ACTIVE);
}

#[test]
fn list_returns_seeded_record() {
    let mut store = Store::new();
    store.update(1, String::from("Eat Pizza"), Status::ACTIVE);
    let result = store.list();
    assert_eq!(result.len(), 1);
    assert_eq!(result[0].id, Some(1));
    assert_eq!(result[0].text, "Eat Pizza");
    assert_eq!(result[0].status, Status::ACTIVE);
}

#[test]
fn update_overwrites_in_place() {
    let mut store = Store::new();
    store.update(1, String::from("Eat Pizza"), Status::ACTIVE);
    let result = store.update(1, String::from("Sleep"), Status::DONE);
    assert_eq!(result.len(), 1);
    assert_eq!(result[0].id, Some(1));
    assert_eq!(result[0].text, "Sleep");
    assert_eq!(result[0].status, Status::DONE);
}

#[test]
fn delete_on_empty_store_is_a_noop() {
    let mut store = Store::new();
    let result = store.delete(5);
    assert!(result.is_empty());
    let result = store.list();
    assert!(result.is_empty());
}

#[test]
fn two_creates_assign_distinct_consecutive_ids() {
    let mut store = Store::new();
    store.create(String::from("A"), Status::ACTIVE);
    let result = store.create(String::from("B"), Status::ACTIVE);
    assert_eq!(result.len(), 2);
    let mut ids: Vec<u32> = result.iter().map(|t| t.id.unwrap()).collect();
    ids.sort();
    assert_eq!(ids, vec![1, 2]);
}

#[test]
fn many_creates_assign_consecutive_ids_from_the_counter() {
    let mut store = Store::new();
    assert_eq!(store.next_id(), 1);
    for i in 0..5u32 {
        let result = store.create(format!("task {}", i), Status::ACTIVE);
        assert_eq!(result.len(), (i + 1) as usize);
    }
    assert_eq!(store.next_id(), 6);
    let listing = sorted(&store.list());
    let ids: Vec<u32> = listing.iter().map(|e| e.0).collect();
    assert_eq!(ids, vec![1, 2, 3, 4, 5]);
}

#[test]
fn delete_twice_equals_delete_once() {
    let mut store = Store::new();
    store.create(String::from("keep"), Status::ACTIVE);
    store.create(String::from("drop"), Status::DONE);
    let once = store.delete(2);
    let twice = store.delete(2);
    assert_eq!(sorted(&once), sorted(&twice));
    assert_eq!(sorted(&once), vec![(1, String::from("keep"), "ACTIVE")]);
}

#[test]
fn update_of_absent_id_creates_the_record() {
    let mut store = Store::new();
    let result = store.update(7, String::from("surprise"), Status::DONE);
    assert_eq!(sorted(&result), vec![(7, String::from("surprise"), "DONE")]);
    // the same record a create would have produced with that identifier
    let mut other = Store::new();
    let created = other.create(String::from("surprise"), Status::DONE);
    assert_eq!(created[0].text, result[0].text);
    assert_eq!(created[0].status, result[0].status);
}

#[test]
fn create_overwrites_an_upserted_record_at_the_counter() {
    let mut store = Store::new();
    store.update(1, String::from("planted"), Status::DONE);
    let result = store.create(String::from("fresh"), Status::ACTIVE);
    assert_eq!(sorted(&result), vec![(1, String::from("fresh"), "ACTIVE")]);
    assert_eq!(store.next_id(), 2);
}

#[test]
fn counter_is_not_reused_after_delete() {
    let mut store = Store::new();
    store.create(String::from("first"), Status::ACTIVE);
    store.delete(1);
    let result = store.create(String::from("second"), Status::ACTIVE);
    assert_eq!(sorted(&result), vec![(2, String::from("second"), "ACTIVE")]);
}
