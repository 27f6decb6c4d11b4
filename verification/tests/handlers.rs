use todo_store::handlers::{handle, handle_all, Request};
use todo_store::store::Store;
use todo_store::todo::{Status, Todo};

fn entries(v: &[Todo]) -> Vec<(u32, String, bool)> {
    let mut out: Vec<(u32, String, bool)> = v
        .iter()
        .map(|t| (t.id.unwrap(), t.text.clone(), matches!(t.status, Status::DONE)))
        .collect();
    out.sort();
    out
}

#[test]
fn test_get() {
    let mut store = Store::new();
    store.update(1, String::from("Eat Pizza"), Status::ACTIVE);
    let result = handle(&mut store, &Request::List);
    assert_eq!(store.list()[0], result[0]);
}

#[test]
fn test_post() {
    let mut store = Store::new();
    let data = Todo {
        id: None,
        text: String::from("Sleep"),
        status: Status::ACTIVE,
    };
    let result = handle(
        &mut store,
        &Request::Create { text: data.text.clone(), status: data.status },
    );
    assert_eq!(data.text, result[0].text);
    assert_eq!(data.status, result[0].status);
    assert_eq!(data.text, store.list()[0].text);
    assert_eq!(data.status, store.list()[0].status);
}

#[test]
fn test_put() {
    let mut store = Store::new();
    store.update(1, String::from("Eat Pizza"), Status::ACTIVE);
    let data = Todo {
        id: Some(1),
        text: String::from("Sleep"),
        status: Status::DONE,
    };
    let result = handle(
        &mut store,
        &Request::Update { id: 1, text: data.text.clone(), status: data.status },
    );
    assert_eq!(data, result[0]);
    assert_eq!(data, store.list().remove(0));
}

#[test]
fn delete_request_removes_the_record() {
    let mut store = Store::new();
    handle(&mut store, &Request::Create { text: String::from("gone"), status: Status::ACTIVE });
    let result = handle(&mut store, &Request::Delete { id: 1 });
    assert!(result.is_empty());
}

#[test]
fn replay_of_a_mixed_sequence_lands_on_the_implied_state() {
    let mut store = Store::new();
    let script = vec![
        Request::Create { text: String::from("a"), status: Status::ACTIVE },
        Request::Create { text: String::from("b"), status: Status::DONE },
        Request::Update { id: 5, text: String::from("c"), status: Status::ACTIVE },
        Request::Delete { id: 1 },
        Request::Delete { id: 9 },
        Request::List,
    ];
    let result = handle_all(&mut store, &script);
    assert_eq!(
        entries(&result),
        vec![
            (2, String::from("b"), true),
            (5, String::from("c"), false),
        ]
    );
    assert_eq!(store.next_id(), 3);
    assert_eq!(entries(&store.list()), entries(&result));
}

#[test]
fn replay_of_an_empty_sequence_changes_nothing() {
    let mut store = Store::new();
    store.create(String::from("kept"), Status::ACTIVE);
    let result = handle_all(&mut store, &Vec::new());
    assert_eq!(entries(&result), vec![(1, String::from("kept"), false)]);
    assert_eq!(store.next_id(), 2);
}
