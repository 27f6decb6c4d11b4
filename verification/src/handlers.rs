//! Request dispatch: one inbound request becomes one store operation, and
//! every answer is the full resulting collection.
//!
//! The effect of an operation on the collection and the counter is captured
//! by [`apply_op`]; [`replay`] chains it over a whole sequence of
//! operations, and [`handle_all`] proves that executing the requests one by
//! one lands exactly on the replayed state.

use vstd::prelude::*;

use crate::store::{snapshot_of, Store};
use crate::todo::{stored, Status, Todo, TodoView};

verus! {

/// One operation on the collection, at the level of its mathematical model.
pub enum Op {
    List,
    Create { text: Seq<char>, status: Status },
    Update { id: u32, text: Seq<char>, status: Status },
    Delete { id: u32 },
}

/// One inbound request, as dispatched by method and path.
pub enum Request {
    /// `GET /v1/todo-list`.
    List,
    /// `POST /v1/todo-list` with body `{text, status}`.
    Create { text: String, status: Status },
    /// `PATCH /v1/todo-list/{id}` with body `{text, status}`.
    Update { id: u32, text: String, status: Status },
    /// `DELETE /v1/todo-list/{id}`.
    Delete { id: u32 },
}

impl View for Request {
    type V = Op;

    open spec fn view(&self) -> Op {
        match self {
            Request::List => Op::List,
            Request::Create { text, status } => Op::Create { text: text@, status: *status },
            Request::Update { id, text, status } => Op::Update {
                id: *id,
                text: text@,
                status: *status,
            },
            Request::Delete { id } => Op::Delete { id: *id },
        }
    }
}

/// The effect of one operation on collection `m` and counter `n`.
pub open spec fn apply_op(m: Map<u32, TodoView>, n: u32, op: Op) -> (Map<u32, TodoView>, u32) {
    match op {
        Op::List => (m, n),
        Op::Create { text, status } => (m.insert(n, stored(n, text, status)), (n + 1) as u32),
        Op::Update { id, text, status } => (m.insert(id, stored(id, text, status)), n),
        Op::Delete { id } => (m.remove(id), n),
    }
}

/// The state reached by replaying `ops`, in order, from collection `m` and
/// counter `n`.
pub open spec fn replay(m: Map<u32, TodoView>, n: u32, ops: Seq<Op>) -> (Map<u32, TodoView>, u32)
    decreases ops.len(),
{
    if ops.len() == 0 {
        (m, n)
    } else {
        let prev = replay(m, n, ops.drop_last());
        apply_op(prev.0, prev.1, ops.last())
    }
}

/// How many operations of `ops` create a record (each one advances the
/// counter once).
pub open spec fn n_creates(ops: Seq<Op>) -> nat
    decreases ops.len(),
{
    if ops.len() == 0 {
        0nat
    } else {
        n_creates(ops.drop_last()) + if ops.last() is Create {
            1nat
        } else {
            0nat
        }
    }
}

proof fn lemma_n_creates_take_le(ops: Seq<Op>, i: int)
    requires
        0 <= i <= ops.len(),
    ensures
        n_creates(ops.take(i)) <= n_creates(ops),
    decreases ops.len() - i,
{
    if i == ops.len() {
        assert(ops.take(i) =~= ops);
    } else {
        lemma_n_creates_take_le(ops, i + 1);
        assert(ops.take(i + 1).drop_last() =~= ops.take(i));
        assert(ops.take(i + 1).last() == ops[i]);
    }
}

/// The counter is monotonic and never reused: replaying `ops` moves it up by
/// exactly the number of creates among them.
pub proof fn lemma_replay_counter(m: Map<u32, TodoView>, n: u32, ops: Seq<Op>)
    requires
        n + n_creates(ops) <= u32::MAX,
    ensures
        replay(m, n, ops).1 == n + n_creates(ops),
    decreases ops.len(),
{
    if ops.len() > 0 {
        lemma_replay_counter(m, n, ops.drop_last());
    }
}

/// Dispatch one request to the store, answering with the full resulting
/// collection, as every handler does.
pub fn handle(store: &mut Store, req: &Request) -> (r: Vec<Todo>)
    requires
        old(store).wf(),
        req@ is Create ==> old(store).counter() < u32::MAX,
    ensures
        final(store).wf(),
        (final(store).todos(), final(store).counter()) == apply_op(
            old(store).todos(),
            old(store).counter(),
            req@,
        ),
        snapshot_of(r@, final(store).todos()),
{
    match req {
        Request::List => store.list(),
        Request::Create { text, status } => store.create(text.clone(), *status),
        Request::Update { id, text, status } => store.update(*id, text.clone(), *status),
        Request::Delete { id } => store.delete(*id),
    }
}

/// The collection reflects the state: executing a whole sequence of
/// requests, in order, leaves the store in exactly the state implied by
/// replaying that sequence (upsert and no-op-delete semantics applied in
/// order), and the answer lists that state.
pub fn handle_all(store: &mut Store, reqs: &Vec<Request>) -> (r: Vec<Todo>)
    requires
        old(store).wf(),
        old(store).counter() + n_creates(reqs@.map_values(|rq: Request| rq@)) <= u32::MAX,
    ensures
        final(store).wf(),
        (final(store).todos(), final(store).counter()) == replay(
            old(store).todos(),
            old(store).counter(),
            reqs@.map_values(|rq: Request| rq@),
        ),
        snapshot_of(r@, final(store).todos()),
{
    let ghost ops = reqs@.map_values(|rq: Request| rq@);
    let ghost m0 = old(store).todos();
    let ghost n0 = old(store).counter();
    let n = reqs.len();
    proof {
        assert(ops.take(0).len() == 0);
    }
    let mut i: usize = 0;
    while i < n
        invariant
            n == reqs@.len(),
            i <= n,
            ops == reqs@.map_values(|rq: Request| rq@),
            store.wf(),
            n0 + n_creates(ops) <= u32::MAX,
            (store.todos(), store.counter()) == replay(m0, n0, ops.take(i as int)),
        decreases n - i,
    {
        proof {
            assert(ops[i as int] == reqs@[i as int]@);
            assert(ops.take(i + 1).drop_last() =~= ops.take(i as int));
            assert(ops.take(i + 1).last() == ops[i as int]);
            lemma_n_creates_take_le(ops, i as int);
            lemma_n_creates_take_le(ops, i + 1);
            lemma_replay_counter(m0, n0, ops.take(i as int));
        }
        handle(store, &reqs[i]);
        i += 1;
    }
    proof {
        assert(ops.take(n as int) =~= ops);
    }
    store.list()
}

} // verus!
