//! Laws of the collection that relate several operations, stated over the
//! mathematical model of [`crate::handlers::apply_op`] and
//! [`crate::handlers::replay`].

use vstd::prelude::*;

use crate::handlers::{apply_op, replay, Op};
use crate::todo::{stored, Status, TodoView};

verus! {

/// Uniqueness of creation: replaying any sequence of create operations
/// advances the counter once per create, and the identifiers assigned are
/// pairwise distinct consecutive integers starting from the counter's
/// initial value.  Each created record is present in the final collection
/// under the identifier it was assigned.
pub proof fn lemma_creates_unique(m: Map<u32, TodoView>, n: u32, ops: Seq<Op>)
    requires
        forall|i: int| 0 <= i < ops.len() ==> (#[trigger] ops[i]) is Create,
        n + ops.len() <= u32::MAX,
    ensures
        replay(m, n, ops).1 == n + ops.len(),
        forall|i: int, j: int|
            #![trigger (n + i) as u32, (n + j) as u32]
            0 <= i < ops.len() && 0 <= j < ops.len() && i != j ==> (n + i) as u32 != (n
                + j) as u32,
        forall|i: int|
            0 <= i < ops.len() ==> replay(m, n, ops).0.contains_key((n + i) as u32) && replay(
                m,
                n,
                ops,
            ).0[(n + i) as u32] == stored(
                (n + i) as u32,
                (#[trigger] ops[i])->Create_text,
                ops[i]->Create_status,
            ),
    decreases ops.len(),
{
    if ops.len() > 0 {
        let dl = ops.drop_last();
        assert(forall|i: int| 0 <= i < dl.len() ==> #[trigger] dl[i] == ops[i]);
        lemma_creates_unique(m, n, dl);
        let prev = replay(m, n, dl);
        let last = ops.last();
        assert(last is Create);
        assert(replay(m, n, ops).0 == prev.0.insert(
            (n + ops.len() - 1) as u32,
            stored((n + ops.len() - 1) as u32, last->Create_text, last->Create_status),
        ));
        assert forall|i: int| 0 <= i < ops.len() implies replay(m, n, ops).0.contains_key(
            (n + i) as u32,
        ) && replay(m, n, ops).0[(n + i) as u32] == stored(
            (n + i) as u32,
            ops[i]->Create_text,
            ops[i]->Create_status,
        ) by {
            assert((n + i) as u32 == n + i);
            assert((n + ops.len() - 1) as u32 == n + ops.len() - 1);
            if i < ops.len() - 1 {
                assert(dl[i] == ops[i]);
                assert(prev.0.contains_key((n + i) as u32));
                assert((n + i) as u32 != (n + ops.len() - 1) as u32);
            } else {
                assert(ops[i] == last);
            }
        }
    }
}

/// Idempotent delete: deleting the same identifier twice leaves exactly the
/// collection and counter that deleting it once leaves.
pub proof fn lemma_delete_idempotent(m: Map<u32, TodoView>, n: u32, id: u32)
    ensures
        apply_op(
            apply_op(m, n, Op::Delete { id }).0,
            apply_op(m, n, Op::Delete { id }).1,
            Op::Delete { id },
        ) == apply_op(m, n, Op::Delete { id }),
{
    assert(m.remove(id).remove(id) =~= m.remove(id));
}

/// Upsert on update: updating an identifier that is absent from the
/// collection produces a collection holding `{id, text, status}`, exactly
/// the collection a create would have produced had the counter stood at
/// `id`.
pub proof fn lemma_update_upserts(
    m: Map<u32, TodoView>,
    n: u32,
    id: u32,
    text: Seq<char>,
    status: Status,
)
    requires
        !m.contains_key(id),
    ensures
        apply_op(m, n, Op::Update { id, text, status }).0.contains_key(id),
        apply_op(m, n, Op::Update { id, text, status }).0[id] == stored(id, text, status),
        apply_op(m, n, Op::Update { id, text, status }).0 == apply_op(
            m,
            id,
            Op::Create { text, status },
        ).0,
{
}

} // verus!
