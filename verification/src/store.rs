//! The task store: tasks with unique, monotonically assigned ids, and the
//! four mutators add / edit / delete / mark-complete.

use vstd::prelude::*;

verus! {

/// A single to-do item: identity, text, completion status.
pub struct Task {
    pub id: usize,
    pub description: String,
    pub completed: bool,
}

/// Mathematical model of a task.
#[verifier::ext_equal]
pub struct TaskModel {
    pub id: usize,
    pub description: Seq<char>,
    pub completed: bool,
}

impl View for Task {
    type V = TaskModel;

    open spec fn view(&self) -> TaskModel {
        TaskModel { id: self.id, description: self.description@, completed: self.completed }
    }
}

/// Mathematical model of the whole store.
#[verifier::ext_equal]
pub struct StoreModel {
    pub tasks: Seq<TaskModel>,
    pub next_id: usize,
}

impl StoreModel {
    /// The store invariant: ids strictly increase along the sequence (so they
    /// are unique) and every id lies strictly below the `next_id` counter.
    pub open spec fn wf(self) -> bool {
        &&& forall|i: int, j: int|
            0 <= i < j < self.tasks.len() ==> self.tasks[i].id < self.tasks[j].id
        &&& forall|i: int| 0 <= i < self.tasks.len() ==> self.tasks[i].id < self.next_id
    }

    /// The empty store: no tasks, counter at zero.
    pub open spec fn empty() -> StoreModel {
        StoreModel { tasks: Seq::empty(), next_id: 0 }
    }
}

/// What `add` does: append a fresh task carrying the current counter value,
/// not completed, and step the counter.
pub open spec fn spec_add(m: StoreModel, description: Seq<char>) -> StoreModel
    recommends
        m.next_id < usize::MAX,
{
    StoreModel {
        tasks: m.tasks.push(TaskModel { id: m.next_id, description, completed: false }),
        next_id: (m.next_id + 1) as usize,
    }
}

/// First position at or after `i` whose task carries `id`; `tasks.len()` if none.
pub open spec fn find_index_from(tasks: Seq<TaskModel>, id: usize, i: int) -> int
    recommends
        0 <= i <= tasks.len(),
    decreases tasks.len() - i,
        when 0 <= i <= tasks.len()
{
    if i >= tasks.len() {
        tasks.len() as int
    } else if tasks[i].id == id {
        i
    } else {
        find_index_from(tasks, id, i + 1)
    }
}

/// First position carrying `id`, or `tasks.len()` if no task does.
pub open spec fn find_index(tasks: Seq<TaskModel>, id: usize) -> int {
    find_index_from(tasks, id, 0)
}

/// What `edit` does: replace the description of the first task carrying `id`;
/// leave the store unchanged if no task does.
pub open spec fn spec_edit(m: StoreModel, id: usize, description: Seq<char>) -> StoreModel {
    let i = find_index(m.tasks, id);
    if i < m.tasks.len() {
        StoreModel { tasks: m.tasks.update(i, TaskModel { description, ..m.tasks[i] }), ..m }
    } else {
        m
    }
}

/// What `mark_completed` does: set the completion flag of the first task
/// carrying `id`; leave the store unchanged if no task does.
pub open spec fn spec_mark(m: StoreModel, id: usize) -> StoreModel {
    let i = find_index(m.tasks, id);
    if i < m.tasks.len() {
        StoreModel { tasks: m.tasks.update(i, TaskModel { completed: true, ..m.tasks[i] }), ..m }
    } else {
        m
    }
}

/// The task sequence with every task carrying `id` removed, order kept.
pub open spec fn remove_id(tasks: Seq<TaskModel>, id: usize) -> Seq<TaskModel>
    decreases tasks.len(),
{
    if tasks.len() == 0 {
        tasks
    } else if tasks.last().id == id {
        remove_id(tasks.drop_last(), id)
    } else {
        remove_id(tasks.drop_last(), id).push(tasks.last())
    }
}

/// What `delete` does: drop every task carrying `id`; the counter is kept.
pub open spec fn spec_delete(m: StoreModel, id: usize) -> StoreModel {
    StoreModel { tasks: remove_id(m.tasks, id), next_id: m.next_id }
}

/// `find_index_from` really is the first match: everything before it differs
/// from `id`, and the position it names (if in range) carries `id`.
pub proof fn lemma_find_index_from(tasks: Seq<TaskModel>, id: usize, i: int)
    requires
        0 <= i <= tasks.len(),
    ensures
        i <= find_index_from(tasks, id, i) <= tasks.len(),
        find_index_from(tasks, id, i) < tasks.len() ==> tasks[find_index_from(
            tasks,
            id,
            i,
        )].id == id,
        forall|k: int| i <= k < find_index_from(tasks, id, i) ==> tasks[k].id != id,
    decreases tasks.len() - i,
{
    if i < tasks.len() && tasks[i].id != id {
        lemma_find_index_from(tasks, id, i + 1);
    }
}

/// Nothing in `remove_id(tasks, id)` carries `id`.
pub proof fn lemma_remove_id_absent(tasks: Seq<TaskModel>, id: usize)
    ensures
        forall|k: int|
            0 <= k < remove_id(tasks, id).len() ==> #[trigger] remove_id(tasks, id)[k].id != id,
    decreases tasks.len(),
{
    if tasks.len() > 0 {
        lemma_remove_id_absent(tasks.drop_last(), id);
        let r0 = remove_id(tasks.drop_last(), id);
        if tasks.last().id == id {
            assert(remove_id(tasks, id) == r0);
        } else {
            assert(remove_id(tasks, id) == r0.push(tasks.last()));
            assert(forall|k: int|
                0 <= k < remove_id(tasks, id).len() - 1 ==> #[trigger] remove_id(tasks, id)[k]
                    == r0[k]);
            assert(remove_id(tasks, id).last() == tasks.last());
        }
    }
}

/// `remove_id` keeps ids strictly increasing and inside any bounds they
/// already respected.
proof fn lemma_remove_id_ordered(tasks: Seq<TaskModel>, id: usize, lo: int, hi: int)
    requires
        forall|i: int, j: int| 0 <= i < j < tasks.len() ==> tasks[i].id < tasks[j].id,
        forall|i: int| 0 <= i < tasks.len() ==> lo <= #[trigger] tasks[i].id < hi,
    ensures
        forall|i: int, j: int|
            0 <= i < j < remove_id(tasks, id).len() ==> remove_id(tasks, id)[i].id < remove_id(
                tasks,
                id,
            )[j].id,
        forall|i: int|
            0 <= i < remove_id(tasks, id).len() ==> lo <= #[trigger] remove_id(tasks, id)[i].id
                < hi,
    decreases tasks.len(),
{
    if tasks.len() > 0 {
        let last = tasks.last();
        assert(last == tasks[tasks.len() - 1]);
        assert(lo <= last.id < hi);
        assert(forall|i: int|
            0 <= i < tasks.drop_last().len() ==> #[trigger] tasks.drop_last()[i].id
                < last.id as int);
        lemma_remove_id_ordered(tasks.drop_last(), id, lo, last.id as int);
        let r0 = remove_id(tasks.drop_last(), id);
        if last.id == id {
            assert(remove_id(tasks, id) == r0);
        } else {
            assert(remove_id(tasks, id) == r0.push(last));
            assert(forall|i: int| 0 <= i < r0.len() ==> lo <= #[trigger] r0[i].id < last.id as int);
            assert(forall|i: int|
                0 <= i < remove_id(tasks, id).len() - 1 ==> #[trigger] remove_id(tasks, id)[i]
                    == r0[i]);
            assert(remove_id(tasks, id).last() == last);
        }
    }
}

/// Law: `add` hands out exactly the counter value, which no current task
/// carries; the counter then strictly grows, and the store stays well formed.
/// Since every mutator keeps every id below the counter, ids assigned by
/// successive `add` calls strictly increase and never repeat.
pub proof fn lemma_add_assigns_fresh_id(m: StoreModel, description: Seq<char>)
    requires
        m.wf(),
        m.next_id < usize::MAX,
    ensures
        spec_add(m, description).wf(),
        spec_add(m, description).tasks.last().id == m.next_id,
        forall|i: int| 0 <= i < m.tasks.len() ==> #[trigger] m.tasks[i].id != m.next_id,
        spec_add(m, description).next_id == m.next_id + 1,
{
}

/// Law: `edit`, `mark_completed` and `delete` keep the store well formed and
/// never move the id counter, so ids stay fresh across any interleaving.
pub proof fn lemma_mutators_preserve_wf(m: StoreModel, id: usize, description: Seq<char>)
    requires
        m.wf(),
    ensures
        spec_edit(m, id, description).wf(),
        spec_edit(m, id, description).next_id == m.next_id,
        spec_mark(m, id).wf(),
        spec_mark(m, id).next_id == m.next_id,
        spec_delete(m, id).wf(),
        spec_delete(m, id).next_id == m.next_id,
{
    lemma_find_index_from(m.tasks, id, 0);
    lemma_remove_id_ordered(m.tasks, id, 0, m.next_id as int);
    let e = spec_edit(m, id, description);
    assert(forall|k: int| 0 <= k < e.tasks.len() ==> #[trigger] e.tasks[k].id == m.tasks[k].id);
    let c = spec_mark(m, id);
    assert(forall|k: int| 0 <= k < c.tasks.len() ==> #[trigger] c.tasks[k].id == m.tasks[k].id);
}

/// Law: after `delete(id)`, an `edit` or `mark_completed` of the same id is a
/// no-op — the task does not reappear and nothing else changes.
pub proof fn lemma_delete_then_edit_mark_noop(m: StoreModel, id: usize, description: Seq<char>)
    ensures
        spec_edit(spec_delete(m, id), id, description) == spec_delete(m, id),
        spec_mark(spec_delete(m, id), id) == spec_delete(m, id),
{
    let d = spec_delete(m, id);
    lemma_remove_id_absent(m.tasks, id);
    lemma_find_index_from(d.tasks, id, 0);
    assert(find_index(d.tasks, id) == d.tasks.len());
}

/// One store operation, as the shell issues them.
pub enum StoreOp {
    Add { description: Seq<char> },
    Edit { id: usize, description: Seq<char> },
    Delete { id: usize },
    MarkCompleted { id: usize },
}

/// The store after one operation.
pub open spec fn apply_op(m: StoreModel, op: StoreOp) -> StoreModel {
    match op {
        StoreOp::Add { description } => spec_add(m, description),
        StoreOp::Edit { id, description } => spec_edit(m, id, description),
        StoreOp::Delete { id } => spec_delete(m, id),
        StoreOp::MarkCompleted { id } => spec_mark(m, id),
    }
}

/// The store after a whole operation sequence.
pub open spec fn apply_ops(m: StoreModel, ops: Seq<StoreOp>) -> StoreModel
    decreases ops.len(),
{
    if ops.len() == 0 {
        m
    } else {
        apply_ops(apply_op(m, ops[0]), ops.drop_first())
    }
}

/// How many of the operations are adds.
pub open spec fn num_adds(ops: Seq<StoreOp>) -> nat
    decreases ops.len(),
{
    if ops.len() == 0 {
        0
    } else {
        (if ops[0] is Add {
            1nat
        } else {
            0nat
        }) + num_adds(ops.drop_first())
    }
}

/// The ids the adds in `ops` assign, in order, starting from store `m`.
pub open spec fn assigned_ids(m: StoreModel, ops: Seq<StoreOp>) -> Seq<usize>
    decreases ops.len(),
{
    if ops.len() == 0 {
        Seq::empty()
    } else if ops[0] is Add {
        seq![m.next_id] + assigned_ids(apply_op(m, ops[0]), ops.drop_first())
    } else {
        assigned_ids(apply_op(m, ops[0]), ops.drop_first())
    }
}

/// Law: over any operation sequence (with room left in the id counter), the
/// ids assigned by the adds strictly increase — so they never repeat, even
/// when deletes are interleaved — and the store stays well formed.
pub proof fn lemma_assigned_ids_strictly_increase(m: StoreModel, ops: Seq<StoreOp>)
    requires
        m.wf(),
        m.next_id + num_adds(ops) <= usize::MAX,
    ensures
        apply_ops(m, ops).wf(),
        apply_ops(m, ops).next_id <= m.next_id + num_adds(ops),
        forall|i: int|
            0 <= i < assigned_ids(m, ops).len() ==> #[trigger] assigned_ids(m, ops)[i]
                >= m.next_id,
        forall|i: int, j: int|
            0 <= i < j < assigned_ids(m, ops).len() ==> assigned_ids(m, ops)[i] < assigned_ids(
                m,
                ops,
            )[j],
    decreases ops.len(),
{
    if ops.len() > 0 {
        let m1 = apply_op(m, ops[0]);
        let rest = ops.drop_first();
        match ops[0] {
            StoreOp::Add { description } => {
                lemma_add_assigns_fresh_id(m, description);
            },
            StoreOp::Edit { id, description } => {
                lemma_mutators_preserve_wf(m, id, description);
            },
            StoreOp::Delete { id } => {
                lemma_mutators_preserve_wf(m, id, Seq::empty());
            },
            StoreOp::MarkCompleted { id } => {
                lemma_mutators_preserve_wf(m, id, Seq::empty());
            },
        }
        lemma_assigned_ids_strictly_increase(m1, rest);
        if ops[0] is Add {
            assert(assigned_ids(m, ops) == seq![m.next_id] + assigned_ids(m1, rest));
            assert(forall|i: int|
                0 <= i < assigned_ids(m1, rest).len() ==> #[trigger] assigned_ids(m1, rest)[i]
                    >= m1.next_id);
        }
    }
}

/// Law: `mark_completed` is idempotent — marking the same id twice yields
/// the same store as calling it once.
pub proof fn lemma_mark_completed_idempotent(m: StoreModel, id: usize)
    ensures
        spec_mark(spec_mark(m, id), id) == spec_mark(m, id),
{
    lemma_find_index_from(m.tasks, id, 0);
    let f = find_index(m.tasks, id);
    if f < m.tasks.len() {
        let m1 = spec_mark(m, id);
        assert(forall|k: int|
            0 <= k < m1.tasks.len() ==> #[trigger] m1.tasks[k].id == m.tasks[k].id);
        lemma_find_index_from(m1.tasks, id, 0);
        assert(find_index(m1.tasks, id) == f);
        let m2 = spec_mark(m1, id);
        assert(m1.tasks[f] == TaskModel { completed: true, ..m1.tasks[f] });
        assert(m2.tasks =~= m1.tasks);
        assert(m2 =~= m1);
    }
}

/// The in-memory store: the tasks in insertion order and the id counter.
pub struct TaskRepository {
    pub tasks: Vec<Task>,
    pub next_id: usize,
}

impl View for TaskRepository {
    type V = StoreModel;

    open spec fn view(&self) -> StoreModel {
        StoreModel { tasks: self.tasks@.map_values(|t: Task| t@), next_id: self.next_id }
    }
}

impl TaskRepository {
    /// A fresh, empty store.
    pub fn new() -> (r: TaskRepository)
        ensures
            r@ == StoreModel::empty(),
    {
        let r = TaskRepository { tasks: Vec::new(), next_id: 0 };
        proof {
            assert(r@.tasks =~= StoreModel::empty().tasks);
            assert(r@ =~= StoreModel::empty());
        }
        r
    }

    /// Append a new task with id = next_id, not completed; step the counter.
    pub fn add_task(&mut self, description: String)
        requires
            old(self).next_id < usize::MAX,
        ensures
            final(self)@ == spec_add(old(self)@, description@),
    {
        let ghost d = description@;
        let id = self.next_id;
        self.tasks.push(Task { id, description, completed: false });
        self.next_id = self.next_id + 1;
        proof {
            assert(self@.tasks =~= spec_add(old(self)@, d).tasks);
            assert(self@ =~= spec_add(old(self)@, d));
        }
    }

    /// Replace the description of the first task carrying `id`; silently a
    /// no-op when no task does.
    pub fn edit_task(&mut self, id: usize, description: String)
        ensures
            final(self)@ == spec_edit(old(self)@, id, description@),
    {
        let ghost m = old(self)@;
        let ghost d = description@;
        let n = self.tasks.len();
        let mut i: usize = 0;
        while i < n
            invariant
                *self == *old(self),
                m == old(self)@,
                n == self.tasks.len(),
                i <= n,
                description@ == d,
                forall|k: int| 0 <= k < i ==> m.tasks[k].id != id,
            decreases n - i,
        {
            if self.tasks[i].id == id {
                proof {
                    lemma_find_index_from(m.tasks, id, 0);
                    assert(m.tasks[i as int].id == id);
                    assert(find_index(m.tasks, id) == i);
                }
                self.tasks[i].description = description;
                proof {
                    assert(self@.tasks =~= spec_edit(m, id, d).tasks);
                    assert(self@ =~= spec_edit(m, id, d));
                }
                return ;
            }
            i = i + 1;
        }
        proof {
            lemma_find_index_from(m.tasks, id, 0);
            assert(find_index(m.tasks, id) == m.tasks.len());
            assert(self@ =~= spec_edit(m, id, d));
        }
    }

    /// Set the completion flag of the first task carrying `id`; silently a
    /// no-op when no task does. There is no inverse operation.
    pub fn mark_completed(&mut self, id: usize)
        ensures
            final(self)@ == spec_mark(old(self)@, id),
    {
        let ghost m = old(self)@;
        let n = self.tasks.len();
        let mut i: usize = 0;
        while i < n
            invariant
                *self == *old(self),
                m == old(self)@,
                n == self.tasks.len(),
                i <= n,
                forall|k: int| 0 <= k < i ==> m.tasks[k].id != id,
            decreases n - i,
        {
            if self.tasks[i].id == id {
                proof {
                    lemma_find_index_from(m.tasks, id, 0);
                    assert(m.tasks[i as int].id == id);
                    assert(find_index(m.tasks, id) == i);
                }
                self.tasks[i].completed = true;
                proof {
                    assert(self@.tasks =~= spec_mark(m, id).tasks);
                    assert(self@ =~= spec_mark(m, id));
                }
                return ;
            }
            i = i + 1;
        }
        proof {
            lemma_find_index_from(m.tasks, id, 0);
            assert(find_index(m.tasks, id) == m.tasks.len());
            assert(self@ =~= spec_mark(m, id));
        }
    }

    /// Remove every task carrying `id` (at most one in a well-formed store);
    /// silently a no-op when no task does.
    pub fn delete_task(&mut self, id: usize)
        ensures
            final(self)@ == spec_delete(old(self)@, id),
    {
        let ghost m = old(self)@;
        let mut pending: Vec<Task> = Vec::new();
        core::mem::swap(&mut self.tasks, &mut pending);
        let ghost pm = pending@;
        let n = pending.len();
        let mut j: usize = 0;
        proof {
            assert(m.tasks.take(0) =~= Seq::<TaskModel>::empty());
            assert(self@.tasks =~= remove_id(m.tasks.take(0), id));
            assert forall|k: int| 0 <= k < pm.len() implies pm[k]@ == m.tasks[k] by {
                assert(m.tasks[k] == pm.map_values(|t: Task| t@)[k]);
            }
        }
        while j < n
            invariant
                n == pm.len(),
                pm.len() == m.tasks.len(),
                j <= n,
                self.next_id == m.next_id,
                pending@ == pm.skip(j as int),
                forall|k: int| 0 <= k < pm.len() ==> pm[k]@ == m.tasks[k],
                self@.tasks == remove_id(m.tasks.take(j as int), id),
            decreases n - j,
        {
            let ghost pend_before = pending@;
            let ghost kept_before = self@.tasks;
            let t = pending.remove(0);
            proof {
                assert(t == pm.skip(j as int)[0]);
                assert(t@ == m.tasks[j as int]);
                assert(pending@ =~= pm.skip(j + 1));
                assert(m.tasks.take(j + 1).drop_last() =~= m.tasks.take(j as int));
                assert(m.tasks.take(j + 1).last() == m.tasks[j as int]);
            }
            if t.id != id {
                let ghost tm = t@;
                self.tasks.push(t);
                proof {
                    assert(self@.tasks =~= kept_before.push(tm));
                    assert(self@.tasks =~= remove_id(m.tasks.take(j + 1), id));
                }
            } else {
                proof {
                    assert(self@.tasks =~= remove_id(m.tasks.take(j + 1), id));
                }
            }
            j = j + 1;
        }
        proof {
            assert(m.tasks.take(n as int) =~= m.tasks);
            assert(self@.tasks =~= remove_id(m.tasks, id));
            assert(self@ =~= spec_delete(m, id));
        }
    }
}

} // verus!
