use std::collections::HashMap;
use vstd::prelude::*;

verus! {

/// A live task: who owns it and its current priority.
#[derive(Debug, Clone, Copy)]
pub struct Task {
    priority: i32,
    user_id: i32,
}

/// An entry of the pending queue: a task id with the priority it had when
/// the entry was made. An entry whose priority no longer matches its task,
/// or whose task is gone, is stale and skipped when it surfaces.
#[derive(Debug, Clone, Copy)]
pub struct QueueItem {
    priority: i32,
    task_id: i32,
}

/// `(p1, t1)` comes before or together with `(p2, t2)` when executing:
/// higher priority first, and among equal priorities the higher task id.
pub open spec fn ranks_over(p1: i32, t1: i32, p2: i32, t2: i32) -> bool {
    p1 > p2 || (p1 == p2 && t1 >= t2)
}

/// `t` is the task to execute next among the live tasks `m`, which map a
/// task id to its (user id, priority).
pub open spec fn is_top(m: Map<i32, (i32, i32)>, t: i32) -> bool {
    &&& m.contains_key(t)
    &&& forall|t2: i32| #[trigger]
        m.contains_key(t2) ==> ranks_over(m[t].1, t, m[t2].1, t2)
}

/// The live tasks after adding each row `[user_id, task_id, priority]` in
/// turn; a later row with the same task id replaces an earlier one.
pub open spec fn tasks_from(rows: Seq<Vec<i32>>) -> Map<i32, (i32, i32)>
    decreases rows.len(),
{
    if rows.len() == 0 {
        Map::empty()
    } else {
        let r = rows.last()@;
        tasks_from(rows.drop_last()).insert(r[1], (r[0], r[2]))
    }
}

spec fn has_entry(q: Seq<QueueItem>, p: i32, t: i32) -> bool {
    exists|i: int| 0 <= i < q.len() && q[i].priority == p && q[i].task_id == t
}

/// Live tasks keyed by id, with a queue of (priority, task id) entries from
/// which the highest-ranked live task is executed first.
#[derive(Debug)]
pub struct TaskManager {
    tasks: HashMap<i32, Task>,
    queue: Vec<QueueItem>,
}

impl View for TaskManager {
    type V = Map<i32, (i32, i32)>;

    /// Live task ids, each with its (user id, priority).
    closed spec fn view(&self) -> Map<i32, (i32, i32)> {
        Map::new(
            |t: i32| self.tasks@.contains_key(t),
            |t: i32| (self.tasks@[t].user_id, self.tasks@[t].priority),
        )
    }
}

/// Index of a highest-ranked entry of a non-empty queue.
fn top_index(q: &Vec<QueueItem>) -> (idx: usize)
    requires
        q@.len() > 0,
    ensures
        idx < q@.len(),
        forall|j: int|
            0 <= j < q@.len() ==> ranks_over(
                q@[idx as int].priority,
                q@[idx as int].task_id,
                q@[j].priority,
                q@[j].task_id,
            ),
{
    let mut best: usize = 0;
    let mut i: usize = 1;
    while i < q.len()
        invariant
            best < i <= q@.len(),
            forall|j: int|
                0 <= j < i ==> ranks_over(
                    q@[best as int].priority,
                    q@[best as int].task_id,
                    q@[j].priority,
                    q@[j].task_id,
                ),
        decreases q@.len() - i,
    {
        if q[i].priority > q[best].priority || (q[i].priority == q[best].priority
            && q[i].task_id > q[best].task_id) {
            best = i;
        }
        i += 1;
    }
    best
}

impl TaskManager {
    /// Every live task has a queue entry carrying its current priority.
    pub closed spec fn wf(&self) -> bool {
        forall|t: i32| #[trigger]
            self.tasks@.contains_key(t) ==> has_entry(self.queue@, self.tasks@[t].priority, t)
    }

    /// Builds a manager from rows `[user_id, task_id, priority]`.
    pub fn new(initial_tasks: Vec<Vec<i32>>) -> (r: TaskManager)
        requires
            forall|i: int| 0 <= i < initial_tasks@.len() ==> #[trigger] initial_tasks@[i]@.len() >= 3,
        ensures
            r.wf(),
            r@ == tasks_from(initial_tasks@),
    {
        let mut r = TaskManager { tasks: HashMap::new(), queue: Vec::new() };
        proof {
            assert(initial_tasks@.take(0) =~= Seq::<Vec<i32>>::empty());
            assert(r@ =~= Map::<i32, (i32, i32)>::empty());
        }
        let mut i: usize = 0;
        while i < initial_tasks.len()
            invariant
                i <= initial_tasks@.len(),
                forall|j: int| 0 <= j < initial_tasks@.len() ==> #[trigger] initial_tasks@[j]@.len() >= 3,
                r.wf(),
                r@ == tasks_from(initial_tasks@.take(i as int)),
            decreases initial_tasks@.len() - i,
        {
            let row = &initial_tasks[i];
            assert(row@.len() >= 3);
            r.add(row[0], row[1], row[2]);
            proof {
                assert(initial_tasks@.take(i as int + 1).drop_last() =~= initial_tasks@.take(i as int));
            }
            i += 1;
        }
        proof {
            assert(initial_tasks@.take(i as int) =~= initial_tasks@);
        }
        r
    }

    /// Adds (or replaces) task `task_id` owned by `user_id`.
    pub fn add(&mut self, user_id: i32, task_id: i32, priority: i32)
        requires
            old(self).wf(),
        ensures
            final(self).wf(),
            final(self)@ == old(self)@.insert(task_id, (user_id, priority)),
    {
        self.tasks.insert(task_id, Task { priority, user_id });
        self.queue.push(QueueItem { priority, task_id });
        proof {
            let q = self.queue@;
            assert forall|t: i32| #[trigger] self.tasks@.contains_key(t) implies has_entry(
                q,
                self.tasks@[t].priority,
                t,
            ) by {
                if t == task_id {
                    assert(q[q.len() - 1].task_id == t);
                } else {
                    let i = choose|i: int|
                        0 <= i < old(self).queue@.len() && old(self).queue@[i].priority
                            == self.tasks@[t].priority && old(self).queue@[i].task_id == t;
                    assert(q[i] == old(self).queue@[i]);
                }
            }
            assert(self@ =~= old(self)@.insert(task_id, (user_id, priority)));
        }
    }

    /// Gives a live task a new priority; does nothing for an unknown id.
    pub fn edit(&mut self, task_id: i32, new_priority: i32)
        requires
            old(self).wf(),
        ensures
            final(self).wf(),
            final(self)@ == if old(self)@.contains_key(task_id) {
                old(self)@.insert(task_id, (old(self)@[task_id].0, new_priority))
            } else {
                old(self)@
            },
    {
        let found = match self.tasks.get(&task_id) {
            Some(task) => Some(task.user_id),
            None => None,
        };
        if let Some(user_id) = found {
            self.add(user_id, task_id, new_priority);
        }
    }

    /// Drops a task; its queue entries become stale.
    pub fn rmv(&mut self, task_id: i32)
        requires
            old(self).wf(),
        ensures
            final(self).wf(),
            final(self)@ == old(self)@.remove(task_id),
    {
        self.tasks.remove(&task_id);
        proof {
            assert(self@ =~= old(self)@.remove(task_id));
        }
    }

    /// Executes and drops the highest-ranked live task, returning its user
    /// id, or returns -1 when no task is live.
    pub fn exec_top(&mut self) -> (r: i32)
        requires
            old(self).wf(),
        ensures
            final(self).wf(),
            old(self)@.dom().len() == 0 ==> r == -1 && final(self)@ == old(self)@,
            old(self)@.dom().len() > 0 ==> exists|t: i32|
                is_top(old(self)@, t) && r == old(self)@[t].0 && final(self)@ == old(self)@.remove(t),
    {
        let ghost m0 = self@;
        while self.queue.len() > 0
            invariant
                self.wf(),
                self@ == m0,
                m0 == old(self)@,
            decreases self.queue@.len(),
        {
            let idx = top_index(&self.queue);
            let ghost q = self.queue@;
            let item = self.queue.remove(idx);
            let live = match self.tasks.get(&item.task_id) {
                Some(task) => if task.priority == item.priority {
                    Some(task.user_id)
                } else {
                    None
                },
                None => None,
            };
            match live {
                Some(user_id) => {
                    let ghost tasks0 = self.tasks@;
                    self.tasks.remove(&item.task_id);
                    proof {
                        let t = item.task_id;
                        assert forall|t2: i32| #[trigger] m0.contains_key(t2) implies ranks_over(
                            m0[t].1,
                            t,
                            m0[t2].1,
                            t2,
                        ) by {
                            assert(tasks0.contains_key(t2));
                            let j = choose|j: int|
                                0 <= j < q.len() && q[j].priority == m0[t2].1 && q[j].task_id == t2;
                            assert(ranks_over(q[idx as int].priority, q[idx as int].task_id, q[j].priority, q[j].task_id));
                        }
                        assert(self@ =~= m0.remove(t));
                        self.lemma_keeps_entries(q, idx as int);
                        assert(m0.dom() =~= tasks0.dom());
                        assert(tasks0.dom().finite());
                        assert(m0.dom().contains(t));
                        assert(m0.dom().remove(t).len() + 1 == m0.dom().len());
                    }
                    return user_id;
                },
                None => {
                    proof {
                        self.lemma_keeps_entries(q, idx as int);
                    }
                },
            }
        }
        proof {
            assert(m0.dom() =~= Set::<i32>::empty()) by {
                if exists|t: i32| m0.dom().contains(t) {
                    let t = choose|t: i32| m0.dom().contains(t);
                    assert(self.tasks@.contains_key(t));
                }
            }
        }
        -1
    }

    /// Removing the entry at `idx` of `q` keeps an entry for every live task,
    /// as long as that entry is not the current one of a live task.
    proof fn lemma_keeps_entries(&self, q: Seq<QueueItem>, idx: int)
        requires
            0 <= idx < q.len(),
            self.queue@ == q.remove(idx),
            forall|t: i32| #[trigger]
                self.tasks@.contains_key(t) ==> has_entry(q, self.tasks@[t].priority, t),
            !(self.tasks@.contains_key(q[idx].task_id) && self.tasks@[q[idx].task_id].priority
                == q[idx].priority),
        ensures
            self.wf(),
    {
        assert forall|t: i32| #[trigger] self.tasks@.contains_key(t) implies has_entry(
            self.queue@,
            self.tasks@[t].priority,
            t,
        ) by {
            let j = choose|j: int|
                0 <= j < q.len() && q[j].priority == self.tasks@[t].priority && q[j].task_id == t;
            if j < idx {
                assert(self.queue@[j] == q[j]);
            } else {
                assert(j != idx);
                assert(self.queue@[j - 1] == q[j]);
            }
        }
    }
}

} // verus!
