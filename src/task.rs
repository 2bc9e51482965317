use vstd::prelude::*;

verus! {

/// A task admitted under a key; `tag` tells apart successive tasks added
/// under the same key.
#[derive(Clone, Copy, Debug, PartialEq, Eq, Structural)]
pub struct TaskEntry {
    pub id: i32,
    pub tag: u64,
}

/// What the caller of the supervisor must do next.
#[derive(Clone, Copy, Debug, PartialEq, Eq, Structural)]
pub enum Action {
    /// Start the task with this tag now.
    Spawn(u64),
    /// Fire the cancellation of this running task.
    Cancel(u64),
    /// Fire the cancellation of this queued task and drop it unstarted.
    Discard(u64),
    /// Nothing runs and nothing waits: wake whoever joins.
    Idle,
}

/// Bounded-concurrency set of keyed tasks. Tasks beyond the cap wait in
/// FIFO order; a finished task makes room for the next one waiting.
pub struct TaskSet {
    max_concurrency: usize,
    running: usize,
    queue: Vec<u64>,
    tasks: Vec<TaskEntry>,
    next_tag: u64,
}

/// The state of a `TaskSet`.
pub struct TaskSetView {
    pub max: nat,
    pub running: nat,
    pub queue: Seq<u64>,
    pub tasks: Seq<TaskEntry>,
    pub next_tag: nat,
}

impl View for TaskSet {
    type V = TaskSetView;

    closed spec fn view(&self) -> TaskSetView {
        TaskSetView {
            max: self.max_concurrency as nat,
            running: self.running as nat,
            queue: self.queue@,
            tasks: self.tasks@,
            next_tag: self.next_tag as nat,
        }
    }
}

/// Index of the entry with key `id`, or -1.
pub open spec fn position(tasks: Seq<TaskEntry>, id: i32) -> int {
    if exists|i: int| 0 <= i < tasks.len() && (#[trigger] tasks[i]).id == id {
        choose|i: int| 0 <= i < tasks.len() && (#[trigger] tasks[i]).id == id
    } else {
        -1
    }
}

/// Index of `tag` in the queue, or -1.
pub open spec fn queue_position(queue: Seq<u64>, tag: u64) -> int {
    if exists|i: int| 0 <= i < queue.len() && queue[i] == tag {
        choose|i: int| 0 <= i < queue.len() && queue[i] == tag
    } else {
        -1
    }
}

/// How many waiting tasks start when there is room for them.
pub open spec fn promote_count(running: nat, max: nat, waiting: nat) -> nat {
    if running >= max {
        0
    } else if max - running < waiting {
        (max - running) as nat
    } else {
        waiting
    }
}

pub open spec fn spawn_actions(tags: Seq<u64>) -> Seq<Action> {
    tags.map_values(|t: u64| Action::Spawn(t))
}

/// The idle notice, present exactly when nothing runs and nothing waits.
pub open spec fn idle_actions(running: nat, waiting: nat) -> Seq<Action> {
    if running == 0 && waiting == 0 {
        seq![Action::Idle]
    } else {
        seq![]
    }
}

/// The state after starting as many waiting tasks as the cap allows.
pub open spec fn promoted(v: TaskSetView) -> TaskSetView {
    let k = promote_count(v.running, v.max, v.queue.len());
    TaskSetView { running: v.running + k, queue: v.queue.skip(k as int), ..v }
}

/// The actions of starting as many waiting tasks as the cap allows.
pub open spec fn promote_actions(v: TaskSetView) -> Seq<Action> {
    let k = promote_count(v.running, v.max, v.queue.len());
    spawn_actions(v.queue.take(k as int)) + idle_actions(v.running + k, (v.queue.len() - k) as nat)
}

/// The state once the task at `pos` (if any) is withdrawn: removed from the
/// keyed tasks and, if it waits, from the queue.
pub open spec fn withdrawn(v: TaskSetView, pos: int) -> TaskSetView {
    if pos < 0 {
        v
    } else {
        let t = v.tasks[pos].tag;
        let q = queue_position(v.queue, t);
        TaskSetView {
            tasks: v.tasks.remove(pos),
            queue: if q < 0 { v.queue } else { v.queue.remove(q) },
            ..v
        }
    }
}

/// The action that withdraws the task at `pos`, if any.
pub open spec fn withdraw_actions(v: TaskSetView, pos: int) -> Seq<Action> {
    if pos < 0 {
        seq![]
    } else {
        let t = v.tasks[pos].tag;
        if queue_position(v.queue, t) < 0 {
            seq![Action::Cancel(t)]
        } else {
            seq![Action::Discard(t)]
        }
    }
}

/// Cancellations of the keyed tasks that are not waiting, in order.
pub open spec fn running_cancels(tasks: Seq<TaskEntry>, queue: Seq<u64>) -> Seq<Action>
    decreases tasks.len(),
{
    if tasks.len() == 0 {
        seq![]
    } else {
        running_cancels(tasks.drop_last(), queue) + if queue_position(queue, tasks.last().tag) < 0 {
            seq![Action::Cancel(tasks.last().tag)]
        } else {
            seq![]
        }
    }
}

/// The state with no keyed and no waiting task.
pub open spec fn cleared(v: TaskSetView) -> TaskSetView {
    TaskSetView { tasks: seq![], queue: seq![], ..v }
}

/// The state after admitting a task under `id`: the previous holder of the
/// key is withdrawn, the new task takes the next tag, and it runs at once
/// while fewer than the cap run, or waits at the back of the queue.
pub open spec fn admitted(v: TaskSetView, id: i32) -> TaskSetView {
    let w = withdrawn(v, position(v.tasks, id));
    let t = v.next_tag as u64;
    TaskSetView {
        tasks: w.tasks.push(TaskEntry { id, tag: t }),
        next_tag: v.next_tag + 1,
        running: if w.running < w.max { w.running + 1 } else { w.running },
        queue: if w.running < w.max { w.queue } else { w.queue.push(t) },
        ..w
    }
}

/// The state once the task keyed `id` with tag `tag` ended: it leaves the
/// keyed tasks unless the key holds a newer task, and a slot is freed.
pub open spec fn ended(v: TaskSetView, id: i32, tag: u64) -> TaskSetView {
    let pos = position(v.tasks, id);
    TaskSetView {
        tasks: if pos >= 0 && v.tasks[pos].tag == tag {
            v.tasks.remove(pos)
        } else {
            v.tasks
        },
        running: if v.running > 0 { (v.running - 1) as nat } else { 0 },
        ..v
    }
}

/// No step of the supervisor lifts the number of running tasks above the
/// cap when it was within the cap before: admitting, cancelling one task,
/// a task ending, cancelling all, and setting a cap no lower than what
/// runs. And a join resolves exactly when nothing runs and nothing waits,
/// which is when the idle notice is given.
pub proof fn lemma_cap_kept(v: TaskSetView, id: i32, tag: u64, new_max: nat)
    requires
        v.running <= v.max,
    ensures
        admitted(v, id).running <= admitted(v, id).max,
        promoted(withdrawn(v, position(v.tasks, id))).running <= v.max,
        promoted(ended(v, id, tag)).running <= v.max,
        promoted(cleared(v)).running <= v.max,
        v.running <= new_max ==> promoted(TaskSetView { max: new_max, ..v }).running <= new_max,
        promote_actions(v).contains(Action::Idle) <==> (promoted(v).running == 0
            && promoted(v).queue.len() == 0),
{
    let k = promote_count(v.running, v.max, v.queue.len());
    let sp = spawn_actions(v.queue.take(k as int));
    let idle = idle_actions(v.running + k, (v.queue.len() - k) as nat);
    assert(promote_actions(v) == sp + idle);
    if promote_actions(v).contains(Action::Idle) {
        let i = choose|i: int| 0 <= i < promote_actions(v).len() && promote_actions(v)[i] == Action::Idle;
        if i < sp.len() {
            assert(sp[i] == Action::Spawn(v.queue.take(k as int)[i]));
        } else {
            assert(idle.len() > 0);
        }
    }
    if promoted(v).running == 0 && promoted(v).queue.len() == 0 {
        assert(promote_actions(v)[sp.len() as int] == Action::Idle);
    }
}

impl TaskSet {
    /// Well-formed: keys and tags distinct, tags below the next one to hand
    /// out, queued tags distinct, and tasks wait only while the cap is
    /// reached.
    pub open spec fn wf(&self) -> bool {
        &&& self.wf_keys()
        &&& self@.queue.len() > 0 ==> self@.running >= self@.max
    }

    /// Keys and tags distinct, tags below the next one to hand out, queued
    /// tags distinct.
    pub open spec fn wf_keys(&self) -> bool {
        let v = self@;
        &&& forall|i: int, j: int|
            0 <= i < v.tasks.len() && 0 <= j < v.tasks.len() && i != j ==> (#[trigger] v.tasks[i]).id
                != (#[trigger] v.tasks[j]).id
        &&& forall|i: int| 0 <= i < v.tasks.len() ==> (#[trigger] v.tasks[i]).tag < v.next_tag
        &&& forall|i: int| 0 <= i < v.queue.len() ==> #[trigger] v.queue[i] < v.next_tag
        &&& forall|i: int, j: int|
            0 <= i < v.queue.len() && 0 <= j < v.queue.len() && i != j ==> #[trigger] v.queue[i]
                != #[trigger] v.queue[j]
    }

    /// An empty set admitting up to `max_concurrency` running tasks.
    pub fn new(max_concurrency: usize) -> (r: TaskSet)
        ensures
            r.wf(),
            r@.max == max_concurrency,
            r@.running == 0,
            r@.queue == Seq::<u64>::empty(),
            r@.tasks == Seq::<TaskEntry>::empty(),
            r@.next_tag == 0,
    {
        TaskSet {
            max_concurrency,
            running: 0,
            queue: Vec::new(),
            tasks: Vec::new(),
            next_tag: 0,
        }
    }

    /// Number of running tasks and of waiting tasks.
    pub fn stats(&self) -> (r: (usize, usize))
        ensures
            r.0 == self@.running,
            r.1 == self@.queue.len(),
    {
        (self.running, self.queue.len())
    }

    /// Whether a join would resolve now: nothing runs and nothing waits.
    pub fn is_idle(&self) -> (r: bool)
        ensures
            r == (self@.running == 0 && self@.queue.len() == 0),
    {
        self.running == 0 && self.queue.len() == 0
    }

    fn find_task(&self, id: i32) -> (r: Option<usize>)
        requires
            self.wf_keys(),
        ensures
            match r {
                Some(i) => i == position(self@.tasks, id) && i < self@.tasks.len(),
                None => position(self@.tasks, id) == -1,
            },
    {
        let mut i: usize = 0;
        while i < self.tasks.len()
            invariant
                i <= self.tasks.len(),
                self.wf_keys(),
                forall|k: int| 0 <= k < i ==> (#[trigger] self.tasks@[k]).id != id,
            decreases self.tasks.len() - i,
        {
            if self.tasks[i].id == id {
                proof {
                    assert(self@.tasks[i as int].id == id);
                    let j = choose|j: int| 0 <= j < self@.tasks.len() && (#[trigger] self@.tasks[j]).id == id;
                    if j != i {
                        assert(self@.tasks[i as int].id != self@.tasks[j].id);
                    }
                }
                return Some(i);
            }
            i += 1;
        }
        None
    }

    fn find_queued(&self, tag: u64) -> (r: Option<usize>)
        requires
            self.wf_keys(),
        ensures
            match r {
                Some(i) => i == queue_position(self@.queue, tag) && i < self@.queue.len(),
                None => queue_position(self@.queue, tag) == -1,
            },
    {
        let mut i: usize = 0;
        while i < self.queue.len()
            invariant
                i <= self.queue.len(),
                self.wf_keys(),
                forall|k: int| 0 <= k < i ==> self.queue@[k] != tag,
            decreases self.queue.len() - i,
        {
            if self.queue[i] == tag {
                proof {
                    assert(self@.queue[i as int] == tag);
                    let j = choose|j: int| 0 <= j < self@.queue.len() && self@.queue[j] == tag;
                    if j != i {
                        assert(self@.queue[i as int] != self@.queue[j]);
                    }
                }
                return Some(i);
            }
            i += 1;
        }
        None
    }

    /// Starts waiting tasks while there is room.
    fn promote(&mut self, actions: &mut Vec<Action>)
        requires
            old(self).wf_keys(),
        ensures
            final(self).wf(),
            final(self)@ == promoted(old(self)@),
            final(actions)@ == old(actions)@ + promote_actions(old(self)@),
    {
        let ghost v0 = self@;
        let ghost a0 = actions@;
        let ghost k = promote_count(v0.running, v0.max, v0.queue.len());
        let mut started: usize = 0;
        while self.running < self.max_concurrency && started < self.queue.len()
            invariant
                self.max_concurrency == v0.max,
                self.tasks@ == v0.tasks,
                self.next_tag == v0.next_tag,
                self.queue@ == v0.queue,
                self.running == v0.running + started,
                k == promote_count(v0.running, v0.max, v0.queue.len()),
                started <= k,
                started <= v0.queue.len(),
                actions@ == a0 + spawn_actions(v0.queue.take(started as int)),
            decreases v0.queue.len() - started,
        {
            let t = self.queue[started];
            proof {
                assert(v0.running < v0.max);
                assert(started + 1 <= k);
            }
            actions.push(Action::Spawn(t));
            proof {
                assert(v0.queue.take(started + 1) =~= v0.queue.take(started as int).push(t));
                assert(spawn_actions(v0.queue.take(started + 1)) =~= spawn_actions(
                    v0.queue.take(started as int),
                ).push(Action::Spawn(t)));
            }
            self.running = self.running + 1;
            started = started + 1;
        }
        let ghost before = self.queue@;
        let mut rest: Vec<u64> = Vec::new();
        let mut i: usize = started;
        while i < self.queue.len()
            invariant
                self.queue@ == before,
                started <= i <= before.len(),
                rest@ == before.subrange(started as int, i as int),
            decreases before.len() - i,
        {
            rest.push(self.queue[i]);
            i += 1;
            proof {
                assert(rest@ =~= before.subrange(started as int, i as int));
            }
        }
        self.queue = rest;
        proof {
            assert(started == k);
            assert(self.queue@ =~= v0.queue.skip(k as int));
        }
        if self.running == 0 && self.queue.len() == 0 {
            actions.push(Action::Idle);
        }
        proof {
            assert(actions@ =~= a0 + promote_actions(v0));
            assert forall|i: int, j: int|
                0 <= i < self@.queue.len() && 0 <= j < self@.queue.len() && i != j implies #[trigger] self@.queue[i]
                    != #[trigger] self@.queue[j] by {
                assert(self@.queue[i] == v0.queue[i + k]);
                assert(self@.queue[j] == v0.queue[j + k]);
            }
            assert forall|i: int| 0 <= i < self@.queue.len() implies #[trigger] self@.queue[i] < self@.next_tag by {
                assert(self@.queue[i] == v0.queue[i + k]);
            }
        }
    }

    /// Removes the task keyed `id`, if any, from the keyed tasks and from the
    /// queue, and records how to withdraw it.
    fn withdraw(&mut self, id: i32, actions: &mut Vec<Action>)
        requires
            old(self).wf(),
        ensures
            final(self).wf(),
            final(self)@ == withdrawn(old(self)@, position(old(self)@.tasks, id)),
            final(actions)@ == old(actions)@ + withdraw_actions(
                old(self)@,
                position(old(self)@.tasks, id),
            ),
    {
        let ghost v0 = self@;
        if let Some(pos) = self.find_task(id) {
            let entry = self.tasks.remove(pos);
            proof {
                lemma_remove_distinct_ids(v0.tasks, pos as int);
            }
            match self.find_queued(entry.tag) {
                Some(q) => {
                    self.queue.remove(q);
                    actions.push(Action::Discard(entry.tag));
                    proof {
                        lemma_remove_distinct_tags(v0.queue, q as int);
                    }
                },
                None => {
                    actions.push(Action::Cancel(entry.tag));
                },
            }
            proof {
                assert(actions@ =~= old(actions)@ + withdraw_actions(v0, pos as int));
                assert(self@ == withdrawn(v0, pos as int));
            }
        } else {
            proof {
                assert(actions@ =~= old(actions)@ + withdraw_actions(v0, -1));
            }
        }
    }

    /// Admits a task under the key `id`, withdrawing the task that held the
    /// key before, if any. The new task starts at once while fewer than the
    /// cap run, and waits at the back of the queue otherwise. Returns the tag
    /// of the new task and the actions to perform.
    pub fn add_task(&mut self, id: i32) -> (r: (u64, Vec<Action>))
        requires
            old(self).wf(),
            old(self)@.next_tag < u64::MAX,
        ensures
            final(self).wf(),
            ({
                let pos = position(old(self)@.tasks, id);
                let w = withdrawn(old(self)@, pos);
                let e = TaskEntry { id, tag: r.0 };
                &&& r.0 == old(self)@.next_tag
                &&& final(self)@.next_tag == old(self)@.next_tag + 1
                &&& final(self)@.max == old(self)@.max
                &&& final(self)@.tasks == w.tasks.push(e)
                &&& if w.running < w.max {
                    &&& final(self)@.running == w.running + 1
                    &&& final(self)@.queue == w.queue
                    &&& r.1@ == withdraw_actions(old(self)@, pos).push(Action::Spawn(r.0))
                } else {
                    &&& final(self)@.running == w.running
                    &&& final(self)@.queue == w.queue.push(r.0)
                    &&& r.1@ == withdraw_actions(old(self)@, pos)
                }
            }),
            final(self)@ == admitted(old(self)@, id),
            old(self)@.running <= old(self)@.max ==> final(self)@.running <= final(self)@.max,
    {
        let mut actions: Vec<Action> = Vec::new();
        self.withdraw(id, &mut actions);
        let ghost w = self@;
        let tag = self.next_tag;
        self.next_tag = self.next_tag + 1;
        self.tasks.push(TaskEntry { id, tag });
        if self.running < self.max_concurrency {
            self.running = self.running + 1;
            actions.push(Action::Spawn(tag));
        } else {
            self.queue.push(tag);
        }
        proof {
            assert(position(w.tasks, id) == -1) by {
                if exists|i: int| 0 <= i < w.tasks.len() && (#[trigger] w.tasks[i]).id == id {
                    let i = choose|i: int| 0 <= i < w.tasks.len() && (#[trigger] w.tasks[i]).id == id;
                    lemma_withdrawn_key_gone(old(self)@, id, i);
                }
            }
            let t = self@.tasks;
            assert forall|i: int, j: int|
                0 <= i < t.len() && 0 <= j < t.len() && i != j implies (#[trigger] t[i]).id != (
                #[trigger] t[j]).id by {
                if i == t.len() - 1 {
                    assert(w.tasks[j] == t[j]);
                    assert(w.tasks[j].id != id);
                } else if j == t.len() - 1 {
                    assert(w.tasks[i] == t[i]);
                    assert(w.tasks[i].id != id);
                } else {
                    assert(w.tasks[i] == t[i] && w.tasks[j] == t[j]);
                }
            }
            assert forall|i: int| 0 <= i < t.len() implies (#[trigger] t[i]).tag < self@.next_tag by {
                if i < t.len() - 1 {
                    assert(w.tasks[i] == t[i]);
                }
            }
            let q = self@.queue;
            assert forall|i: int| 0 <= i < q.len() implies #[trigger] q[i] < self@.next_tag by {
                if i < w.queue.len() {
                    assert(w.queue[i] == q[i]);
                }
            }
            assert forall|i: int, j: int|
                0 <= i < q.len() && 0 <= j < q.len() && i != j implies #[trigger] q[i]
                    != #[trigger] q[j] by {
                if i < w.queue.len() {
                    assert(w.queue[i] == q[i]);
                }
                if j < w.queue.len() {
                    assert(w.queue[j] == q[j]);
                }
            }
        }
        (tag, actions)
    }

    /// Withdraws the task keyed `id`, if any, then starts waiting tasks while
    /// there is room.
    pub fn cancel_task(&mut self, id: i32) -> (r: Vec<Action>)
        requires
            old(self).wf(),
        ensures
            final(self).wf(),
            final(self)@ == promoted(withdrawn(old(self)@, position(old(self)@.tasks, id))),
            r@ == withdraw_actions(old(self)@, position(old(self)@.tasks, id)) + promote_actions(
                withdrawn(old(self)@, position(old(self)@.tasks, id)),
            ),
            old(self)@.running <= old(self)@.max ==> final(self)@.running <= final(self)@.max,
    {
        let mut actions: Vec<Action> = Vec::new();
        self.withdraw(id, &mut actions);
        self.promote(&mut actions);
        actions
    }

    /// Records that the task keyed `id` with tag `tag` has ended, however it
    /// ended: it leaves the keyed tasks unless the key now holds a newer
    /// task, one running slot is freed, and waiting tasks start while there
    /// is room.
    pub fn on_task_finished(&mut self, id: i32, tag: u64) -> (r: Vec<Action>)
        requires
            old(self).wf(),
        ensures
            final(self).wf(),
            final(self)@ == promoted(ended(old(self)@, id, tag)),
            r@ == promote_actions(ended(old(self)@, id, tag)),
            old(self)@.running <= old(self)@.max ==> final(self)@.running <= final(self)@.max,
    {
        let ghost v0 = self@;
        if let Some(pos) = self.find_task(id) {
            if self.tasks[pos].tag == tag {
                self.tasks.remove(pos);
                proof {
                    lemma_remove_distinct_ids(v0.tasks, pos as int);
                }
            }
        }
        self.running = if self.running > 0 {
            self.running - 1
        } else {
            0
        };
        let ghost e = self@;
        let mut actions: Vec<Action> = Vec::new();
        self.promote(&mut actions);
        proof {
            assert(e == ended(v0, id, tag));
            assert(actions@ =~= promote_actions(e));
        }
        actions
    }

    /// Cancels every running task and drops every waiting one.
    pub fn cancel_all(&mut self) -> (r: Vec<Action>)
        requires
            old(self).wf(),
        ensures
            final(self).wf(),
            final(self)@ == promoted(cleared(old(self)@)),
            r@ == running_cancels(old(self)@.tasks, old(self)@.queue) + old(self)@.queue.map_values(
                |t: u64| Action::Discard(t),
            ) + promote_actions(cleared(old(self)@)),
            old(self)@.running <= old(self)@.max ==> final(self)@.running <= final(self)@.max,
    {
        let ghost v0 = self@;
        let mut actions: Vec<Action> = Vec::new();
        let mut i: usize = 0;
        while i < self.tasks.len()
            invariant
                self.wf(),
                self@ == v0,
                i <= v0.tasks.len(),
                actions@ == running_cancels(v0.tasks.take(i as int), v0.queue),
            decreases v0.tasks.len() - i,
        {
            let t = self.tasks[i].tag;
            proof {
                assert(v0.tasks.take(i + 1).drop_last() =~= v0.tasks.take(i as int));
                assert(v0.tasks.take(i + 1).last() == v0.tasks[i as int]);
            }
            if self.find_queued(t).is_none() {
                actions.push(Action::Cancel(t));
            }
            proof {
                assert(actions@ =~= running_cancels(v0.tasks.take(i + 1), v0.queue));
            }
            i += 1;
        }
        let mut j: usize = 0;
        proof {
            assert(v0.tasks.take(v0.tasks.len() as int) =~= v0.tasks);
            assert(v0.queue.take(0).map_values(|t: u64| Action::Discard(t)) =~= Seq::<Action>::empty());
            assert(actions@ =~= running_cancels(v0.tasks, v0.queue) + v0.queue.take(0).map_values(
                |t: u64| Action::Discard(t),
            ));
        }
        while j < self.queue.len()
            invariant
                self@ == v0,
                j <= v0.queue.len(),
                actions@ == running_cancels(v0.tasks, v0.queue) + v0.queue.take(j as int).map_values(
                    |t: u64| Action::Discard(t),
                ),
            decreases v0.queue.len() - j,
        {
            actions.push(Action::Discard(self.queue[j]));
            proof {
                assert(v0.queue.take(j + 1).map_values(|t: u64| Action::Discard(t)) =~= v0.queue.take(
                    j as int,
                ).map_values(|t: u64| Action::Discard(t)).push(Action::Discard(v0.queue[j as int])));
            }
            j += 1;
        }
        proof {
            assert(v0.queue.take(v0.queue.len() as int) =~= v0.queue);
        }
        self.tasks = Vec::new();
        self.queue = Vec::new();
        let ghost mid = actions@;
        self.promote(&mut actions);
        proof {
            assert(self@ == promoted(cleared(v0)));
        }
        actions
    }

    /// Changes the cap, then starts waiting tasks while there is room.
    /// Lowering the cap stops no running task.
    pub fn set_concurrency(&mut self, new_max: usize) -> (r: Vec<Action>)
        requires
            old(self).wf(),
        ensures
            final(self).wf(),
            final(self)@ == promoted(TaskSetView { max: new_max as nat, ..old(self)@ }),
            r@ == promote_actions(TaskSetView { max: new_max as nat, ..old(self)@ }),
            old(self)@.running <= new_max ==> final(self)@.running <= final(self)@.max,
    {
        self.max_concurrency = new_max;
        let mut actions: Vec<Action> = Vec::new();
        self.promote(&mut actions);
        proof {
            assert(actions@ =~= promote_actions(TaskSetView { max: new_max as nat, ..old(self)@ }));
        }
        actions
    }
}

proof fn lemma_remove_distinct_ids(t: Seq<TaskEntry>, pos: int)
    requires
        0 <= pos < t.len(),
        forall|i: int, j: int|
            0 <= i < t.len() && 0 <= j < t.len() && i != j ==> (#[trigger] t[i]).id != (
            #[trigger] t[j]).id,
    ensures
        forall|i: int, j: int|
            0 <= i < t.len() - 1 && 0 <= j < t.len() - 1 && i != j ==> (#[trigger] t.remove(
                pos,
            )[i]).id != (#[trigger] t.remove(pos)[j]).id,
{
    let r = t.remove(pos);
    assert forall|i: int, j: int|
        0 <= i < t.len() - 1 && 0 <= j < t.len() - 1 && i != j implies (#[trigger] r[i]).id != (
        #[trigger] r[j]).id by {
        let a = if i < pos { i } else { i + 1 };
        let b = if j < pos { j } else { j + 1 };
        assert(r[i] == t[a] && r[j] == t[b]);
    }
}

proof fn lemma_remove_distinct_tags(q: Seq<u64>, pos: int)
    requires
        0 <= pos < q.len(),
        forall|i: int, j: int|
            0 <= i < q.len() && 0 <= j < q.len() && i != j ==> #[trigger] q[i] != #[trigger] q[j],
    ensures
        forall|i: int, j: int|
            0 <= i < q.len() - 1 && 0 <= j < q.len() - 1 && i != j ==> #[trigger] q.remove(pos)[i]
                != #[trigger] q.remove(pos)[j],
{
    let r = q.remove(pos);
    assert forall|i: int, j: int|
        0 <= i < q.len() - 1 && 0 <= j < q.len() - 1 && i != j implies #[trigger] r[i]
            != #[trigger] r[j] by {
        let a = if i < pos { i } else { i + 1 };
        let b = if j < pos { j } else { j + 1 };
        assert(r[i] == q[a] && r[j] == q[b]);
    }
}

/// Once the task keyed `id` is withdrawn, no task holds that key.
proof fn lemma_withdrawn_key_gone(v: TaskSetView, id: i32, i: int)
    requires
        forall|a: int, b: int|
            0 <= a < v.tasks.len() && 0 <= b < v.tasks.len() && a != b ==> (#[trigger] v.tasks[a]).id
                != (#[trigger] v.tasks[b]).id,
        0 <= i < withdrawn(v, position(v.tasks, id)).tasks.len(),
    ensures
        withdrawn(v, position(v.tasks, id)).tasks[i].id != id,
{
    let pos = position(v.tasks, id);
    if pos >= 0 {
        let p = choose|p: int| 0 <= p < v.tasks.len() && (#[trigger] v.tasks[p]).id == id;
        let a = if i < pos { i } else { i + 1 };
        assert(withdrawn(v, pos).tasks[i] == v.tasks[a]);
        assert(v.tasks[pos].id == id);
    } else {
        assert(v.tasks[i].id != id);
    }
}

} // verus!
