//! The stage queue: the three-set container (todo / in-progress / done)
//! tracking the tasks of one stage. Tasks are never created or destroyed by
//! its operations, only moved between the three sets.

use vstd::prelude::*;

use crate::task::{Task, TaskView};

verus! {

/// Mathematical value of a stage queue: the three sequences of tasks. The
/// in-progress set is ordered by assignment time; todo is popped from the
/// back (most recently queued first).
#[verifier::ext_equal]
pub struct StageView {
    pub todo: Seq<TaskView>,
    pub curr: Seq<TaskView>,
    pub done: Seq<TaskView>,
}

impl StageView {
    /// All tasks of the stage, in queue order.
    pub open spec fn all_tasks(self) -> Seq<TaskView> {
        self.todo + self.curr + self.done
    }

    /// Total number of tasks in the stage.
    pub open spec fn total(self) -> nat {
        self.todo.len() + self.curr.len() + self.done.len()
    }
}

/// How many output artifacts confirm completion of a task: one intermediate
/// artifact per partition for a Map task, one final artifact for a Reduce
/// task.
pub open spec fn required_artifacts(t: TaskView) -> nat {
    match t {
        TaskView::MapTask { num_buckets, .. } => num_buckets,
        TaskView::ReduceTask { .. } => 1,
    }
}

/// The in-progress tasks from index `i` on that stay in progress under the
/// observed artifact counts.
pub open spec fn kept_from(curr: Seq<TaskView>, counts: Seq<usize>, i: int) -> Seq<TaskView>
    decreases curr.len() - i,
{
    if i < 0 || i >= curr.len() {
        Seq::empty()
    } else if counts[i] as nat == required_artifacts(curr[i]) {
        kept_from(curr, counts, i + 1)
    } else {
        seq![curr[i]] + kept_from(curr, counts, i + 1)
    }
}

/// The in-progress tasks from index `i` on that are confirmed complete under
/// the observed artifact counts.
pub open spec fn completed_from(curr: Seq<TaskView>, counts: Seq<usize>, i: int) -> Seq<TaskView>
    decreases curr.len() - i,
{
    if i < 0 || i >= curr.len() {
        Seq::empty()
    } else if counts[i] as nat == required_artifacts(curr[i]) {
        seq![curr[i]] + completed_from(curr, counts, i + 1)
    } else {
        completed_from(curr, counts, i + 1)
    }
}

/// One stage refresh: every in-progress task whose observed artifact count
/// equals its required count moves to done; the rest stay, in order. The
/// todo set and previously done tasks are untouched.
pub open spec fn spec_refresh_stage(s: StageView, counts: Seq<usize>) -> StageView {
    StageView {
        todo: s.todo,
        curr: kept_from(s.curr, counts, 0),
        done: s.done + completed_from(s.curr, counts, 0),
    }
}

/// Index of the first task with the given identifier, at or after `i`.
pub open spec fn spec_find_id(ts: Seq<TaskView>, id: nat, i: int) -> Option<int>
    decreases ts.len() - i,
{
    if i < 0 || i >= ts.len() {
        None
    } else if ts[i].id() == id {
        Some(i)
    } else {
        spec_find_id(ts, id, i + 1)
    }
}

/// Reclaiming a stalled task: when some in-progress task carries the
/// identifier, the first such task moves back to todo; otherwise nothing
/// changes.
pub open spec fn spec_reclaim(s: StageView, id: nat) -> StageView {
    match spec_find_id(s.curr, id, 0) {
        Some(i) => StageView {
            todo: s.todo.push(s.curr[i]),
            curr: s.curr.remove(i),
            done: s.done,
        },
        None => s,
    }
}

/// Completing a probed task: when some in-progress task carries the
/// identifier and the observed artifact count equals its required count, the
/// first such task moves to done; otherwise nothing changes.
pub open spec fn spec_try_complete(s: StageView, id: nat, observed: usize) -> StageView {
    match spec_find_id(s.curr, id, 0) {
        Some(i) => if observed as nat == required_artifacts(s.curr[i]) {
            StageView { todo: s.todo, curr: s.curr.remove(i), done: s.done.push(s.curr[i]) }
        } else {
            s
        },
        None => s,
    }
}

pub open spec fn spec_try_complete_ok(s: StageView, id: nat, observed: usize) -> bool {
    match spec_find_id(s.curr, id, 0) {
        Some(i) => observed as nat == required_artifacts(s.curr[i]),
        None => false,
    }
}

/// The three disjoint task sets of one stage.
pub struct StageState {
    pub todo: Vec<Task>,
    pub curr: Vec<Task>,
    pub done: Vec<Task>,
}

impl View for StageState {
    type V = StageView;

    open spec fn view(&self) -> StageView {
        StageView { todo: self.todo.deep_view(), curr: self.curr.deep_view(), done: self.done.deep_view() }
    }
}

fn required_artifacts_exec(t: &Task) -> (r: usize)
    ensures
        r as nat == required_artifacts(t@),
{
    match t {
        Task::MapTask { num_buckets, .. } => *num_buckets,
        Task::ReduceTask { .. } => 1,
    }
}

impl StageState {
    /// An empty stage.
    pub fn new() -> (r: Self)
        ensures
            r@.todo.len() == 0,
            r@.curr.len() == 0,
            r@.done.len() == 0,
    {
        StageState { todo: Vec::new(), curr: Vec::new(), done: Vec::new() }
    }

    /// Queues a task as not yet assigned.
    pub fn push_todo(&mut self, t: Task)
        ensures
            final(self)@ =~~= (StageView {
                todo: old(self)@.todo.push(t@),
                curr: old(self)@.curr,
                done: old(self)@.done,
            }),
    {
        self.todo.push(t);
        proof {
            assert(self.todo.deep_view() =~~= old(self)@.todo.push(t@));
        }
    }

    /// Takes the most recently queued task, if any.
    pub fn pop_todo(&mut self) -> (r: Option<Task>)
        ensures
            match r {
                Option::None => old(self)@.todo.len() == 0 && final(self)@ =~~= old(self)@,
                Option::Some(t) => old(self)@.todo.len() > 0 && t@ == old(self)@.todo.last()
                    && final(self)@ =~~= (StageView {
                    todo: old(self)@.todo.drop_last(),
                    curr: old(self)@.curr,
                    done: old(self)@.done,
                }),
            },
    {
        let r = self.todo.pop();
        proof {
            if old(self)@.todo.len() > 0 {
                assert(self.todo.deep_view() =~~= old(self)@.todo.drop_last());
            } else {
                assert(self.todo.deep_view() =~~= old(self)@.todo);
            }
        }
        r
    }

    /// Records a task as assigned: the second half of the todo to
    /// in-progress move, paired with `pop_todo`.
    pub fn mark_in_progress(&mut self, t: Task)
        ensures
            final(self)@ =~~= (StageView {
                todo: old(self)@.todo,
                curr: old(self)@.curr.push(t@),
                done: old(self)@.done,
            }),
    {
        self.curr.push(t);
        proof {
            assert(self.curr.deep_view() =~~= old(self)@.curr.push(t@));
        }
    }

    /// Number of tasks not yet assigned.
    pub fn todo_len(&self) -> (r: usize)
        ensures
            r == self@.todo.len(),
    {
        self.todo.len()
    }

    /// Number of tasks assigned and awaiting completion confirmation.
    pub fn curr_len(&self) -> (r: usize)
        ensures
            r == self@.curr.len(),
    {
        self.curr.len()
    }

    /// Number of tasks confirmed complete.
    pub fn done_len(&self) -> (r: usize)
        ensures
            r == self@.done.len(),
    {
        self.done.len()
    }

    fn find_curr_index(&self, id: usize) -> (r: Option<usize>)
        ensures
            match r {
                Option::Some(j) => spec_find_id(self@.curr, id as nat, 0) == Some(j as int) && j
                    < self@.curr.len() && self@.curr[j as int].id() == id as nat,
                Option::None => spec_find_id(self@.curr, id as nat, 0) is None,
            },
    {
        let n = self.curr.len();
        let mut j: usize = 0;
        while j < n
            invariant
                n == self.curr.len(),
                0 <= j <= n,
                spec_find_id(self@.curr, id as nat, 0) == spec_find_id(
                    self@.curr,
                    id as nat,
                    j as int,
                ),
            decreases n - j,
        {
            if self.curr[j].get_id() == id {
                return Some(j);
            }
            j = j + 1;
        }
        None
    }

    /// Moves the first in-progress task with this identifier back to todo;
    /// a no-op when no in-progress task carries it (the task already
    /// completed or was already reclaimed).
    pub fn reclaim_if_stalled(&mut self, id: usize) -> (r: bool)
        ensures
            final(self)@ =~~= spec_reclaim(old(self)@, id as nat),
            r == (spec_find_id(old(self)@.curr, id as nat, 0) is Some),
    {
        match self.find_curr_index(id) {
            None => false,
            Some(j) => {
                let t = self.curr.remove(j);
                proof {
                    assert(t@ == old(self)@.curr[j as int]);
                    assert(self.curr.deep_view() =~~= old(self)@.curr.remove(j as int));
                }
                self.todo.push(t);
                proof {
                    assert(self.todo.deep_view() =~~= old(self)@.todo.push(
                        old(self)@.curr[j as int],
                    ));
                }
                true
            },
        }
    }

    /// Moves the first in-progress task with this identifier to done when
    /// the observed artifact count equals the count its completion requires;
    /// otherwise a no-op.
    pub fn try_complete(&mut self, id: usize, observed: usize) -> (r: bool)
        ensures
            final(self)@ =~~= spec_try_complete(old(self)@, id as nat, observed),
            r == spec_try_complete_ok(old(self)@, id as nat, observed),
    {
        match self.find_curr_index(id) {
            None => false,
            Some(j) => {
                proof {
                    assert(self.curr@[j as int]@ == self@.curr[j as int]);
                }
                let req = required_artifacts_exec(&self.curr[j]);
                if observed != req {
                    return false;
                }
                let t = self.curr.remove(j);
                proof {
                    assert(t@ == old(self)@.curr[j as int]);
                    assert(self.curr.deep_view() =~~= old(self)@.curr.remove(j as int));
                }
                self.done.push(t);
                proof {
                    assert(self.done.deep_view() =~~= old(self)@.done.push(
                        old(self)@.curr[j as int],
                    ));
                }
                true
            },
        }
    }

    /// One stage refresh over the observed artifact counts, aligned with the
    /// in-progress tasks in order.
    pub fn refresh_stage(&mut self, counts: &Vec<usize>)
        requires
            counts@.len() == old(self)@.curr.len(),
        ensures
            final(self)@ =~~= spec_refresh_stage(old(self)@, counts@),
    {
        let ghost c0 = old(self)@.curr;
        let n = self.curr.len();
        let mut kept: Vec<Task> = Vec::new();
        let mut moved: Vec<Task> = Vec::new();
        let mut j: usize = 0;
        while j < n
            invariant
                n == self.curr.len(),
                c0 == self.curr.deep_view(),
                counts@.len() == n,
                c0.len() == n,
                0 <= j <= n,
                self@ == old(self)@,
                kept.deep_view() + kept_from(c0, counts@, j as int) =~~= kept_from(
                    c0,
                    counts@,
                    0,
                ),
                moved.deep_view() + completed_from(c0, counts@, j as int) =~~= completed_from(
                    c0,
                    counts@,
                    0,
                ),
            decreases n - j,
        {
            let t = self.curr[j].clone();
            let req = required_artifacts_exec(&t);
            if counts[j] == req {
                proof {
                    assert(moved.deep_view().push(t@) =~~= moved.deep_view() + seq![c0[j as int]]);
                }
                moved.push(t);
            } else {
                proof {
                    assert(kept.deep_view().push(t@) =~~= kept.deep_view() + seq![c0[j as int]]);
                }
                kept.push(t);
            }
            j = j + 1;
        }
        proof {
            assert(kept.deep_view() =~~= kept_from(c0, counts@, 0));
            assert(moved.deep_view() =~~= completed_from(c0, counts@, 0));
        }
        self.curr = kept;
        let mut k: usize = 0;
        let m = moved.len();
        let ghost d0 = old(self)@.done;
        proof {
            assert(self.done.deep_view() =~~= d0 + moved.deep_view().subrange(0, 0));
        }
        while k < m
            invariant
                m == moved.len(),
                0 <= k <= m,
                moved.deep_view() =~~= completed_from(c0, counts@, 0),
                self.todo.deep_view() =~~= old(self)@.todo,
                self.curr.deep_view() =~~= kept_from(c0, counts@, 0),
                self.done.deep_view() =~~= d0 + moved.deep_view().subrange(0, k as int),
            decreases m - k,
        {
            let ghost before = self.done.deep_view();
            let t = moved[k].clone();
            proof {
                assert(t@ == moved.deep_view()[k as int]);
            }
            self.done.push(t);
            proof {
                assert(self.done.deep_view() =~~= before.push(t@));
                assert(moved.deep_view().subrange(0, k as int + 1) =~~= moved.deep_view().subrange(
                    0,
                    k as int,
                ).push(moved.deep_view()[k as int]));
                assert(self.done.deep_view() =~~= d0 + moved.deep_view().subrange(0, k as int + 1));
            }
            k = k + 1;
        }
        proof {
            assert(moved.deep_view().subrange(0, m as int) =~~= moved.deep_view());
            assert(self@ =~~= spec_refresh_stage(old(self)@, counts@));
        }
    }
}

// ---------------------------------------------------------------------------
// Facts about the transitions
// ---------------------------------------------------------------------------

/// The refresh of one stage neither creates nor destroys tasks: the kept and
/// completed tasks together are exactly the in-progress tasks, and each is
/// drawn from them.
pub proof fn lemma_kept_completed(curr: Seq<TaskView>, counts: Seq<usize>, i: int)
    requires
        0 <= i <= curr.len(),
    ensures
        kept_from(curr, counts, i).len() + completed_from(curr, counts, i).len() == curr.len() - i,
        forall|x: TaskView| kept_from(curr, counts, i).contains(x) ==> curr.contains(x),
        forall|x: TaskView| completed_from(curr, counts, i).contains(x) ==> curr.contains(x),
    decreases curr.len() - i,
{
    if i < curr.len() {
        lemma_kept_completed(curr, counts, i + 1);
        assert(curr.contains(curr[i]));
        assert forall|x: TaskView| kept_from(curr, counts, i).contains(x) implies curr.contains(
            x,
        ) by {
            if counts[i] as nat != required_artifacts(curr[i]) {
                let k = kept_from(curr, counts, i);
                let rest = kept_from(curr, counts, i + 1);
                let w = choose|w: int| 0 <= w < k.len() && k[w] == x;
                if w >= 1 {
                    assert(rest[w - 1] == x);
                    assert(rest.contains(x));
                }
            }
        }
        assert forall|x: TaskView|
            completed_from(curr, counts, i).contains(x) implies curr.contains(x) by {
            if counts[i] as nat == required_artifacts(curr[i]) {
                let k = completed_from(curr, counts, i);
                let rest = completed_from(curr, counts, i + 1);
                let w = choose|w: int| 0 <= w < k.len() && k[w] == x;
                if w >= 1 {
                    assert(rest[w - 1] == x);
                    assert(rest.contains(x));
                }
            }
        }
    }
}

/// Removing a sequence element keeps every remaining element an element.
pub proof fn lemma_remove_contains(s: Seq<TaskView>, i: int)
    requires
        0 <= i < s.len(),
    ensures
        forall|x: TaskView| s.remove(i).contains(x) ==> s.contains(x),
{
    assert forall|x: TaskView| s.remove(i).contains(x) implies s.contains(x) by {
        let r = s.remove(i);
        let w = choose|w: int| 0 <= w < r.len() && r[w] == x;
        if w < i {
            assert(s[w] == x);
        } else {
            assert(s[w + 1] == x);
        }
    }
}

/// Reclaiming never touches the done set, and only ever moves a task from
/// in-progress to todo: reclaiming an identifier that no in-progress task
/// carries — one already completed, or already reclaimed — changes nothing,
/// so repeating it is a no-op every time (idempotence).
pub proof fn lemma_reclaim_idempotent(s: StageView, id: nat)
    requires
        spec_find_id(s.curr, id, 0) is None,
    ensures
        spec_reclaim(s, id) == s,
        spec_reclaim(spec_reclaim(s, id), id) == s,
{
}

/// A task identifier found in progress is really there, and what is found
/// carries it.
pub proof fn lemma_find_id_ensures(ts: Seq<TaskView>, id: nat, i: int)
    requires
        0 <= i <= ts.len(),
    ensures
        match spec_find_id(ts, id, i) {
            Some(j) => i <= j < ts.len() && ts[j].id() == id,
            None => forall|j: int| i <= j < ts.len() ==> ts[j].id() != id,
        },
    decreases ts.len() - i,
{
    if i < ts.len() && ts[i].id() != id {
        lemma_find_id_ensures(ts, id, i + 1);
    }
}

} // verus!
