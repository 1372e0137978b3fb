//! The coordinator's task-scheduling state machine: two stage queues, the
//! Map-to-Reduce gate, assignment, completion detection over probed artifact
//! counts, and timeout-driven reclamation. Every operation is one atomic
//! step on the state; the transport around it serializes the steps.

use vstd::prelude::*;

use crate::artifacts::{
    map_probe_pattern, reduce_result_name, spec_map_probe_pattern, spec_reduce_result_name,
};
use crate::stage::{
    completed_from, kept_from, lemma_find_id_ensures, lemma_kept_completed, lemma_remove_contains,
    required_artifacts, spec_find_id, spec_reclaim, spec_refresh_stage, spec_try_complete_ok,
    StageState, StageView,
};
use crate::task::{lemma_task_round_trip, spec_decode, spec_encode, Task, TaskView};
use vstd::string::StringExecFns;

verus! {

/// Mathematical value of the whole coordinator state.
#[verifier::ext_equal]
pub struct CoordinatorView {
    pub map_stage: StageView,
    pub reduce_stage: StageView,
}

/// The partition count a Map task routes its output into.
pub open spec fn task_num_buckets(t: TaskView) -> nat {
    match t {
        TaskView::MapTask { num_buckets, .. } => num_buckets,
        TaskView::ReduceTask { .. } => 0,
    }
}

pub open spec fn all_map_tasks(ts: Seq<TaskView>) -> bool {
    forall|i: int| 0 <= i < ts.len() ==> (#[trigger] ts[i]) is MapTask
}

pub open spec fn all_reduce_tasks(ts: Seq<TaskView>) -> bool {
    forall|i: int| 0 <= i < ts.len() ==> (#[trigger] ts[i]) is ReduceTask
}

impl CoordinatorView {
    /// Every task of the Map stage routes into exactly as many partitions as
    /// there are Reduce tasks in the job.
    pub open spec fn partitions_consistent(self) -> bool {
        forall|i: int|
            0 <= i < self.map_stage.all_tasks().len() ==> task_num_buckets(
                #[trigger] self.map_stage.all_tasks()[i],
            ) == self.reduce_stage.total()
    }

    /// The state invariant: each stage holds only its own variant of task;
    /// no Reduce task is in progress while Map work remains outstanding
    /// (stage gating); and partition counts agree with the Reduce task count.
    pub open spec fn wf(self) -> bool {
        &&& all_map_tasks(self.map_stage.all_tasks())
        &&& all_reduce_tasks(self.reduce_stage.all_tasks())
        &&& (self.map_stage.todo.len() > 0 || self.map_stage.curr.len() > 0)
            ==> self.reduce_stage.curr.len() == 0
        &&& self.partitions_consistent()
    }

    /// All Map work is retired: the Reduce stage may be served.
    pub open spec fn map_retired(self) -> bool {
        self.map_stage.todo.len() == 0 && self.map_stage.curr.len() == 0
    }

    /// All four assignable queues are empty: the job is finished.
    pub open spec fn all_queues_empty(self) -> bool {
        self.map_stage.todo.len() == 0 && self.map_stage.curr.len() == 0
            && self.reduce_stage.todo.len() == 0 && self.reduce_stage.curr.len() == 0
    }
}

/// The scheduler's answer to one assignment request.
#[derive(Debug)]
pub enum AssignmentReply {
    /// A task has been handed to this caller.
    Assigned(Task),
    /// No task is assignable now, but the job is not finished: back off and
    /// retry.
    Wait,
    /// Every task in both stages is done.
    JobDone,
}

/// Mathematical value of an assignment reply.
pub enum ReplyView {
    Assigned(TaskView),
    Wait,
    JobDone,
}

impl View for AssignmentReply {
    type V = ReplyView;

    open spec fn view(&self) -> ReplyView {
        match self {
            AssignmentReply::Assigned(t) => ReplyView::Assigned(t@),
            AssignmentReply::Wait => ReplyView::Wait,
            AssignmentReply::JobDone => ReplyView::JobDone,
        }
    }
}

/// One refresh step: both stages retire the in-progress tasks whose observed
/// artifact counts meet their required counts.
pub open spec fn spec_refresh(
    s: CoordinatorView,
    map_counts: Seq<usize>,
    reduce_counts: Seq<usize>,
) -> CoordinatorView {
    CoordinatorView {
        map_stage: spec_refresh_stage(s.map_stage, map_counts),
        reduce_stage: spec_refresh_stage(s.reduce_stage, reduce_counts),
    }
}

/// One selection step. When every queue is empty the job is done. While Map
/// work is outstanding only Map.todo is served; once the Map stage is
/// retired, Reduce.todo is served. The most recently queued task is handed
/// out and becomes in-progress; an empty source queue answers Wait.
pub open spec fn spec_get_task(s: CoordinatorView) -> (CoordinatorView, ReplyView) {
    if s.all_queues_empty() {
        (s, ReplyView::JobDone)
    } else if s.map_retired() {
        if s.reduce_stage.todo.len() == 0 {
            (s, ReplyView::Wait)
        } else {
            let t = s.reduce_stage.todo.last();
            (
                CoordinatorView {
                    map_stage: s.map_stage,
                    reduce_stage: StageView {
                        todo: s.reduce_stage.todo.drop_last(),
                        curr: s.reduce_stage.curr.push(t),
                        done: s.reduce_stage.done,
                    },
                },
                ReplyView::Assigned(t),
            )
        }
    } else {
        if s.map_stage.todo.len() == 0 {
            (s, ReplyView::Wait)
        } else {
            let t = s.map_stage.todo.last();
            (
                CoordinatorView {
                    map_stage: StageView {
                        todo: s.map_stage.todo.drop_last(),
                        curr: s.map_stage.curr.push(t),
                        done: s.map_stage.done,
                    },
                    reduce_stage: s.reduce_stage,
                },
                ReplyView::Assigned(t),
            )
        }
    }
}

/// The wire form of an assignment reply: the job-finished sentinel, the
/// empty string meaning wait, or the encoded task.
pub open spec fn spec_reply_wire(rv: ReplyView) -> Seq<char> {
    match rv {
        ReplyView::JobDone => "done"@,
        ReplyView::Wait => Seq::empty(),
        ReplyView::Assigned(t) => spec_encode(t),
    }
}

/// Encodes one assignment reply for the wire, the inverse of the worker's
/// reply interpretation.
pub fn encode_reply(r: &AssignmentReply) -> (s: String)
    ensures
        s@ == spec_reply_wire(r@),
{
    match r {
        AssignmentReply::JobDone => String::from_str("done"),
        AssignmentReply::Wait => String::new(),
        AssignmentReply::Assigned(t) => t.to_string(),
    }
}

/// Reclaiming one possibly stalled Map task.
pub open spec fn spec_reclaim_map(s: CoordinatorView, id: nat) -> CoordinatorView {
    CoordinatorView { map_stage: spec_reclaim(s.map_stage, id), reduce_stage: s.reduce_stage }
}

/// Reclaiming one possibly stalled Reduce task.
pub open spec fn spec_reclaim_reduce(s: CoordinatorView, id: nat) -> CoordinatorView {
    CoordinatorView { map_stage: s.map_stage, reduce_stage: spec_reclaim(s.reduce_stage, id) }
}

/// The shared coordinator state: one stage queue for Map and one for Reduce.
pub struct CoordinatorState {
    pub map_stage: StageState,
    pub reduce_stage: StageState,
}

impl View for CoordinatorState {
    type V = CoordinatorView;

    open spec fn view(&self) -> CoordinatorView {
        CoordinatorView { map_stage: self.map_stage@, reduce_stage: self.reduce_stage@ }
    }
}

impl CoordinatorState {
    /// An empty coordinator state, to be seeded with the job's tasks.
    pub fn new() -> (r: Self)
        ensures
            r@.map_stage.todo.len() == 0,
            r@.map_stage.curr.len() == 0,
            r@.map_stage.done.len() == 0,
            r@.reduce_stage.todo.len() == 0,
            r@.reduce_stage.curr.len() == 0,
            r@.reduce_stage.done.len() == 0,
            r@.wf(),
    {
        let r = CoordinatorState { map_stage: StageState::new(), reduce_stage: StageState::new() };
        proof {
            assert(r@.map_stage.all_tasks().len() == 0);
            assert(r@.reduce_stage.all_tasks().len() == 0);
        }
        r
    }

    /// The probe patterns for the in-progress Map tasks, aligned with them
    /// in order: the caller counts each pattern's matches in the artifact
    /// store and hands the counts to `refresh`.
    pub fn map_probe_patterns(&self) -> (r: Vec<String>)
        ensures
            r@.len() == self@.map_stage.curr.len(),
            forall|i: int|
                0 <= i < r@.len() ==> r.deep_view()[i] == spec_map_probe_pattern(
                    self@.map_stage.curr[i].id(),
                ),
    {
        let n = self.map_stage.curr.len();
        let mut r: Vec<String> = Vec::new();
        let mut i: usize = 0;
        while i < n
            invariant
                n == self.map_stage.curr.len(),
                0 <= i <= n,
                r@.len() == i,
                forall|j: int|
                    0 <= j < i ==> r.deep_view()[j] == spec_map_probe_pattern(
                        self@.map_stage.curr[j].id(),
                    ),
            decreases n - i,
        {
            proof {
                assert(self.map_stage.curr@[i as int]@ == self@.map_stage.curr[i as int]);
            }
            let id = self.map_stage.curr[i].get_id();
            let p = map_probe_pattern(id);
            let ghost rd = r.deep_view();
            r.push(p);
            proof {
                assert(r.deep_view() =~~= rd.push(p@));
            }
            i = i + 1;
        }
        r
    }

    /// The final-artifact names for the in-progress Reduce tasks, aligned
    /// with them in order: the caller counts each name's matches (zero or
    /// one) and hands the counts to `refresh`.
    pub fn reduce_probe_patterns(&self) -> (r: Vec<String>)
        ensures
            r@.len() == self@.reduce_stage.curr.len(),
            forall|i: int|
                0 <= i < r@.len() ==> r.deep_view()[i] == spec_reduce_result_name(
                    self@.reduce_stage.curr[i].id(),
                ),
    {
        let n = self.reduce_stage.curr.len();
        let mut r: Vec<String> = Vec::new();
        let mut i: usize = 0;
        while i < n
            invariant
                n == self.reduce_stage.curr.len(),
                0 <= i <= n,
                r@.len() == i,
                forall|j: int|
                    0 <= j < i ==> r.deep_view()[j] == spec_reduce_result_name(
                        self@.reduce_stage.curr[j].id(),
                    ),
            decreases n - i,
        {
            proof {
                assert(self.reduce_stage.curr@[i as int]@ == self@.reduce_stage.curr[i as int]);
            }
            let id = self.reduce_stage.curr[i].get_id();
            let p = reduce_result_name(id);
            let ghost rd = r.deep_view();
            r.push(p);
            proof {
                assert(r.deep_view() =~~= rd.push(p@));
            }
            i = i + 1;
        }
        r
    }

    /// Refreshes both stages from the observed artifact counts, aligned with
    /// the in-progress tasks in order. This probe is the only completion
    /// signal the scheduler trusts; a Map task needs its full partition
    /// count, a Reduce task a single final artifact.
    pub fn refresh(&mut self, map_counts: &Vec<usize>, reduce_counts: &Vec<usize>)
        requires
            old(self)@.wf(),
            map_counts@.len() == old(self)@.map_stage.curr.len(),
            reduce_counts@.len() == old(self)@.reduce_stage.curr.len(),
        ensures
            final(self)@ =~~= spec_refresh(old(self)@, map_counts@, reduce_counts@),
            final(self)@.wf(),
    {
        self.map_stage.refresh_stage(map_counts);
        self.reduce_stage.refresh_stage(reduce_counts);
        proof {
            lemma_refresh_preserves_wf(old(self)@, map_counts@, reduce_counts@);
            assert(self@ =~~= spec_refresh(old(self)@, map_counts@, reduce_counts@));
        }
    }

    /// One assignment request: returns `JobDone` exactly when all four
    /// queues are empty, otherwise hands out the most recently queued task
    /// of the active stage, or `Wait` when that queue is empty.
    pub fn get_task(&mut self) -> (r: AssignmentReply)
        requires
            old(self)@.wf(),
        ensures
            final(self)@ =~~= spec_get_task(old(self)@).0,
            r@ == spec_get_task(old(self)@).1,
            final(self)@.wf(),
    {
        let map_active = self.map_stage.todo_len() > 0 || self.map_stage.curr_len() > 0;
        if !map_active && self.reduce_stage.todo_len() == 0 && self.reduce_stage.curr_len() == 0 {
            return AssignmentReply::JobDone;
        }
        proof {
            lemma_get_task_preserves_wf(old(self)@);
        }
        if map_active {
            match self.map_stage.pop_todo() {
                None => AssignmentReply::Wait,
                Some(t) => {
                    let out = t.clone();
                    self.map_stage.mark_in_progress(t);
                    AssignmentReply::Assigned(out)
                },
            }
        } else {
            match self.reduce_stage.pop_todo() {
                None => AssignmentReply::Wait,
                Some(t) => {
                    let out = t.clone();
                    self.reduce_stage.mark_in_progress(t);
                    AssignmentReply::Assigned(out)
                },
            }
        }
    }

    /// The watchdog's reclaim of a Map task, by identifier.
    pub fn reclaim_map(&mut self, id: usize) -> (r: bool)
        requires
            old(self)@.wf(),
        ensures
            final(self)@ =~~= spec_reclaim_map(old(self)@, id as nat),
            r == (spec_find_id(old(self)@.map_stage.curr, id as nat, 0) is Some),
            final(self)@.wf(),
    {
        let r = self.map_stage.reclaim_if_stalled(id);
        proof {
            lemma_reclaim_map_preserves_wf(old(self)@, id as nat);
            assert(self@ =~~= spec_reclaim_map(old(self)@, id as nat));
        }
        r
    }

    /// The watchdog's reclaim of a Reduce task, by identifier.
    pub fn reclaim_reduce(&mut self, id: usize) -> (r: bool)
        requires
            old(self)@.wf(),
        ensures
            final(self)@ =~~= spec_reclaim_reduce(old(self)@, id as nat),
            r == (spec_find_id(old(self)@.reduce_stage.curr, id as nat, 0) is Some),
            final(self)@.wf(),
    {
        let r = self.reduce_stage.reclaim_if_stalled(id);
        proof {
            lemma_reclaim_reduce_preserves_wf(old(self)@, id as nat);
            assert(self@ =~~= spec_reclaim_reduce(old(self)@, id as nat));
        }
        r
    }
}

/// The coordinator: the job's partition count and its scheduling state. The
/// transport that serves the state lives outside the verified core.
pub struct Coordinator {
    pub num_buckets: u8,
    pub state: CoordinatorState,
}

impl Coordinator {
    /// Builds the initial state from the job's input manifest: one Map task
    /// per input file, in order, and one Reduce task per bucket, each Map
    /// task routing into exactly `num_buckets` partitions.
    pub fn new(num_buckets: u8, input_files: Vec<String>) -> (r: Coordinator)
        ensures
            r.num_buckets == num_buckets,
            r.state@.map_stage.curr.len() == 0,
            r.state@.map_stage.done.len() == 0,
            r.state@.reduce_stage.curr.len() == 0,
            r.state@.reduce_stage.done.len() == 0,
            r.state@.map_stage.todo.len() == input_files@.len(),
            forall|i: int|
                0 <= i < input_files@.len() ==> r.state@.map_stage.todo[i] == (TaskView::MapTask {
                    id: i as nat,
                    file: input_files.deep_view()[i],
                    num_buckets: num_buckets as nat,
                }),
            r.state@.reduce_stage.todo.len() == num_buckets as nat,
            forall|i: int|
                0 <= i < num_buckets as int ==> r.state@.reduce_stage.todo[i]
                    == (TaskView::ReduceTask { id: i as nat }),
            r.state@.wf(),
    {
        let mut state = CoordinatorState::new();
        let n = input_files.len();
        let mut i: usize = 0;
        let mut files = input_files;
        proof {
            assert(files.deep_view() =~~= input_files.deep_view());
        }
        while i < n
            invariant
                0 <= i <= n,
                files@.len() == n - i,
                forall|j: int|
                    0 <= j < files@.len() ==> files.deep_view()[j] == input_files.deep_view()[j
                        + i],
                state@.map_stage.todo.len() == i,
                forall|j: int|
                    0 <= j < i ==> state@.map_stage.todo[j] == (TaskView::MapTask {
                        id: j as nat,
                        file: input_files.deep_view()[j],
                        num_buckets: num_buckets as nat,
                    }),
                state@.map_stage.curr.len() == 0,
                state@.map_stage.done.len() == 0,
                state@.reduce_stage.all_tasks().len() == 0,
            decreases n - i,
        {
            let ghost prev = files.deep_view();
            let file = files.remove(0);
            proof {
                assert(file@ == prev[0]);
                assert(file@ == input_files.deep_view()[i as int]);
                assert forall|j: int| 0 <= j < files@.len() implies files.deep_view()[j]
                    == input_files.deep_view()[j + i + 1] by {
                    assert(files.deep_view()[j] == prev[j + 1]);
                }
            }
            let t = Task::MapTask { id: i, file, num_buckets: num_buckets as usize };
            state.map_stage.push_todo(t);
            i = i + 1;
        }
        let mut b: usize = 0;
        let nb = num_buckets as usize;
        while b < nb
            invariant
                0 <= b <= nb,
                nb == num_buckets as usize,
                state@.map_stage.todo.len() == n,
                forall|j: int|
                    0 <= j < n ==> state@.map_stage.todo[j] == (TaskView::MapTask {
                        id: j as nat,
                        file: input_files.deep_view()[j],
                        num_buckets: num_buckets as nat,
                    }),
                n == input_files@.len(),
                state@.map_stage.curr.len() == 0,
                state@.map_stage.done.len() == 0,
                state@.reduce_stage.todo.len() == b,
                forall|j: int|
                    0 <= j < b ==> state@.reduce_stage.todo[j] == (TaskView::ReduceTask {
                        id: j as nat,
                    }),
                state@.reduce_stage.curr.len() == 0,
                state@.reduce_stage.done.len() == 0,
            decreases nb - b,
        {
            state.reduce_stage.push_todo(Task::ReduceTask { id: b });
            b = b + 1;
        }
        proof {
            assert(state@.map_stage.all_tasks() =~= state@.map_stage.todo);
            assert(state@.reduce_stage.all_tasks() =~= state@.reduce_stage.todo);
            assert(state@.reduce_stage.total() == num_buckets as nat);
        }
        Coordinator { num_buckets, state }
    }
}

// ---------------------------------------------------------------------------
// Invariant preservation and the scheduler's laws
// ---------------------------------------------------------------------------

/// Stage gating, read off the invariant: while any Map task is still todo or
/// in progress, no Reduce task is in progress.
pub proof fn lemma_stage_gating(s: CoordinatorView)
    requires
        s.wf(),
        s.map_stage.todo.len() > 0 || s.map_stage.curr.len() > 0,
    ensures
        s.reduce_stage.curr.len() == 0,
{
}

/// A refresh preserves the invariant.
pub proof fn lemma_refresh_preserves_wf(
    s: CoordinatorView,
    map_counts: Seq<usize>,
    reduce_counts: Seq<usize>,
)
    requires
        s.wf(),
    ensures
        spec_refresh(s, map_counts, reduce_counts).wf(),
{
    let ns = spec_refresh(s, map_counts, reduce_counts);
    lemma_kept_completed(s.map_stage.curr, map_counts, 0);
    lemma_kept_completed(s.reduce_stage.curr, reduce_counts, 0);
    assert(ns.reduce_stage.total() == s.reduce_stage.total());
    assert forall|i: int| 0 <= i < ns.map_stage.all_tasks().len() implies (
    #[trigger] ns.map_stage.all_tasks()[i]) is MapTask && task_num_buckets(
        ns.map_stage.all_tasks()[i],
    ) == ns.reduce_stage.total() by {
        let x = ns.map_stage.all_tasks()[i];
        assert(s.map_stage.all_tasks().contains(x)) by {
            lemma_stage_element_origin(s.map_stage, ns.map_stage, map_counts, i);
        }
        let w = choose|w: int|
            0 <= w < s.map_stage.all_tasks().len() && s.map_stage.all_tasks()[w] == x;
    }
    assert forall|i: int| 0 <= i < ns.reduce_stage.all_tasks().len() implies (
    #[trigger] ns.reduce_stage.all_tasks()[i]) is ReduceTask by {
        let x = ns.reduce_stage.all_tasks()[i];
        assert(s.reduce_stage.all_tasks().contains(x)) by {
            lemma_stage_element_origin(s.reduce_stage, ns.reduce_stage, reduce_counts, i);
        }
        let w = choose|w: int|
            0 <= w < s.reduce_stage.all_tasks().len() && s.reduce_stage.all_tasks()[w] == x;
    }
    if ns.map_stage.todo.len() > 0 || ns.map_stage.curr.len() > 0 {
        assert(s.map_stage.todo.len() > 0 || s.map_stage.curr.len() > 0);
        assert(s.reduce_stage.curr.len() == 0);
        assert(ns.reduce_stage.curr.len() == 0);
    }
}

/// Each element of a refreshed stage was an element of the stage before.
proof fn lemma_stage_element_origin(s: StageView, ns: StageView, counts: Seq<usize>, i: int)
    requires
        ns == spec_refresh_stage(s, counts),
        0 <= i < ns.all_tasks().len(),
    ensures
        s.all_tasks().contains(ns.all_tasks()[i]),
{
    lemma_kept_completed(s.curr, counts, 0);
    let x = ns.all_tasks()[i];
    let nt = ns.todo.len();
    let nc = ns.curr.len();
    let nd0 = s.done.len();
    if i < nt {
        assert(x == s.todo[i]);
        assert(s.all_tasks()[i] == x);
    } else if i < nt + nc {
        assert(x == ns.curr[i - nt]);
        assert(kept_from(s.curr, counts, 0).contains(x));
        assert(s.curr.contains(x));
        let w = choose|w: int| 0 <= w < s.curr.len() && s.curr[w] == x;
        assert(0 <= w < s.curr.len() && s.curr[w] == x);
        assert((s.todo + s.curr)[s.todo.len() + w] == s.curr[w]);
        assert(s.all_tasks()[s.todo.len() + w] == (s.todo + s.curr)[s.todo.len() + w]);
        assert(s.all_tasks()[s.todo.len() + w] == x);
    } else if i < nt + nc + nd0 {
        assert(x == s.done[i - nt - nc]);
        assert(s.all_tasks()[s.todo.len() + s.curr.len() + (i - nt - nc)] == x);
    } else {
        assert(x == completed_from(s.curr, counts, 0)[i - nt - nc - nd0]);
        assert(completed_from(s.curr, counts, 0).contains(x));
        assert(s.curr.contains(x));
        let w = choose|w: int| 0 <= w < s.curr.len() && s.curr[w] == x;
        assert(0 <= w < s.curr.len() && s.curr[w] == x);
        assert((s.todo + s.curr)[s.todo.len() + w] == s.curr[w]);
        assert(s.all_tasks()[s.todo.len() + w] == (s.todo + s.curr)[s.todo.len() + w]);
        assert(s.all_tasks()[s.todo.len() + w] == x);
    }
}

/// A selection step preserves the invariant.
pub proof fn lemma_get_task_preserves_wf(s: CoordinatorView)
    requires
        s.wf(),
    ensures
        spec_get_task(s).0.wf(),
{
    let ns = spec_get_task(s).0;
    if s.all_queues_empty() {
    } else if s.map_retired() {
        if s.reduce_stage.todo.len() > 0 {
            assert(ns.map_stage == s.map_stage);
            assert(ns.reduce_stage.all_tasks() =~= s.reduce_stage.todo.drop_last()
                + s.reduce_stage.curr + seq![s.reduce_stage.todo.last()] + s.reduce_stage.done);
            assert forall|i: int| 0 <= i < ns.reduce_stage.all_tasks().len() implies (
            #[trigger] ns.reduce_stage.all_tasks()[i]) is ReduceTask by {
                lemma_requeue_index(s.reduce_stage, i);
            }
            assert(ns.reduce_stage.total() == s.reduce_stage.total());
        }
    } else {
        if s.map_stage.todo.len() > 0 {
            assert(ns.reduce_stage == s.reduce_stage);
            assert(ns.map_stage.all_tasks() =~= s.map_stage.todo.drop_last() + s.map_stage.curr
                + seq![s.map_stage.todo.last()] + s.map_stage.done);
            assert forall|i: int| 0 <= i < ns.map_stage.all_tasks().len() implies (
            #[trigger] ns.map_stage.all_tasks()[i]) is MapTask && task_num_buckets(
                ns.map_stage.all_tasks()[i],
            ) == ns.reduce_stage.total() by {
                lemma_requeue_index(s.map_stage, i);
            }
            assert(ns.map_stage.curr.len() > 0);
            assert(s.reduce_stage.curr.len() == 0);
        }
    }
}

/// Moving the last todo task to the back of in-progress only permutes the
/// stage: each index of the new arrangement holds some old element.
proof fn lemma_requeue_index(s: StageView, i: int)
    requires
        s.todo.len() > 0,
        0 <= i < (s.todo.drop_last() + s.curr + seq![s.todo.last()] + s.done).len(),
    ensures
        s.all_tasks().contains((s.todo.drop_last() + s.curr + seq![s.todo.last()] + s.done)[i]),
{
    let arranged = s.todo.drop_last() + s.curr + seq![s.todo.last()] + s.done;
    let x = arranged[i];
    let nt = s.todo.len() - 1;
    let nc = s.curr.len();
    if i < nt {
        assert(x == s.todo[i]);
        assert(s.all_tasks()[i] == x);
    } else if i < nt + nc {
        assert(x == s.curr[i - nt]);
        assert(s.all_tasks()[s.todo.len() + (i - nt)] == x);
    } else if i == nt + nc {
        assert(x == s.todo[s.todo.len() - 1]);
        assert(s.all_tasks()[s.todo.len() - 1] == x);
    } else {
        assert(x == s.done[i - nt - nc - 1]);
        assert(s.all_tasks()[s.todo.len() + s.curr.len() + (i - nt - nc - 1)] == x);
    }
}

/// Reclaiming a Map task preserves the invariant.
pub proof fn lemma_reclaim_map_preserves_wf(s: CoordinatorView, id: nat)
    requires
        s.wf(),
    ensures
        spec_reclaim_map(s, id).wf(),
{
    let ns = spec_reclaim_map(s, id);
    match spec_find_id(s.map_stage.curr, id, 0) {
        None => {
            assert(ns =~~= s);
        },
        Some(j) => {
            lemma_find_id_ensures(s.map_stage.curr, id, 0);
            assert(ns.map_stage.all_tasks() =~= s.map_stage.todo + seq![s.map_stage.curr[j]]
                + s.map_stage.curr.remove(j) + s.map_stage.done);
            lemma_remove_contains(s.map_stage.curr, j);
            assert forall|i: int| 0 <= i < ns.map_stage.all_tasks().len() implies (
            #[trigger] ns.map_stage.all_tasks()[i]) is MapTask && task_num_buckets(
                ns.map_stage.all_tasks()[i],
            ) == ns.reduce_stage.total() by {
                lemma_reclaim_index(s.map_stage, j, i);
            }
            assert(s.map_stage.curr.len() > 0);
            assert(s.reduce_stage.curr.len() == 0);
        },
    }
}

/// Reclaiming a Reduce task preserves the invariant.
pub proof fn lemma_reclaim_reduce_preserves_wf(s: CoordinatorView, id: nat)
    requires
        s.wf(),
    ensures
        spec_reclaim_reduce(s, id).wf(),
{
    let ns = spec_reclaim_reduce(s, id);
    match spec_find_id(s.reduce_stage.curr, id, 0) {
        None => {
            assert(ns =~~= s);
        },
        Some(j) => {
            lemma_find_id_ensures(s.reduce_stage.curr, id, 0);
            assert(ns.reduce_stage.all_tasks() =~= s.reduce_stage.todo + seq![
                s.reduce_stage.curr[j],
            ] + s.reduce_stage.curr.remove(j) + s.reduce_stage.done);
            lemma_remove_contains(s.reduce_stage.curr, j);
            assert forall|i: int| 0 <= i < ns.reduce_stage.all_tasks().len() implies (
            #[trigger] ns.reduce_stage.all_tasks()[i]) is ReduceTask by {
                lemma_reclaim_index(s.reduce_stage, j, i);
            }
            assert(ns.reduce_stage.total() == s.reduce_stage.total());
            assert(s.reduce_stage.curr.len() > 0);
            assert(s.map_stage.todo.len() == 0 && s.map_stage.curr.len() == 0);
        },
    }
}

/// Moving one in-progress task back to todo only permutes the stage.
proof fn lemma_reclaim_index(s: StageView, j: int, i: int)
    requires
        0 <= j < s.curr.len(),
        0 <= i < (s.todo + seq![s.curr[j]] + s.curr.remove(j) + s.done).len(),
    ensures
        s.all_tasks().contains((s.todo + seq![s.curr[j]] + s.curr.remove(j) + s.done)[i]),
{
    let arranged = s.todo + seq![s.curr[j]] + s.curr.remove(j) + s.done;
    let x = arranged[i];
    let nt = s.todo.len();
    let nc = s.curr.len();
    if i < nt {
        assert(x == s.todo[i]);
        assert(s.all_tasks()[i] == x);
    } else if i == nt {
        assert(x == s.curr[j]);
        assert(s.all_tasks()[nt + j] == x);
    } else if i < nt + nc {
        let w = i - nt - 1;
        if w < j {
            assert(x == s.curr[w]);
            assert(s.all_tasks()[nt + w] == x);
        } else {
            assert(x == s.curr[w + 1]);
            assert(s.all_tasks()[nt + w + 1] == x);
        }
    } else {
        assert(x == s.done[i - nt - nc]);
        assert(s.all_tasks()[nt + nc + (i - nt - nc)] == x);
    }
}

/// Completion is monotone across every scheduler step: no step removes a
/// task from a done set, it at most appends to it.
pub proof fn lemma_done_monotone(
    s: CoordinatorView,
    map_counts: Seq<usize>,
    reduce_counts: Seq<usize>,
    id: nat,
)
    ensures
        spec_refresh(s, map_counts, reduce_counts).map_stage.done =~= s.map_stage.done
            + completed_from(s.map_stage.curr, map_counts, 0),
        spec_refresh(s, map_counts, reduce_counts).reduce_stage.done =~= s.reduce_stage.done
            + completed_from(s.reduce_stage.curr, reduce_counts, 0),
        spec_get_task(s).0.map_stage.done == s.map_stage.done,
        spec_get_task(s).0.reduce_stage.done == s.reduce_stage.done,
        spec_reclaim_map(s, id).map_stage.done == s.map_stage.done,
        spec_reclaim_map(s, id).reduce_stage.done == s.reduce_stage.done,
        spec_reclaim_reduce(s, id).map_stage.done == s.map_stage.done,
        spec_reclaim_reduce(s, id).reduce_stage.done == s.reduce_stage.done,
{
}

/// Partition requirement: completing an in-progress Map task takes exactly
/// its partition count of intermediate artifacts, which in a well-formed
/// state is exactly the job's Reduce task count.
pub proof fn lemma_map_completion_needs_all_partitions(
    s: CoordinatorView,
    id: nat,
    observed: usize,
)
    requires
        s.wf(),
        spec_find_id(s.map_stage.curr, id, 0) is Some,
    ensures
        spec_try_complete_ok(s.map_stage, id, observed) <==> observed as nat
            == s.reduce_stage.total(),
{
    lemma_find_id_ensures(s.map_stage.curr, id, 0);
    let j = spec_find_id(s.map_stage.curr, id, 0).unwrap();
    let t = s.map_stage.curr[j];
    assert((s.map_stage.todo + s.map_stage.curr)[s.map_stage.todo.len() + j] == t);
    assert(s.map_stage.all_tasks()[s.map_stage.todo.len() + j] == (s.map_stage.todo
        + s.map_stage.curr)[s.map_stage.todo.len() + j]);
    assert(t is MapTask && task_num_buckets(t) == s.reduce_stage.total());
    assert(required_artifacts(t) == task_num_buckets(t));
}

/// Job completion: a selection step answers `JobDone` exactly when all four
/// assignable queues are empty; any other state gets `Wait` or a task.
pub proof fn lemma_job_done_iff(s: CoordinatorView)
    ensures
        (spec_get_task(s).1 is JobDone) <==> s.all_queues_empty(),
        !s.all_queues_empty() ==> (spec_get_task(s).1 is Wait || spec_get_task(s).1 is Assigned),
{
}

/// Reassignment liveness: when a stalled Map task is reclaimed while Map
/// work is outstanding, the very next selection step hands that same task
/// out again.
pub proof fn lemma_reclaimed_task_reassigned(s: CoordinatorView, id: nat)
    requires
        s.wf(),
        spec_find_id(s.map_stage.curr, id, 0) is Some,
    ensures
        ({
            let after = spec_reclaim_map(s, id);
            let j = spec_find_id(s.map_stage.curr, id, 0).unwrap();
            spec_get_task(after).1 == ReplyView::Assigned(s.map_stage.curr[j])
        }),
{
    lemma_find_id_ensures(s.map_stage.curr, id, 0);
    let after = spec_reclaim_map(s, id);
    assert(after.map_stage.todo.len() > 0);
    assert(!after.all_queues_empty());
    assert(!after.map_retired());
}

/// The same liveness for the Reduce stage: a reclaimed Reduce task is handed
/// out again by the very next selection step.
pub proof fn lemma_reclaimed_reduce_task_reassigned(s: CoordinatorView, id: nat)
    requires
        s.wf(),
        s.map_retired(),
        spec_find_id(s.reduce_stage.curr, id, 0) is Some,
    ensures
        ({
            let after = spec_reclaim_reduce(s, id);
            let j = spec_find_id(s.reduce_stage.curr, id, 0).unwrap();
            spec_get_task(after).1 == ReplyView::Assigned(s.reduce_stage.curr[j])
        }),
{
    lemma_find_id_ensures(s.reduce_stage.curr, id, 0);
    let after = spec_reclaim_reduce(s, id);
    assert(after.reduce_stage.todo.len() > 0);
    assert(!after.all_queues_empty());
    assert(after.map_retired());
}

/// Protocol law: the three wire forms are pairwise unambiguous, so the
/// worker's interpretation of an encoded reply recovers the reply — wait for
/// the empty string, shutdown for the sentinel, and the task itself for any
/// well-formed assignment.
pub proof fn lemma_reply_wire_round_trip(rv: ReplyView)
    requires
        rv matches ReplyView::Assigned(t) ==> t.wf(),
    ensures
        (rv is Wait) <==> spec_reply_wire(rv).len() == 0,
        (rv is JobDone) <==> (spec_reply_wire(rv).len() != 0 && spec_reply_wire(rv) == "done"@),
        rv matches ReplyView::Assigned(t) ==> spec_decode(spec_reply_wire(rv)) == Some(t),
{
    reveal_strlit("done");
    match rv {
        ReplyView::Wait => {},
        ReplyView::JobDone => {},
        ReplyView::Assigned(t) => {
            lemma_task_round_trip(t);
            let w = spec_reply_wire(rv);
            match t {
                TaskView::MapTask { .. } => {
                    assert(w[0] == 'm');
                },
                TaskView::ReduceTask { .. } => {
                    assert(w[0] == 'r');
                },
            }
            assert(w != "done"@);
        },
    }
}

} // verus!
