use amr::{AssignmentReply, Coordinator, CoordinatorState, StageState, Task};

fn two_by_two() -> CoordinatorState {
    let c = Coordinator::new(
        2,
        vec![String::from("./files/a.txt"), String::from("./files/b.txt")],
    );
    c.state
}

fn assigned_id(reply: AssignmentReply) -> usize {
    match reply {
        AssignmentReply::Assigned(t) => t.get_id(),
        _ => panic!("expected a task assignment"),
    }
}

#[test]
fn empty_job_is_done_immediately() {
    let mut st = CoordinatorState::new();
    assert!(matches!(st.get_task(), AssignmentReply::JobDone));
}

#[test]
fn two_files_two_buckets_full_run() {
    // Initial state: Map.todo has 2 tasks, Reduce.todo has 2 tasks.
    let mut st = two_by_two();

    // The first two calls hand out the two Map tasks, in some order.
    let first = st.get_task();
    let second = st.get_task();
    let (a, b) = (assigned_id(first), assigned_id(second));
    assert!(a != b && a < 2 && b < 2);

    // Before any completion the third call says Wait.
    assert!(matches!(st.get_task(), AssignmentReply::Wait));

    // Both Map tasks' 2x2 = 4 intermediate artifacts exist: each in-progress
    // Map task's probe counts its own 2.
    assert_eq!(st.map_probe_patterns().len(), 2);
    st.refresh(&vec![2, 2], &vec![]);

    // The next two calls hand out the two Reduce tasks.
    let third = st.get_task();
    let fourth = st.get_task();
    let (x, y) = (assigned_id(third), assigned_id(fourth));
    assert!(x != y && x < 2 && y < 2);

    // Both final artifacts exist: the next call reports the job done.
    assert_eq!(st.reduce_probe_patterns().len(), 2);
    st.refresh(&vec![], &vec![1, 1]);
    assert!(matches!(st.get_task(), AssignmentReply::JobDone));
}

#[test]
fn reduce_is_gated_until_map_retires() {
    let mut st = two_by_two();
    let a = assigned_id(st.get_task());
    let _b = assigned_id(st.get_task());

    // Only one Map task completes: the other is still in progress, so the
    // scheduler keeps answering Wait rather than handing out Reduce work.
    let counts: Vec<usize> = st
        .map_probe_patterns()
        .iter()
        .enumerate()
        .map(|(i, _)| if i == 0 { 2 } else { 0 })
        .collect();
    st.refresh(&counts, &vec![]);
    assert!(matches!(st.get_task(), AssignmentReply::Wait));
    let _ = a;
}

#[test]
fn incomplete_probe_count_does_not_complete_a_map_task() {
    let mut st = two_by_two();
    let _ = st.get_task();
    let _ = st.get_task();
    // Three of four artifacts: neither task has its full partition count.
    st.refresh(&vec![2, 1], &vec![]);
    assert!(matches!(st.get_task(), AssignmentReply::Wait));
}

#[test]
fn stalled_map_task_is_reassigned_after_reclaim() {
    // A Map task assigned but never completed: once the watchdog delay has
    // elapsed and the reclaim runs, the next call can hand the same task's
    // id out again.
    let c = Coordinator::new(1, vec![String::from("./files/a.txt")]);
    let mut st = c.state;
    let id = assigned_id(st.get_task());
    assert!(matches!(st.get_task(), AssignmentReply::Wait));
    assert!(st.reclaim_map(id));
    let again = assigned_id(st.get_task());
    assert_eq!(again, id);
}

#[test]
fn reclaim_of_completed_task_is_noop_twice() {
    let c = Coordinator::new(1, vec![String::from("./files/a.txt")]);
    let mut st = c.state;
    let id = assigned_id(st.get_task());
    st.refresh(&vec![1], &vec![]);
    assert!(!st.reclaim_map(id));
    assert!(!st.reclaim_map(id));
    // The completed task stayed done: the scheduler moves on to Reduce.
    let rid = assigned_id(st.get_task());
    assert_eq!(rid, 0);
}

#[test]
fn reclaim_reduce_task() {
    let c = Coordinator::new(1, vec![String::from("./files/a.txt")]);
    let mut st = c.state;
    let mid = assigned_id(st.get_task());
    st.refresh(&vec![1], &vec![]);
    let rid = assigned_id(st.get_task());
    assert!(st.reclaim_reduce(rid));
    assert!(!st.reclaim_reduce(rid));
    let again = assigned_id(st.get_task());
    assert_eq!(again, rid);
    let _ = mid;
}

#[test]
fn probe_patterns_follow_assignments() {
    let c = Coordinator::new(3, vec![String::from("./files/a.txt")]);
    let mut st = c.state;
    assert!(st.map_probe_patterns().is_empty());
    let id = assigned_id(st.get_task());
    assert_eq!(st.map_probe_patterns(), vec![format!("./files/intermediate_map_{}_reduce_*", id)]);
    st.refresh(&vec![3], &vec![]);
    let rid = assigned_id(st.get_task());
    assert_eq!(st.reduce_probe_patterns(), vec![format!("./files/reduce_result_{}", rid)]);
}

#[test]
fn stage_queue_is_lifo() {
    let mut q = StageState::new();
    q.push_todo(Task::ReduceTask { id: 0 });
    q.push_todo(Task::ReduceTask { id: 1 });
    q.push_todo(Task::ReduceTask { id: 2 });
    assert_eq!(q.pop_todo().unwrap().get_id(), 2);
    assert_eq!(q.pop_todo().unwrap().get_id(), 1);
    assert_eq!(q.pop_todo().unwrap().get_id(), 0);
    assert!(q.pop_todo().is_none());
}

#[test]
fn stage_queue_try_complete_checks_the_probe() {
    let mut q = StageState::new();
    q.push_todo(Task::MapTask { id: 5, file: String::from("f"), num_buckets: 3 });
    let t = q.pop_todo().unwrap();
    q.mark_in_progress(t);
    // Too few artifacts: not complete.
    assert!(!q.try_complete(5, 2));
    assert_eq!(q.curr_len(), 1);
    // An unknown id: no-op.
    assert!(!q.try_complete(6, 3));
    // The full partition count: complete.
    assert!(q.try_complete(5, 3));
    assert_eq!(q.curr_len(), 0);
    assert_eq!(q.done_len(), 1);
    // Once done, a late reclaim finds nothing.
    assert!(!q.reclaim_if_stalled(5));
    assert_eq!(q.done_len(), 1);
    assert_eq!(q.todo_len(), 0);
}

#[test]
fn stage_queue_reclaim_moves_back_to_todo() {
    let mut q = StageState::new();
    q.push_todo(Task::ReduceTask { id: 4 });
    let t = q.pop_todo().unwrap();
    q.mark_in_progress(t);
    assert!(q.reclaim_if_stalled(4));
    assert_eq!(q.todo_len(), 1);
    assert_eq!(q.curr_len(), 0);
    assert!(!q.reclaim_if_stalled(4));
    assert_eq!(q.pop_todo().unwrap().get_id(), 4);
}

#[test]
fn coordinator_new_seeds_both_stages() {
    let c = Coordinator::new(2, vec![String::from("x.txt"), String::from("y.txt")]);
    assert_eq!(c.num_buckets, 2);
    let mut st = c.state;
    // Map tasks come out 1 then 0 (most recently queued first), each routing
    // into 2 partitions.
    match st.get_task() {
        AssignmentReply::Assigned(Task::MapTask { id, file, num_buckets }) => {
            assert_eq!(id, 1);
            assert_eq!(file, "y.txt");
            assert_eq!(num_buckets, 2);
        },
        _ => panic!("expected a map task"),
    }
    match st.get_task() {
        AssignmentReply::Assigned(Task::MapTask { id, file, num_buckets }) => {
            assert_eq!(id, 0);
            assert_eq!(file, "x.txt");
            assert_eq!(num_buckets, 2);
        },
        _ => panic!("expected a map task"),
    }
}

#[test]
fn reply_wire_forms() {
    let t = Task::MapTask { id: 1, file: String::from("f"), num_buckets: 2 };
    assert_eq!(amr::encode_reply(&AssignmentReply::Assigned(t)), "map\n1\nf\n2");
    assert_eq!(amr::encode_reply(&AssignmentReply::Wait), "");
    assert_eq!(amr::encode_reply(&AssignmentReply::JobDone), "done");
}
