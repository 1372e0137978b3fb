//! A batch-processing coordinator's task-scheduling state machine, the task
//! wire codec, and the worker-side partition/merge logic, with verified
//! contracts.

mod artifacts;
mod coordinator;
mod stage;
mod task;
mod text;
mod worker;

pub use artifacts::{intermediate_name, map_probe_pattern, reduce_input_pattern, reduce_result_name};
pub use coordinator::{encode_reply, AssignmentReply, Coordinator, CoordinatorState};
pub use stage::StageState;
pub use task::{MalformedTaskError, Task};
pub use text::usize_to_string;
pub use worker::{
    format_kv_line, group_by_key, interpret_reply, map_words, parse_kv_line, partition_pairs,
    reduce, Worker, WorkerStep,
};
