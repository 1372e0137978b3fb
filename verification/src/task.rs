//! The task model: the descriptor of one unit of work (Map or Reduce), its
//! identity, and its newline-delimited wire encoding, with a proved
//! encode/decode round trip.

use vstd::prelude::*;
use vstd::string::StringExecFns;

use crate::text::{
    append_decimal, dec_digits, is_digit_char, lemma_dec_digits_val, lemma_digits_exclude,
    lemma_split_concat, lemma_split_no_sep, parse_usize, spec_parse_usize, split_on,
    split_on_char, str_eq_str,
};

verus! {

/// Mathematical value of a task.
pub enum TaskView {
    MapTask { id: nat, file: Seq<char>, num_buckets: nat },
    ReduceTask { id: nat },
}

impl TaskView {
    /// The task's identifier, unique within its stage.
    pub open spec fn id(self) -> nat {
        match self {
            TaskView::MapTask { id, .. } => id,
            TaskView::ReduceTask { id } => id,
        }
    }

    /// A value that an executable task can hold, and whose encoding splits
    /// back into its own fields: the input reference holds no newline.
    pub open spec fn wf(self) -> bool {
        match self {
            TaskView::MapTask { id, file, num_buckets } => id <= usize::MAX && num_buckets
                <= usize::MAX && !file.contains('\n'),
            TaskView::ReduceTask { id } => id <= usize::MAX,
        }
    }
}

/// One unit of work: a Map task carries the input it reads and the number of
/// partitions its output is split into; a Reduce task is named by its bucket.
/// A task is created once, at job initialization, and never mutated.
#[derive(Debug)]
pub enum Task {
    MapTask { id: usize, file: String, num_buckets: usize },
    ReduceTask { id: usize },
}

impl View for Task {
    type V = TaskView;

    open spec fn view(&self) -> TaskView {
        match self {
            Task::MapTask { id, file, num_buckets } => TaskView::MapTask {
                id: *id as nat,
                file: file@,
                num_buckets: *num_buckets as nat,
            },
            Task::ReduceTask { id } => TaskView::ReduceTask { id: *id as nat },
        }
    }
}

impl DeepView for Task {
    type V = TaskView;

    open spec fn deep_view(&self) -> TaskView {
        self@
    }
}

impl PartialEq for Task {
    fn eq(&self, other: &Self) -> (r: bool) {
        match (self, other) {
            (
                Task::MapTask { id: a, file: f, num_buckets: n },
                Task::MapTask { id: b, file: g, num_buckets: m },
            ) => *a == *b && f.eq(g) && *n == *m,
            (Task::ReduceTask { id: a }, Task::ReduceTask { id: b }) => *a == *b,
            _ => false,
        }
    }
}

impl vstd::std_specs::cmp::PartialEqSpecImpl for Task {
    open spec fn obeys_eq_spec() -> bool {
        true
    }

    open spec fn eq_spec(&self, other: &Task) -> bool {
        self@ == other@
    }
}

impl Eq for Task {}

impl Clone for Task {
    /// The clone has the same mathematical value as the original.
    fn clone(&self) -> (r: Self)
        ensures
            r@ == self@,
    {
        match self {
            Task::MapTask { id, file, num_buckets } => Task::MapTask {
                id: *id,
                file: file.clone(),
                num_buckets: *num_buckets,
            },
            Task::ReduceTask { id } => Task::ReduceTask { id: *id },
        }
    }
}

/// The wire form of a task: a newline-delimited field list whose first field
/// is the variant tag.
pub open spec fn spec_encode(t: TaskView) -> Seq<char> {
    match t {
        TaskView::MapTask { id, file, num_buckets } => seq!['m', 'a', 'p', '\n'] + dec_digits(id)
            + seq!['\n'] + file + seq!['\n'] + dec_digits(num_buckets),
        TaskView::ReduceTask { id } => seq!['r', 'e', 'd', 'u', 'c', 'e', '\n'] + dec_digits(id),
    }
}

/// What decoding a wire string yields: a task when the tag is recognized,
/// the field count for that tag is right and the numeric fields parse, and
/// nothing otherwise.
pub open spec fn spec_decode(s: Seq<char>) -> Option<TaskView> {
    let parts = split_on(s, '\n');
    if parts[0] == seq!['m', 'a', 'p'] {
        if parts.len() == 4 {
            match (spec_parse_usize(parts[1]), spec_parse_usize(parts[3])) {
                (Some(id), Some(nb)) => Some(
                    TaskView::MapTask { id: id as nat, file: parts[2], num_buckets: nb as nat },
                ),
                _ => None,
            }
        } else {
            None
        }
    } else if parts[0] == seq!['r', 'e', 'd', 'u', 'c', 'e'] {
        if parts.len() == 2 {
            match spec_parse_usize(parts[1]) {
                Some(id) => Some(TaskView::ReduceTask { id: id as nat }),
                None => None,
            }
        } else {
            None
        }
    } else {
        None
    }
}

/// Decoding failed: the tag was unrecognized, the field count for the tag
/// was wrong, or a numeric field did not parse.
#[derive(Debug, PartialEq, Eq, Clone, Copy)]
pub struct MalformedTaskError {}

impl Task {
    /// Encodes the task for the wire.
    pub fn to_string(&self) -> (r: String)
        ensures
            r@ == spec_encode(self@),
    {
        match self {
            Task::MapTask { id, file, num_buckets } => {
                proof {
                    reveal_strlit("map\n");
                    reveal_strlit("\n");
                }
                let mut s = String::new();
                s.append("map\n");
                append_decimal(&mut s, *id);
                s.append("\n");
                s.append(file.as_str());
                s.append("\n");
                append_decimal(&mut s, *num_buckets);
                proof {
                    assert(s@ =~= spec_encode(self@));
                }
                s
            },
            Task::ReduceTask { id } => {
                proof {
                    reveal_strlit("reduce\n");
                }
                let mut s = String::new();
                s.append("reduce\n");
                append_decimal(&mut s, *id);
                proof {
                    assert(s@ =~= spec_encode(self@));
                }
                s
            },
        }
    }

    /// Decodes a wire string back into a task; fails exactly where
    /// `spec_decode` yields nothing.
    pub fn from_string(s: String) -> (r: Result<Task, MalformedTaskError>)
        ensures
            match r {
                Ok(t) => spec_decode(s@) == Some(t@),
                Err(_) => spec_decode(s@) is None,
            },
    {
        proof {
            reveal_strlit("map");
            reveal_strlit("reduce");
            assert("map"@ =~= seq!['m', 'a', 'p']);
            assert("reduce"@ =~= seq!['r', 'e', 'd', 'u', 'c', 'e']);
        }
        let parts = split_on_char(s.as_str(), '\n');
        proof {
            assert(parts.deep_view()[0] == parts@[0]@);
        }
        if str_eq_str(parts[0].as_str(), "map") {
            if parts.len() != 4 {
                return Err(MalformedTaskError {});
            }
            proof {
                assert(parts.deep_view()[1] == parts@[1]@);
                assert(parts.deep_view()[2] == parts@[2]@);
                assert(parts.deep_view()[3] == parts@[3]@);
            }
            let id = match parse_usize(parts[1].as_str()) {
                Some(v) => v,
                None => {
                    return Err(MalformedTaskError {});
                },
            };
            let nb = match parse_usize(parts[3].as_str()) {
                Some(v) => v,
                None => {
                    return Err(MalformedTaskError {});
                },
            };
            let file = parts[2].clone();
            Ok(Task::MapTask { id, file, num_buckets: nb })
        } else if str_eq_str(parts[0].as_str(), "reduce") {
            if parts.len() != 2 {
                return Err(MalformedTaskError {});
            }
            proof {
                assert(parts.deep_view()[1] == parts@[1]@);
            }
            let id = match parse_usize(parts[1].as_str()) {
                Some(v) => v,
                None => {
                    return Err(MalformedTaskError {});
                },
            };
            Ok(Task::ReduceTask { id })
        } else {
            Err(MalformedTaskError {})
        }
    }

    /// The task's identifier.
    pub fn get_id(&self) -> (r: usize)
        ensures
            r as nat == self@.id(),
    {
        match self {
            Task::MapTask { id, .. } => *id,
            Task::ReduceTask { id } => *id,
        }
    }
}

/// A decimal rendering never holds a newline.
proof fn lemma_dec_digits_no_newline(n: nat)
    ensures
        !dec_digits(n).contains('\n'),
{
    lemma_dec_digits_val(n);
    assert(!is_digit_char('\n'));
    lemma_digits_exclude(dec_digits(n), '\n');
}

/// A decimal rendering of a value that fits parses back to that value.
proof fn lemma_dec_digits_parse(n: nat)
    requires
        n <= usize::MAX,
    ensures
        spec_parse_usize(dec_digits(n)) == Some(n as usize),
{
    lemma_dec_digits_val(n);
}

/// Round-trip law: decoding the encoding of any well-formed task yields an
/// equal task, in variant and all fields.
pub proof fn lemma_task_round_trip(t: TaskView)
    requires
        t.wf(),
    ensures
        spec_decode(spec_encode(t)) == Some(t),
{
    match t {
        TaskView::MapTask { id, file, num_buckets } => {
            let tag = seq!['m', 'a', 'p'];
            let c = file + seq!['\n'] + dec_digits(num_buckets);
            let b = dec_digits(id) + seq!['\n'] + c;
            let s = spec_encode(t);
            assert(s =~= tag + seq!['\n'] + b);
            assert(!tag.contains('\n')) by {
                assert forall|i: int| 0 <= i < 3 implies tag[i] != '\n' by {}
            }
            lemma_split_concat(tag, b, '\n');
            lemma_dec_digits_no_newline(id);
            lemma_split_concat(dec_digits(id), c, '\n');
            lemma_split_concat(file, dec_digits(num_buckets), '\n');
            lemma_dec_digits_no_newline(num_buckets);
            lemma_split_no_sep(dec_digits(num_buckets), '\n');
            let parts = split_on(s, '\n');
            assert(parts =~~= seq![tag, dec_digits(id), file, dec_digits(num_buckets)]);
            lemma_dec_digits_parse(id);
            lemma_dec_digits_parse(num_buckets);
            assert(spec_decode(s) == Some(t));
        },
        TaskView::ReduceTask { id } => {
            let tag = seq!['r', 'e', 'd', 'u', 'c', 'e'];
            let s = spec_encode(t);
            assert(s =~= tag + seq!['\n'] + dec_digits(id));
            assert(!tag.contains('\n')) by {
                assert forall|i: int| 0 <= i < 6 implies tag[i] != '\n' by {}
            }
            lemma_split_concat(tag, dec_digits(id), '\n');
            lemma_dec_digits_no_newline(id);
            lemma_split_no_sep(dec_digits(id), '\n');
            let parts = split_on(s, '\n');
            assert(parts =~~= seq![tag, dec_digits(id)]);
            assert(parts[0] != seq!['m', 'a', 'p']) by {
                assert(parts[0].len() == 6);
            }
            lemma_dec_digits_parse(id);
            assert(spec_decode(s) == Some(t));
        },
    }
}

} // verus!
