//! The artifact naming scheme shared by the coordinator and the workers.
//! Names encode both identifying fields — the producing Map task and the
//! receiving Reduce bucket for intermediate artifacts, the Reduce task for
//! final artifacts — so that the completion probe can filter by task
//! identifier and count what it finds.

use vstd::prelude::*;
use vstd::string::StringExecFns;

use crate::text::{append_decimal, dec_digits};

verus! {

/// Name of the intermediate artifact a Map task writes for one bucket.
pub open spec fn spec_intermediate_name(map_id: nat, bucket: nat) -> Seq<char> {
    "./files/intermediate_map_"@ + dec_digits(map_id) + "_reduce_"@ + dec_digits(bucket)
}

/// Pattern matching every intermediate artifact one Map task writes: the
/// completion probe counts its matches against the task's partition count.
pub open spec fn spec_map_probe_pattern(map_id: nat) -> Seq<char> {
    "./files/intermediate_map_"@ + dec_digits(map_id) + "_reduce_*"@
}

/// Pattern matching every intermediate artifact routed to one Reduce bucket,
/// whichever Map task wrote it.
pub open spec fn spec_reduce_input_pattern(bucket: nat) -> Seq<char> {
    "./files/intermediate_map_*_reduce_"@ + dec_digits(bucket)
}

/// Name of the final artifact a Reduce task writes; the completion probe
/// looks for exactly this name.
pub open spec fn spec_reduce_result_name(reduce_id: nat) -> Seq<char> {
    "./files/reduce_result_"@ + dec_digits(reduce_id)
}

/// Builds the intermediate artifact name for one Map task and bucket.
pub fn intermediate_name(map_id: usize, bucket: usize) -> (r: String)
    ensures
        r@ == spec_intermediate_name(map_id as nat, bucket as nat),
{
    let mut s = String::new();
    s.append("./files/intermediate_map_");
    append_decimal(&mut s, map_id);
    s.append("_reduce_");
    append_decimal(&mut s, bucket);
    proof {
        assert(s@ =~= spec_intermediate_name(map_id as nat, bucket as nat));
    }
    s
}

/// Builds the probe pattern for one Map task's intermediate artifacts.
pub fn map_probe_pattern(map_id: usize) -> (r: String)
    ensures
        r@ == spec_map_probe_pattern(map_id as nat),
{
    let mut s = String::new();
    s.append("./files/intermediate_map_");
    append_decimal(&mut s, map_id);
    s.append("_reduce_*");
    proof {
        assert(s@ =~= spec_map_probe_pattern(map_id as nat));
    }
    s
}

/// Builds the pattern for the intermediate artifacts one Reduce task reads.
pub fn reduce_input_pattern(bucket: usize) -> (r: String)
    ensures
        r@ == spec_reduce_input_pattern(bucket as nat),
{
    let mut s = String::new();
    s.append("./files/intermediate_map_*_reduce_");
    append_decimal(&mut s, bucket);
    proof {
        assert(s@ =~= spec_reduce_input_pattern(bucket as nat));
    }
    s
}

/// Builds the final artifact name for one Reduce task.
pub fn reduce_result_name(reduce_id: usize) -> (r: String)
    ensures
        r@ == spec_reduce_result_name(reduce_id as nat),
{
    let mut s = String::new();
    s.append("./files/reduce_result_");
    append_decimal(&mut s, reduce_id);
    proof {
        assert(s@ =~= spec_reduce_result_name(reduce_id as nat));
    }
    s
}

} // verus!
