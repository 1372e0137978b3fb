//! The worker side of the scheduler's contract: interpreting an assignment
//! reply, routing Map output into partitions so that equal keys always share
//! a bucket, grouping intermediate pairs by key for the Reduce step, and the
//! line format of the artifacts. The surrounding poll loop and all file and
//! socket handling live outside the verified core.

use vstd::prelude::*;
use vstd::string::StrSliceExecFns;
use vstd::string::StringExecFns;

use crate::task::{spec_decode, MalformedTaskError, Task};
use crate::text::{
    dec_digits, lemma_lex_trans, lemma_lex_trichotomy, lemma_split_concat, lemma_split_no_sep,
    lex_lt, split_on, split_on_char, str_eq_str, str_lex_lt, usize_to_string,
};

verus! {

/// The stable hash of a key, as the standard hasher computes it: a fixed
/// function of the key's characters alone, identical across workers, which
/// is what routes equal keys to equal buckets.
pub uninterp spec fn key_hash(k: Seq<char>) -> u64;

/// Relies on std's DefaultHasher (new, hash, finish): a hasher created by
/// `new` uses fixed keys, so the digest depends on the hashed string alone.
#[verifier::external_body]
fn stable_hash(k: &String) -> (r: u64)
    ensures
        r == key_hash(k@),
{
    let mut h = std::collections::hash_map::DefaultHasher::new();
    std::hash::Hash::hash(k, &mut h);
    std::hash::Hasher::finish(&h)
}

/// The bucket a key is routed to: its stable hash modulo the partition
/// count.
pub open spec fn spec_bucket(k: Seq<char>, num_buckets: nat) -> nat
    recommends
        num_buckets > 0,
{
    key_hash(k) as nat % num_buckets
}

/// The pairs from index `i` on whose key routes to bucket `b`, in order.
pub open spec fn in_bucket_from(
    pairs: Seq<(Seq<char>, Seq<char>)>,
    num_buckets: nat,
    b: nat,
    i: int,
) -> Seq<(Seq<char>, Seq<char>)>
    decreases pairs.len() - i,
{
    if i < 0 || i >= pairs.len() {
        Seq::empty()
    } else if spec_bucket(pairs[i].0, num_buckets) == b {
        seq![pairs[i]] + in_bucket_from(pairs, num_buckets, b, i + 1)
    } else {
        in_bucket_from(pairs, num_buckets, b, i + 1)
    }
}

/// Partitions Map output into `num_buckets` buckets by the stable hash of
/// each key: bucket `b` receives exactly the pairs routed to it, in input
/// order, so pairs with equal keys always land in the same bucket.
pub fn partition_pairs(pairs: Vec<(String, String)>, num_buckets: usize) -> (r: Vec<
    Vec<(String, String)>,
>)
    requires
        num_buckets >= 1,
    ensures
        r@.len() == num_buckets,
        forall|b: int|
            0 <= b < num_buckets ==> r.deep_view()[b] =~~= in_bucket_from(
                pairs.deep_view(),
                num_buckets as nat,
                b as nat,
                0,
            ),
{
    let ghost p0 = pairs.deep_view();
    let mut r: Vec<Vec<(String, String)>> = Vec::new();
    let mut b: usize = 0;
    while b < num_buckets
        invariant
            0 <= b <= num_buckets,
            r@.len() == b,
            forall|j: int| 0 <= j < b ==> r.deep_view()[j] =~~= Seq::<(Seq<char>, Seq<char>)>::empty(),
        decreases num_buckets - b,
    {
        let ghost rd = r.deep_view();
        r.push(Vec::new());
        proof {
            assert(r.deep_view() =~~= rd.push(Seq::<(Seq<char>, Seq<char>)>::empty()));
        }
        b = b + 1;
    }
    let mut rest = pairs;
    let n = rest.len();
    let mut i: usize = 0;
    while i < n
        invariant
            num_buckets >= 1,
            0 <= i <= n,
            n == p0.len(),
            rest@.len() == n - i,
            forall|j: int| 0 <= j < n - i ==> rest.deep_view()[j] == p0[j + i],
            r@.len() == num_buckets,
            forall|bb: int|
                0 <= bb < num_buckets ==> #[trigger] r.deep_view()[bb] + in_bucket_from(
                    p0,
                    num_buckets as nat,
                    bb as nat,
                    i as int,
                ) =~~= in_bucket_from(p0, num_buckets as nat, bb as nat, 0),
        decreases n - i,
    {
        let ghost prev = rest.deep_view();
        let pair = rest.remove(0);
        proof {
            assert(pair.deep_view() == prev[0]);
            assert(pair.deep_view() == p0[i as int]);
            assert forall|j: int| 0 <= j < rest@.len() implies rest.deep_view()[j] == p0[j + i + 1] by {
                assert(rest.deep_view()[j] == prev[j + 1]);
            }
        }
        let h = stable_hash(&pair.0);
        let bi = (h % (num_buckets as u64)) as usize;
        proof {
            assert(h % (num_buckets as u64) < num_buckets as u64);
            assert(bi as nat == spec_bucket(p0[i as int].0, num_buckets as nat));
        }
        let ghost rd = r.deep_view();
        let mut inner = r.remove(bi);
        inner.push(pair);
        r.insert(bi, inner);
        proof {
            assert(r.deep_view() =~~= rd.update(bi as int, rd[bi as int].push(p0[i as int])));
            assert forall|bb: int|
                0 <= bb < num_buckets implies #[trigger] r.deep_view()[bb] + in_bucket_from(
                p0,
                num_buckets as nat,
                bb as nat,
                i as int + 1,
            ) =~~= in_bucket_from(p0, num_buckets as nat, bb as nat, 0) by {
                if bb == bi as int {
                    assert(in_bucket_from(p0, num_buckets as nat, bb as nat, i as int) =~~= seq![
                        p0[i as int],
                    ] + in_bucket_from(p0, num_buckets as nat, bb as nat, i as int + 1));
                    assert(r.deep_view()[bb] =~~= rd[bb].push(p0[i as int]));
                } else {
                    assert(in_bucket_from(p0, num_buckets as nat, bb as nat, i as int)
                        =~~= in_bucket_from(p0, num_buckets as nat, bb as nat, i as int + 1));
                    assert(r.deep_view()[bb] =~~= rd[bb]);
                }
            }
        }
        i = i + 1;
    }
    proof {
        assert forall|bb: int| 0 <= bb < num_buckets implies r.deep_view()[bb] =~~= in_bucket_from(
            p0,
            num_buckets as nat,
            bb as nat,
            0,
        ) by {
            assert(in_bucket_from(p0, num_buckets as nat, bb as nat, n as int)
                =~~= Seq::<(Seq<char>, Seq<char>)>::empty());
            assert(r.deep_view()[bb] + in_bucket_from(p0, num_buckets as nat, bb as nat, n as int)
                =~~= r.deep_view()[bb]);
        }
    }
    r
}

/// Every pair in a bucket was routed there by its key's hash.
pub proof fn lemma_bucket_membership(
    pairs: Seq<(Seq<char>, Seq<char>)>,
    num_buckets: nat,
    b: nat,
    i: int,
)
    ensures
        forall|x: (Seq<char>, Seq<char>)|
            in_bucket_from(pairs, num_buckets, b, i).contains(x) ==> spec_bucket(x.0, num_buckets)
                == b,
    decreases pairs.len() - i,
{
    if 0 <= i < pairs.len() {
        lemma_bucket_membership(pairs, num_buckets, b, i + 1);
        assert forall|x: (Seq<char>, Seq<char>)|
            in_bucket_from(pairs, num_buckets, b, i).contains(x) implies spec_bucket(
            x.0,
            num_buckets,
        ) == b by {
            let s = in_bucket_from(pairs, num_buckets, b, i);
            let rest = in_bucket_from(pairs, num_buckets, b, i + 1);
            let w = choose|w: int| 0 <= w < s.len() && s[w] == x;
            if spec_bucket(pairs[i].0, num_buckets) == b {
                if w >= 1 {
                    assert(rest[w - 1] == x);
                    assert(rest.contains(x));
                }
            } else {
                assert(rest.contains(x));
            }
        }
    }
}

/// Grouping law: pairs whose keys are equal always land in the same bucket,
/// whatever bucket each is drawn from.
pub proof fn lemma_equal_keys_grouped(
    pairs: Seq<(Seq<char>, Seq<char>)>,
    num_buckets: nat,
    b1: nat,
    b2: nat,
    x1: (Seq<char>, Seq<char>),
    x2: (Seq<char>, Seq<char>),
)
    requires
        in_bucket_from(pairs, num_buckets, b1, 0).contains(x1),
        in_bucket_from(pairs, num_buckets, b2, 0).contains(x2),
        x1.0 == x2.0,
    ensures
        b1 == b2,
{
    lemma_bucket_membership(pairs, num_buckets, b1, 0);
    lemma_bucket_membership(pairs, num_buckets, b2, 0);
}

// ---------------------------------------------------------------------------
// Grouping intermediate pairs by key
// ---------------------------------------------------------------------------

/// Folding one (key, value) pair into a key-sorted association list: the
/// value is appended to its key's entry, or a fresh entry is opened at the
/// key's place in ascending key order.
pub open spec fn group_insert(
    acc: Seq<(Seq<char>, Seq<Seq<char>>)>,
    k: Seq<char>,
    v: Seq<char>,
) -> Seq<(Seq<char>, Seq<Seq<char>>)>
    decreases acc.len(),
{
    if acc.len() == 0 {
        seq![(k, seq![v])]
    } else if acc[0].0 == k {
        seq![(acc[0].0, acc[0].1.push(v))] + acc.drop_first()
    } else if lex_lt(k, acc[0].0) {
        seq![(k, seq![v])] + acc
    } else {
        seq![acc[0]] + group_insert(acc.drop_first(), k, v)
    }
}

/// Folding the pairs from index `i` on into the accumulator.
pub open spec fn spec_group_from(
    pairs: Seq<(Seq<char>, Seq<char>)>,
    i: int,
    acc: Seq<(Seq<char>, Seq<Seq<char>>)>,
) -> Seq<(Seq<char>, Seq<Seq<char>>)>
    decreases pairs.len() - i,
{
    if i < 0 || i >= pairs.len() {
        acc
    } else {
        spec_group_from(pairs, i + 1, group_insert(acc, pairs[i].0, pairs[i].1))
    }
}

/// All pairs grouped by key: one entry per distinct key, in ascending
/// lexicographic key order, holding that key's values in input order.
pub open spec fn spec_group(pairs: Seq<(Seq<char>, Seq<char>)>) -> Seq<
    (Seq<char>, Seq<Seq<char>>),
> {
    spec_group_from(pairs, 0, Seq::empty())
}

/// The entries' keys ascend strictly.
pub open spec fn entries_sorted(acc: Seq<(Seq<char>, Seq<Seq<char>>)>) -> bool {
    forall|i: int, j: int|
        #![trigger acc[i], acc[j]]
        0 <= i < j < acc.len() ==> lex_lt(acc[i].0, acc[j].0)
}

/// Inserting a key found at entry `f`, past entries that neither hold it nor
/// come after it, only extends that entry.
proof fn lemma_group_insert_found(
    acc: Seq<(Seq<char>, Seq<Seq<char>>)>,
    k: Seq<char>,
    v: Seq<char>,
    f: int,
)
    requires
        0 <= f < acc.len(),
        acc[f].0 == k,
        forall|j: int| 0 <= j < f ==> acc[j].0 != k && !lex_lt(k, acc[j].0),
    ensures
        group_insert(acc, k, v) =~~= acc.update(f, (acc[f].0, acc[f].1.push(v))),
    decreases f,
{
    if f == 0 {
    } else {
        assert(acc[0].0 != k && !lex_lt(k, acc[0].0));
        let rest = acc.drop_first();
        assert forall|j: int| 0 <= j < f - 1 implies rest[j].0 != k && !lex_lt(k, rest[j].0) by {
            assert(rest[j] == acc[j + 1]);
        }
        lemma_group_insert_found(rest, k, v, f - 1);
    }
}

/// Inserting a key that belongs just before entry `f` opens a fresh entry
/// there.
proof fn lemma_group_insert_before(
    acc: Seq<(Seq<char>, Seq<Seq<char>>)>,
    k: Seq<char>,
    v: Seq<char>,
    f: int,
)
    requires
        0 <= f < acc.len(),
        acc[f].0 != k,
        lex_lt(k, acc[f].0),
        forall|j: int| 0 <= j < f ==> acc[j].0 != k && !lex_lt(k, acc[j].0),
    ensures
        group_insert(acc, k, v) =~~= acc.insert(f, (k, seq![v])),
    decreases f,
{
    if f == 0 {
    } else {
        assert(acc[0].0 != k && !lex_lt(k, acc[0].0));
        let rest = acc.drop_first();
        assert forall|j: int| 0 <= j < f - 1 implies rest[j].0 != k && !lex_lt(k, rest[j].0) by {
            assert(rest[j] == acc[j + 1]);
        }
        lemma_group_insert_before(rest, k, v, f - 1);
    }
}

/// Inserting a key greater than every entry's appends a fresh entry.
proof fn lemma_group_insert_missing(
    acc: Seq<(Seq<char>, Seq<Seq<char>>)>,
    k: Seq<char>,
    v: Seq<char>,
)
    requires
        forall|j: int| 0 <= j < acc.len() ==> acc[j].0 != k && !lex_lt(k, acc[j].0),
    ensures
        group_insert(acc, k, v) =~~= acc.push((k, seq![v])),
    decreases acc.len(),
{
    if acc.len() > 0 {
        let rest = acc.drop_first();
        assert forall|j: int| 0 <= j < rest.len() implies rest[j].0 != k && !lex_lt(k, rest[j].0) by {
            assert(rest[j] == acc[j + 1]);
        }
        lemma_group_insert_missing(rest, k, v);
    }
}

/// Every key of the folded list is the inserted key or one of the old keys.
proof fn lemma_group_insert_keys(acc: Seq<(Seq<char>, Seq<Seq<char>>)>, k: Seq<char>, v: Seq<char>)
    ensures
        forall|i: int|
            0 <= i < group_insert(acc, k, v).len() ==> (#[trigger] group_insert(acc, k, v)[i]).0
                == k || (exists|w: int|
                0 <= w < acc.len() && acc[w].0 == group_insert(acc, k, v)[i].0),
    decreases acc.len(),
{
    let res = group_insert(acc, k, v);
    if acc.len() == 0 {
    } else if acc[0].0 == k {
        assert forall|i: int| 0 <= i < res.len() implies (#[trigger] res[i]).0 == k || (exists|
            w: int,
        |
            0 <= w < acc.len() && acc[w].0 == res[i].0) by {
            if i == 0 {
                assert(acc[0].0 == res[0].0);
            } else {
                assert(res[i] == acc.drop_first()[i - 1]);
                assert(acc[i].0 == res[i].0);
            }
        }
    } else if lex_lt(k, acc[0].0) {
        assert forall|i: int| 0 <= i < res.len() implies (#[trigger] res[i]).0 == k || (exists|
            w: int,
        |
            0 <= w < acc.len() && acc[w].0 == res[i].0) by {
            if i > 0 {
                assert(acc[i - 1].0 == res[i].0);
            }
        }
    } else {
        let rest = acc.drop_first();
        lemma_group_insert_keys(rest, k, v);
        let rr = group_insert(rest, k, v);
        assert forall|i: int| 0 <= i < res.len() implies (#[trigger] res[i]).0 == k || (exists|
            w: int,
        |
            0 <= w < acc.len() && acc[w].0 == res[i].0) by {
            if i == 0 {
                assert(acc[0].0 == res[0].0);
            } else {
                assert(res[i] == rr[i - 1]);
                if rr[i - 1].0 != k {
                    let w = choose|w: int| 0 <= w < rest.len() && rest[w].0 == rr[i - 1].0;
                    assert(acc[w + 1].0 == res[i].0);
                }
            }
        }
    }
}

/// Folding a pair into a key-sorted list keeps it key-sorted.
proof fn lemma_group_insert_preserves_sorted(
    acc: Seq<(Seq<char>, Seq<Seq<char>>)>,
    k: Seq<char>,
    v: Seq<char>,
)
    requires
        entries_sorted(acc),
    ensures
        entries_sorted(group_insert(acc, k, v)),
    decreases acc.len(),
{
    let res = group_insert(acc, k, v);
    if acc.len() == 0 {
    } else if acc[0].0 == k {
        assert forall|i: int, j: int|
            #![trigger res[i], res[j]]
            0 <= i < j < res.len() implies lex_lt(res[i].0, res[j].0) by {
            if i > 0 {
                assert(res[i] == acc.drop_first()[i - 1]);
            }
            assert(res[j] == acc.drop_first()[j - 1]);
            assert(res[i].0 == acc[i].0);
            assert(res[j].0 == acc[j].0);
        }
    } else if lex_lt(k, acc[0].0) {
        assert forall|i: int, j: int|
            #![trigger res[i], res[j]]
            0 <= i < j < res.len() implies lex_lt(res[i].0, res[j].0) by {
            assert(res[j].0 == acc[j - 1].0);
            if i == 0 {
                if j > 1 {
                    assert(lex_lt(acc[0].0, acc[j - 1].0));
                    lemma_lex_trans(k, acc[0].0, acc[j - 1].0);
                }
            } else {
                assert(res[i].0 == acc[i - 1].0);
            }
        }
    } else {
        lemma_lex_trichotomy(k, acc[0].0);
        assert(lex_lt(acc[0].0, k));
        let rest = acc.drop_first();
        assert(entries_sorted(rest)) by {
            assert forall|i: int, j: int|
                #![trigger rest[i], rest[j]]
                0 <= i < j < rest.len() implies lex_lt(rest[i].0, rest[j].0) by {
                assert(rest[i] == acc[i + 1]);
                assert(rest[j] == acc[j + 1]);
            }
        }
        lemma_group_insert_preserves_sorted(rest, k, v);
        lemma_group_insert_keys(rest, k, v);
        let rr = group_insert(rest, k, v);
        assert forall|i: int, j: int|
            #![trigger res[i], res[j]]
            0 <= i < j < res.len() implies lex_lt(res[i].0, res[j].0) by {
            assert(res[j] == rr[j - 1]);
            if i == 0 {
                if rr[j - 1].0 == k {
                    assert(lex_lt(res[0].0, res[j].0));
                } else {
                    let w = choose|w: int| 0 <= w < rest.len() && rest[w].0 == rr[j - 1].0;
                    assert(rest[w] == acc[w + 1]);
                    assert(lex_lt(acc[0].0, acc[w + 1].0));
                }
            } else {
                assert(res[i] == rr[i - 1]);
            }
        }
    }
}

proof fn lemma_group_from_sorted(
    pairs: Seq<(Seq<char>, Seq<char>)>,
    i: int,
    acc: Seq<(Seq<char>, Seq<Seq<char>>)>,
)
    requires
        entries_sorted(acc),
    ensures
        entries_sorted(spec_group_from(pairs, i, acc)),
    decreases pairs.len() - i,
{
    if 0 <= i < pairs.len() {
        lemma_group_insert_preserves_sorted(acc, pairs[i].0, pairs[i].1);
        lemma_group_from_sorted(pairs, i + 1, group_insert(acc, pairs[i].0, pairs[i].1));
    }
}

/// Ordering law: the grouped entries carry their keys in strictly ascending
/// lexicographic order, the order the final artifact's lines are written in.
pub proof fn lemma_group_entries_ascending(pairs: Seq<(Seq<char>, Seq<char>)>)
    ensures
        entries_sorted(spec_group(pairs)),
{
    lemma_group_from_sorted(pairs, 0, Seq::empty());
}

/// The place of this key in the key-sorted entries: the entry holding it, or
/// the first entry whose key comes after it, when either exists.
fn find_slot(r: &Vec<(String, Vec<String>)>, k: &String) -> (res: Option<usize>)
    ensures
        match res {
            Some(f) => f < r@.len() && (r.deep_view()[f as int].0 == k@ || lex_lt(
                k@,
                r.deep_view()[f as int].0,
            )) && (forall|j: int|
                0 <= j < f ==> r.deep_view()[j].0 != k@ && !lex_lt(k@, r.deep_view()[j].0)),
            None => forall|j: int|
                0 <= j < r@.len() ==> r.deep_view()[j].0 != k@ && !lex_lt(k@, r.deep_view()[j].0),
        },
{
    let m = r.len();
    let mut f: usize = 0;
    while f < m
        invariant
            m == r@.len(),
            0 <= f <= m,
            forall|j: int| 0 <= j < f ==> r.deep_view()[j].0 != k@ && !lex_lt(k@, r.deep_view()[j].0),
        decreases m - f,
    {
        if str_eq_str(r[f].0.as_str(), k.as_str()) {
            proof {
                assert(r.deep_view()[f as int].0 == k@);
            }
            return Some(f);
        }
        if str_lex_lt(k.as_str(), r[f].0.as_str()) {
            proof {
                assert(lex_lt(k@, r.deep_view()[f as int].0));
            }
            return Some(f);
        }
        proof {
            assert(r.deep_view()[f as int].0 != k@ && !lex_lt(k@, r.deep_view()[f as int].0));
        }
        f = f + 1;
    }
    None
}

/// Groups intermediate (key, value) pairs by key: keys need not arrive
/// pre-grouped; the result holds each distinct key once, keys in ascending
/// lexicographic order, with all of that key's values in input order.
pub fn group_by_key(pairs: Vec<(String, String)>) -> (r: Vec<(String, Vec<String>)>)
    ensures
        r.deep_view() =~~= spec_group(pairs.deep_view()),
{
    let ghost p0 = pairs.deep_view();
    let mut r: Vec<(String, Vec<String>)> = Vec::new();
    let mut rest = pairs;
    let n = rest.len();
    let mut i: usize = 0;
    proof {
        assert(r.deep_view() =~~= Seq::<(Seq<char>, Seq<Seq<char>>)>::empty());
    }
    while i < n
        invariant
            0 <= i <= n,
            n == p0.len(),
            rest@.len() == n - i,
            forall|j: int| 0 <= j < n - i ==> rest.deep_view()[j] == p0[j + i],
            spec_group_from(p0, i as int, r.deep_view()) =~~= spec_group(p0),
        decreases n - i,
    {
        let ghost prev = rest.deep_view();
        let pair = rest.remove(0);
        proof {
            assert(pair.deep_view() == prev[0]);
            assert(pair.deep_view() == p0[i as int]);
            assert forall|j: int| 0 <= j < rest@.len() implies rest.deep_view()[j] == p0[j + i + 1] by {
                assert(rest.deep_view()[j] == prev[j + 1]);
            }
        }
        let (k, v) = pair;
        let ghost rd = r.deep_view();
        match find_slot(&r, &k) {
            Some(f) => {
                if str_eq_str(r[f].0.as_str(), k.as_str()) {
                    let entry = r.remove(f);
                    let (ek, mut evs) = entry;
                    evs.push(v);
                    r.insert(f, (ek, evs));
                    proof {
                        lemma_group_insert_found(rd, k@, v@, f as int);
                        assert(r.deep_view() =~~= rd.update(
                            f as int,
                            (rd[f as int].0, rd[f as int].1.push(v@)),
                        ));
                    }
                } else {
                    let mut vs: Vec<String> = Vec::new();
                    vs.push(v);
                    r.insert(f, (k, vs));
                    proof {
                        lemma_group_insert_before(rd, k@, v@, f as int);
                        assert(vs.deep_view() =~~= seq![p0[i as int].1]);
                        assert(r.deep_view() =~~= rd.insert(
                            f as int,
                            (p0[i as int].0, seq![p0[i as int].1]),
                        ));
                    }
                }
            },
            None => {
                let mut vs: Vec<String> = Vec::new();
                vs.push(v);
                r.push((k, vs));
                proof {
                    lemma_group_insert_missing(rd, k@, v@);
                    assert(vs.deep_view() =~~= seq![p0[i as int].1]);
                    assert(r.deep_view() =~~= rd.push((p0[i as int].0, seq![p0[i as int].1])));
                }
            },
        }
        i = i + 1;
    }
    proof {
        assert(spec_group_from(p0, n as int, r.deep_view()) =~~= r.deep_view());
    }
    r
}

/// The external reduce function of the word-count job: counts the values
/// gathered for one key.
pub fn reduce(key: String, values: Vec<String>) -> (r: (String, String))
    ensures
        r.0@ == key@,
        r.1@ == dec_digits(values@.len() as nat),
{
    let count = usize_to_string(values.len());
    (key, count)
}

/// One artifact line: the key and the value separated by one space, closed
/// by a newline.
pub fn format_kv_line(k: &str, v: &str) -> (r: String)
    ensures
        r@ == k@ + seq![' '] + v@ + seq!['\n'],
{
    proof {
        reveal_strlit(" ");
        reveal_strlit("\n");
    }
    let mut s = String::new();
    s.append(k);
    s.append(" ");
    s.append(v);
    s.append("\n");
    proof {
        assert(s@ =~= k@ + seq![' '] + v@ + seq!['\n']);
    }
    s
}

/// Reads one artifact line back into its key and value: exactly one space
/// must separate two fields; any other shape is skipped by the caller.
pub fn parse_kv_line(line: &str) -> (r: Option<(String, String)>)
    ensures
        match r {
            Some(kv) => split_on(line@, ' ').len() == 2 && kv.0@ == split_on(line@, ' ')[0]
                && kv.1@ == split_on(line@, ' ')[1],
            None => split_on(line@, ' ').len() != 2,
        },
{
    let mut parts = split_on_char(line, ' ');
    if parts.len() != 2 {
        return None;
    }
    let v = match parts.pop() {
        Some(x) => x,
        None => {
            return None;
        },
    };
    let k = match parts.pop() {
        Some(x) => x,
        None => {
            return None;
        },
    };
    proof {
        assert(k@ == split_on(line@, ' ')[0]);
        assert(v@ == split_on(line@, ' ')[1]);
    }
    Some((k, v))
}

// ---------------------------------------------------------------------------
// The word-count map function
// ---------------------------------------------------------------------------

/// An ASCII letter, the only characters the word-count job keeps.
pub open spec fn is_ascii_letter(c: char) -> bool {
    (65 <= c as u32 && c as u32 <= 90) || (97 <= c as u32 && c as u32 <= 122)
}

/// The text with every character that is not an ASCII letter turned into one
/// space.
pub open spec fn spec_letters_to_spaces(s: Seq<char>) -> Seq<char> {
    Seq::new(
        s.len(),
        |i: int|
            if is_ascii_letter(s[i]) {
                s[i]
            } else {
                ' '
            },
    )
}

/// Whether a character is an ASCII letter.
fn is_letter_char(c: char) -> (r: bool)
    ensures
        r == is_ascii_letter(c),
{
    let u = c as u32;
    (65 <= u && u <= 90) || (97 <= u && u <= 122)
}

/// The parts of the text between its non-letter characters: what splitting
/// on spaces yields once every non-letter reads as a space.
fn split_letter_parts(s: &str) -> (parts: Vec<String>)
    ensures
        parts.deep_view() =~~= split_on(spec_letters_to_spaces(s@), ' '),
{
    let ghost mapped = spec_letters_to_spaces(s@);
    let n = s.unicode_len();
    let mut parts: Vec<String> = Vec::new();
    let mut start: usize = 0;
    let mut i: usize = 0;
    proof {
        assert(mapped.skip(0) =~= mapped);
        assert(parts.deep_view() =~~= Seq::<Seq<char>>::empty());
        assert(parts.deep_view() + split_on(mapped, ' ') =~~= split_on(mapped, ' '));
    }
    while i < n
        invariant
            n == s@.len(),
            mapped == spec_letters_to_spaces(s@),
            0 <= start <= i <= n,
            forall|j: int| start <= j < i ==> is_ascii_letter(#[trigger] s@[j]),
            split_on(mapped, ' ') =~~= parts.deep_view() + split_on(mapped.skip(start as int), ' '),
        decreases n - i,
    {
        let c = s.get_char(i);
        if !is_letter_char(c) {
            let part = s.substring_char(start, i).to_owned();
            proof {
                let pre = mapped.subrange(start as int, i as int);
                assert forall|j: int| 0 <= j < pre.len() implies pre[j] == part@[j] && pre[j]
                    != ' ' by {
                    assert(is_ascii_letter(s@[start + j]));
                    assert(pre[j] == s@[start + j]);
                    assert(part@[j] == s@.subrange(start as int, i as int)[j]);
                }
                assert(part@ =~= pre);
                assert(mapped[i as int] == ' ');
                assert(mapped.skip(start as int) =~= pre + seq![' '] + mapped.skip(i as int + 1));
                lemma_split_concat(pre, mapped.skip(i as int + 1), ' ');
                assert(parts.deep_view().push(part@) =~~= parts.deep_view() + seq![pre]);
            }
            parts.push(part);
            start = i + 1;
        }
        i = i + 1;
    }
    let last = s.substring_char(start, n).to_owned();
    proof {
        let pre = mapped.subrange(start as int, n as int);
        assert forall|j: int| 0 <= j < pre.len() implies pre[j] == last@[j] && pre[j] != ' ' by {
            assert(is_ascii_letter(s@[start + j]));
            assert(pre[j] == s@[start + j]);
            assert(last@[j] == s@.subrange(start as int, n as int)[j]);
        }
        assert(last@ =~= pre);
        assert(mapped.skip(start as int) =~= pre);
        assert(!pre.contains(' '));
        lemma_split_no_sep(mapped.skip(start as int), ' ');
        assert(parts.deep_view().push(last@) =~~= parts.deep_view() + seq![
            mapped.skip(start as int),
        ]);
    }
    parts.push(last);
    parts
}

/// The nonempty parts between spaces, from part index `i` on.
pub open spec fn words_from(parts: Seq<Seq<char>>, i: int) -> Seq<Seq<char>>
    decreases parts.len() - i,
{
    if i < 0 || i >= parts.len() {
        Seq::empty()
    } else if parts[i].len() > 0 {
        seq![parts[i]] + words_from(parts, i + 1)
    } else {
        words_from(parts, i + 1)
    }
}

/// The words of a space-separated text, in order.
pub open spec fn spec_words(s: Seq<char>) -> Seq<Seq<char>> {
    words_from(split_on(s, ' '), 0)
}

/// Drops the empty parts, keeping the words in order.
fn filter_nonempty(parts: Vec<String>) -> (r: Vec<String>)
    ensures
        r.deep_view() =~~= words_from(parts.deep_view(), 0),
{
    let ghost ps = parts.deep_view();
    let mut r: Vec<String> = Vec::new();
    let n = parts.len();
    let mut i: usize = 0;
    proof {
        assert(r.deep_view() + words_from(ps, 0) =~~= words_from(ps, 0));
    }
    while i < n
        invariant
            n == parts@.len(),
            parts.deep_view() =~~= ps,
            0 <= i <= n,
            r.deep_view() + words_from(ps, i as int) =~~= words_from(ps, 0),
        decreases n - i,
    {
        proof {
            assert(parts@[i as int]@ == ps[i as int]);
        }
        if parts[i].as_str().unicode_len() > 0 {
            let ghost rd = r.deep_view();
            let w = parts[i].clone();
            r.push(w);
            proof {
                assert(r.deep_view() =~~= rd.push(ps[i as int]));
                assert(words_from(ps, i as int) =~~= seq![ps[i as int]] + words_from(
                    ps,
                    i as int + 1,
                ));
            }
        } else {
            proof {
                assert(words_from(ps, i as int) =~~= words_from(ps, i as int + 1));
            }
        }
        i = i + 1;
    }
    proof {
        assert(words_from(ps, n as int) =~~= Seq::<Seq<char>>::empty());
        assert(r.deep_view() =~~= r.deep_view() + words_from(ps, n as int));
    }
    r
}

/// The word-count pairs of a text: one ("word", "1") pair per word, where a
/// word is a maximal run of ASCII letters.
pub open spec fn spec_word_count_pairs(s: Seq<char>) -> Seq<(Seq<char>, Seq<char>)> {
    spec_words(spec_letters_to_spaces(s)).map_values(|w: Seq<char>| (w, seq!['1']))
}

/// The external map business function of the word-count job: every maximal
/// run of ASCII letters becomes one (word, "1") pair, in text order.
pub fn map_words(contents: &String) -> (r: Vec<(String, String)>)
    ensures
        r.deep_view() =~~= spec_word_count_pairs(contents@),
{
    proof {
        reveal_strlit("1");
    }
    let parts = split_letter_parts(contents.as_str());
    let words = filter_nonempty(parts);
    let ghost ws = spec_words(spec_letters_to_spaces(contents@));
    let mut r: Vec<(String, String)> = Vec::new();
    let mut rest = words;
    let n = rest.len();
    let mut i: usize = 0;
    while i < n
        invariant
            0 <= i <= n,
            n == ws.len(),
            rest@.len() == n - i,
            forall|j: int| 0 <= j < n - i ==> rest.deep_view()[j] == ws[j + i],
            r@.len() == i,
            forall|j: int| 0 <= j < i ==> r.deep_view()[j] == (ws[j], "1"@),
        decreases n - i,
    {
        let ghost prev = rest.deep_view();
        let w = rest.remove(0);
        let one = String::from_str("1");
        let ghost rd = r.deep_view();
        r.push((w, one));
        proof {
            assert(w@ == prev[0]);
            assert(r.deep_view() =~~= rd.push((ws[i as int], "1"@)));
            assert forall|j: int| 0 <= j < rest@.len() implies rest.deep_view()[j] == ws[j + i
                + 1] by {
                assert(rest.deep_view()[j] == prev[j + 1]);
            }
        }
        i = i + 1;
    }
    proof {
        assert("1"@ =~= seq!['1']);
        assert(r.deep_view() =~~= spec_word_count_pairs(contents@));
    }
    r
}

/// What a worker does with one reply from the coordinator.
pub enum WorkerStep {
    /// Empty reply: no task yet; back off briefly and poll again.
    Retry,
    /// The job-finished sentinel: this worker terminates.
    Shutdown,
    /// An encoded task: execute it.
    Execute(Task),
    /// A malformed encoding: an unrecoverable contract violation, fatal to
    /// this worker.
    Abort(MalformedTaskError),
}

/// Interprets one coordinator reply: empty means wait, the sentinel `done`
/// means terminate, anything else must decode into the task to execute.
pub fn interpret_reply(reply: String) -> (r: WorkerStep)
    ensures
        (r is Retry) <==> reply@.len() == 0,
        (r is Shutdown) <==> (reply@.len() != 0 && reply@ == "done"@),
        (reply@.len() != 0 && reply@ != "done"@) ==> match r {
            WorkerStep::Execute(t) => spec_decode(reply@) == Some(t@),
            WorkerStep::Abort(_) => spec_decode(reply@) is None,
            _ => false,
        },
{
    if reply.as_str().unicode_len() == 0 {
        return WorkerStep::Retry;
    }
    if str_eq_str(reply.as_str(), "done") {
        return WorkerStep::Shutdown;
    }
    match Task::from_string(reply) {
        Ok(t) => WorkerStep::Execute(t),
        Err(e) => WorkerStep::Abort(e),
    }
}

/// A worker process: its identifier is informational only. The poll loop
/// around the verified steps lives outside the core.
pub struct Worker {
    pub worker_id: u8,
}

} // verus!
