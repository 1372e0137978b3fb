use amr::{
    format_kv_line, group_by_key, interpret_reply, parse_kv_line, partition_pairs, reduce, Task,
    Worker, WorkerStep,
};

fn pair(k: &str, v: &str) -> (String, String) {
    (String::from(k), String::from(v))
}

#[test]
fn empty_reply_means_retry() {
    assert!(matches!(interpret_reply(String::new()), WorkerStep::Retry));
}

#[test]
fn done_reply_means_shutdown() {
    assert!(matches!(interpret_reply(String::from("done")), WorkerStep::Shutdown));
}

#[test]
fn task_reply_is_decoded() {
    let t = Task::MapTask { id: 2, file: String::from("./files/a.txt"), num_buckets: 3 };
    match interpret_reply(t.to_string()) {
        WorkerStep::Execute(got) => assert!(got == t),
        _ => panic!("expected an executable task"),
    }
}

#[test]
fn malformed_reply_aborts() {
    assert!(matches!(interpret_reply(String::from("garbage")), WorkerStep::Abort(_)));
    assert!(matches!(interpret_reply(String::from("map\n1")), WorkerStep::Abort(_)));
}

#[test]
fn single_bucket_takes_everything_in_order() {
    let pairs = vec![pair("b", "1"), pair("a", "1"), pair("b", "1")];
    let buckets = partition_pairs(pairs.clone(), 1);
    assert_eq!(buckets.len(), 1);
    assert_eq!(buckets[0], pairs);
}

#[test]
fn equal_keys_share_a_bucket() {
    let pairs = vec![
        pair("alpha", "1"),
        pair("beta", "1"),
        pair("alpha", "2"),
        pair("gamma", "1"),
        pair("beta", "2"),
    ];
    let buckets = partition_pairs(pairs, 7);
    assert_eq!(buckets.len(), 7);
    let total: usize = buckets.iter().map(|b| b.len()).sum();
    assert_eq!(total, 5);
    for key in ["alpha", "beta", "gamma"] {
        let holders: Vec<usize> = (0..buckets.len())
            .filter(|&b| buckets[b].iter().any(|p| p.0 == key))
            .collect();
        assert_eq!(holders.len(), 1, "every key lives in exactly one bucket");
    }
    // Within a bucket the input order of a key's pairs is kept.
    let alpha_bucket = buckets.iter().find(|b| b.iter().any(|p| p.0 == "alpha")).unwrap();
    let alpha_values: Vec<&str> =
        alpha_bucket.iter().filter(|p| p.0 == "alpha").map(|p| p.1.as_str()).collect();
    assert_eq!(alpha_values, vec!["1", "2"]);
}

#[test]
fn partitioning_is_deterministic() {
    let pairs = vec![pair("x", "1"), pair("y", "1"), pair("z", "1")];
    let first = partition_pairs(pairs.clone(), 4);
    let second = partition_pairs(pairs, 4);
    assert_eq!(first, second);
}

#[test]
fn group_by_key_groups_unsorted_input() {
    let pairs = vec![pair("b", "2"), pair("a", "1"), pair("c", "4"), pair("a", "3"), pair("b", "5")];
    let grouped = group_by_key(pairs);
    assert_eq!(
        grouped,
        vec![
            (String::from("a"), vec![String::from("1"), String::from("3")]),
            (String::from("b"), vec![String::from("2"), String::from("5")]),
            (String::from("c"), vec![String::from("4")]),
        ]
    );
}

#[test]
fn group_by_key_orders_keys_ascending() {
    // Keys come out in ascending order whatever order they first occur in,
    // as the final artifact's ordered lines require.
    let pairs = vec![pair("zeta", "1"), pair("Alpha", "1"), pair("mid", "1")];
    let grouped = group_by_key(pairs);
    let keys: Vec<&str> = grouped.iter().map(|e| e.0.as_str()).collect();
    assert_eq!(keys, vec!["Alpha", "mid", "zeta"]);
}

#[test]
fn group_by_key_of_nothing_is_empty() {
    assert!(group_by_key(Vec::new()).is_empty());
}

#[test]
fn reduce_counts_values() {
    let (k, v) = reduce(
        String::from("word"),
        vec![String::from("1"), String::from("1"), String::from("1")],
    );
    assert_eq!(k, "word");
    assert_eq!(v, "3");
}

#[test]
fn kv_line_round_trip() {
    let line = format_kv_line("key", "7");
    assert_eq!(line, "key 7\n");
    let (k, v) = parse_kv_line("key 7").unwrap();
    assert_eq!(k, "key");
    assert_eq!(v, "7");
}

#[test]
fn malformed_kv_lines_are_rejected() {
    assert!(parse_kv_line("").is_none());
    assert!(parse_kv_line("solo").is_none());
    assert!(parse_kv_line("a b c").is_none());
}

#[test]
fn worker_id_is_informational() {
    let w = Worker { worker_id: 4 };
    assert_eq!(w.worker_id, 4);
}

#[test]
fn map_words_counts_letter_runs() {
    let pairs = amr::map_words(&String::from("Hello, world! 2 hello\nworld"));
    let expected: Vec<(String, String)> = ["Hello", "world", "hello", "world"]
        .iter()
        .map(|w| (w.to_string(), String::from("1")))
        .collect();
    assert_eq!(pairs, expected);
}

#[test]
fn map_words_of_only_separators_is_empty() {
    assert!(amr::map_words(&String::from(" \t\n12, .!")).is_empty());
}
