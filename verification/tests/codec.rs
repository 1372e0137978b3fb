use amr::{
    intermediate_name, map_probe_pattern, reduce_input_pattern, reduce_result_name,
    usize_to_string, Task,
};

#[test]
fn encode_map_task() {
    let t = Task::MapTask { id: 3, file: String::from("./files/a.txt"), num_buckets: 2 };
    assert_eq!(t.to_string(), "map\n3\n./files/a.txt\n2");
}

#[test]
fn encode_reduce_task() {
    let t = Task::ReduceTask { id: 1 };
    assert_eq!(t.to_string(), "reduce\n1");
}

#[test]
fn round_trip_map_task() {
    let t = Task::MapTask { id: 7, file: String::from("./files/pg-sherlock.txt"), num_buckets: 5 };
    let decoded = Task::from_string(t.to_string()).unwrap();
    assert!(decoded == t);
}

#[test]
fn round_trip_reduce_task() {
    let t = Task::ReduceTask { id: 0 };
    let decoded = Task::from_string(t.to_string()).unwrap();
    assert!(decoded == t);
}

#[test]
fn round_trip_empty_file_name() {
    let t = Task::MapTask { id: 0, file: String::new(), num_buckets: 1 };
    let decoded = Task::from_string(t.to_string()).unwrap();
    assert!(decoded == t);
}

#[test]
fn decode_map_string() {
    let t = Task::from_string(String::from("map\n0\nfoo\n4")).unwrap();
    match t {
        Task::MapTask { id, file, num_buckets } => {
            assert_eq!(id, 0);
            assert_eq!(file, "foo");
            assert_eq!(num_buckets, 4);
        },
        _ => panic!("expected a map task"),
    }
}

#[test]
fn decode_reduce_string() {
    let t = Task::from_string(String::from("reduce\n9")).unwrap();
    assert_eq!(t.get_id(), 9);
    assert!(matches!(t, Task::ReduceTask { .. }));
}

#[test]
fn decode_unrecognized_tag_fails() {
    assert!(Task::from_string(String::from("shuffle\n1")).is_err());
}

#[test]
fn decode_empty_string_fails() {
    assert!(Task::from_string(String::new()).is_err());
}

#[test]
fn decode_map_wrong_field_count_fails() {
    assert!(Task::from_string(String::from("map\n1\nfoo")).is_err());
    assert!(Task::from_string(String::from("map\n1\nfoo\n2\nextra")).is_err());
}

#[test]
fn decode_reduce_wrong_field_count_fails() {
    assert!(Task::from_string(String::from("reduce\n1\n2")).is_err());
    assert!(Task::from_string(String::from("reduce")).is_err());
}

#[test]
fn decode_non_numeric_id_fails() {
    assert!(Task::from_string(String::from("map\nx\nfoo\n2")).is_err());
    assert!(Task::from_string(String::from("reduce\n1x")).is_err());
}

#[test]
fn decode_overflowing_id_fails() {
    assert!(Task::from_string(String::from("reduce\n99999999999999999999999999")).is_err());
}

#[test]
fn get_id_of_both_variants() {
    let m = Task::MapTask { id: 11, file: String::from("f"), num_buckets: 1 };
    let r = Task::ReduceTask { id: 4 };
    assert_eq!(m.get_id(), 11);
    assert_eq!(r.get_id(), 4);
}

#[test]
fn decimal_rendering() {
    assert_eq!(usize_to_string(0), "0");
    assert_eq!(usize_to_string(9), "9");
    assert_eq!(usize_to_string(10), "10");
    assert_eq!(usize_to_string(12345), "12345");
}

#[test]
fn artifact_names() {
    assert_eq!(intermediate_name(2, 1), "./files/intermediate_map_2_reduce_1");
    assert_eq!(map_probe_pattern(7), "./files/intermediate_map_7_reduce_*");
    assert_eq!(reduce_input_pattern(3), "./files/intermediate_map_*_reduce_3");
    assert_eq!(reduce_result_name(0), "./files/reduce_result_0");
}

#[test]
fn round_trip_largest_id() {
    let t = Task::ReduceTask { id: usize::MAX };
    let decoded = Task::from_string(t.to_string()).unwrap();
    assert!(decoded == t);
    assert_eq!(usize_to_string(usize::MAX), usize::MAX.to_string());
}
