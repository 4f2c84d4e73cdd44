use kvs::names::{insert_gen, parse_number};
use kvs::{log_path, parse_log_name, sorted_log_list};

#[test]
fn log_is_named_by_its_generation() {
    assert_eq!(log_path(0), "0.log");
    assert_eq!(log_path(5), "5.log");
    assert_eq!(log_path(10), "10.log");
    assert_eq!(log_path(1234567890), "1234567890.log");
    assert_eq!(log_path(u64::MAX), "18446744073709551615.log");
}

#[test]
fn name_of_a_log_gives_its_generation() {
    assert_eq!(parse_log_name("5.log"), Some(5));
    assert_eq!(parse_log_name("0.log"), Some(0));
    assert_eq!(parse_log_name("18446744073709551615.log"), Some(u64::MAX));
    assert_eq!(parse_log_name("007.log"), Some(7));
    assert_eq!(parse_log_name("+7.log"), Some(7));
}

#[test]
fn other_names_give_no_generation() {
    for name in [
        "",
        ".log",
        "log",
        "5",
        "5.LOG",
        "5.logs",
        "5.log.log",
        "5.log ",
        " 5.log",
        "-5.log",
        "+.log",
        "++5.log",
        "5+.log",
        "0x5.log",
        "5_000.log",
        "engine",
        "18446744073709551616.log",
        "99999999999999999999999.log",
        "\u{663}.log",
    ] {
        assert_eq!(parse_log_name(name), None, "{}", name);
    }
}

#[test]
fn every_generation_is_read_back_from_its_name() {
    for gen in [0, 1, 9, 10, 99, 100, 4096, u64::MAX - 1, u64::MAX] {
        assert_eq!(parse_log_name(&log_path(gen)), Some(gen));
    }
}

#[test]
fn numbers_are_read_digit_by_digit() {
    assert_eq!(parse_number(b"42"), Some(42));
    assert_eq!(parse_number(b"+42"), Some(42));
    assert_eq!(parse_number(b""), None);
    assert_eq!(parse_number(b"+"), None);
    assert_eq!(parse_number(b"4 2"), None);
    assert_eq!(parse_number(b"18446744073709551615"), Some(u64::MAX));
    assert_eq!(parse_number(b"18446744073709551616"), None);
    assert_eq!(parse_number(b"00000000000000000000000001"), Some(1));
}

#[test]
fn log_list_is_sorted_and_holds_only_logs() {
    let names: Vec<String> =
        ["10.log", "engine", "2.log", "x.log", "1.log", "3.txt"].iter().map(|s| s.to_string()).collect();
    assert_eq!(sorted_log_list(&names), vec![1, 2, 10]);
}

#[test]
fn log_list_holds_a_generation_once() {
    let names: Vec<String> = ["5.log", "05.log", "+5.log", "4.log"].iter().map(|s| s.to_string()).collect();
    assert_eq!(sorted_log_list(&names), vec![4, 5]);
}

#[test]
fn log_list_of_no_names_is_empty() {
    assert_eq!(sorted_log_list(&Vec::new()), Vec::<u64>::new());
}

#[test]
fn generation_is_put_in_at_its_place() {
    let mut gens = vec![2, 4, 6];
    insert_gen(&mut gens, 5);
    insert_gen(&mut gens, 1);
    insert_gen(&mut gens, 9);
    insert_gen(&mut gens, 4);
    assert_eq!(gens, vec![1, 2, 4, 5, 6, 9]);
}
