//! Log names and the generations of a directory.

use kvs::gens::{log_compact_path, log_path, parse_gen, render, sorted_gen_list};

fn parse(name: &str) -> Option<u64> {
    parse_gen(&name.to_string())
}

#[test]
fn numbers_are_written_in_decimal() {
    assert_eq!(render(0), "0");
    assert_eq!(render(7), "7");
    assert_eq!(render(10), "10");
    assert_eq!(render(1234567890), "1234567890");
    assert_eq!(render(u64::MAX), "18446744073709551615");
}

#[test]
fn logs_and_compaction_outputs_are_named_after_their_generation() {
    assert_eq!(log_path(1), "1.log");
    assert_eq!(log_path(120), "120.log");
    assert_eq!(log_compact_path(1), "1.tmp");
    assert_eq!(log_compact_path(u64::MAX), "18446744073709551615.tmp");
}

#[test]
fn a_log_name_gives_its_generation_back() {
    for gen in [0, 1, 9, 10, 99, 100, 32768, u64::MAX - 1, u64::MAX] {
        assert_eq!(parse_gen(&log_path(gen)), Some(gen));
        assert_eq!(parse_gen(&log_compact_path(gen)), None);
    }
}

#[test]
fn what_is_no_log_name_has_no_generation() {
    for name in [
        "", ".log", "log", "1", "1.lo", "1.logg", "1.log.log", "a.log", "1a.log", "-1.log",
        "+1.log", " 1.log", "1 .log", "01.log", "00.log", "1.LOG", "1.tmp", ".engine",
        "18446744073709551616.log", "99999999999999999999999.log", "\u{661}.log", "1\u{e9}.log",
    ] {
        assert_eq!(parse(name), None, "{:?}", name);
    }
}

#[test]
fn generations_are_listed_in_rising_order() {
    let names: Vec<String> = ["10.log", "2.log", "x.log", "33.tmp", "1.log", ".engine", "2.log", "007.log"]
        .iter()
        .map(|name| name.to_string())
        .collect();
    assert_eq!(sorted_gen_list(&names), vec![1, 2, 10]);
    assert_eq!(sorted_gen_list(&Vec::new()), Vec::<u64>::new());
}
