use kvs::logfile::{decimal_string, log_name, parse_log_name};
use kvs::{log_path, sorted_gen_list};

fn strings(texts: &[&str]) -> Vec<String> {
    texts.iter().map(|text| text.to_string()).collect()
}

#[test]
fn numbers_are_written_in_decimal() {
    assert_eq!(decimal_string(0), "0");
    assert_eq!(decimal_string(7), "7");
    assert_eq!(decimal_string(10), "10");
    assert_eq!(decimal_string(1234567890), "1234567890");
    assert_eq!(decimal_string(u64::MAX), "18446744073709551615");
}

#[test]
fn log_names_end_in_log() {
    assert_eq!(log_name(1), "1.log");
    assert_eq!(log_name(42), "42.log");
    assert_eq!(log_name(u64::MAX), "18446744073709551615.log");
}

#[test]
fn log_paths_join_directory_and_name() {
    assert_eq!(log_path(".", 1), "./1.log");
    assert_eq!(log_path("/var/db", 12), "/var/db/12.log");
    assert_eq!(log_path("/var/db/", 12), "/var/db/12.log");
    assert_eq!(log_path("", 3), "3.log");
    assert_eq!(log_path("/", 3), "/3.log");
    assert_eq!(log_path("данные", 3), "данные/3.log");
}

#[test]
fn log_paths_agree_with_the_standard_library() {
    for dir in [".", "/var/db", "/var/db/", "", "/", "a/b/c"] {
        for gen in [0u64, 1, 99, u64::MAX] {
            let expected = std::path::Path::new(dir).join(format!("{}.log", gen));
            assert_eq!(log_path(dir, gen), expected.to_str().unwrap());
        }
    }
}

#[test]
fn log_names_are_parsed_back() {
    for gen in [0u64, 1, 9, 10, 11, 100, 4096, u64::MAX - 1, u64::MAX] {
        assert_eq!(parse_log_name(&log_name(gen)), Some(gen));
    }
    assert_eq!(parse_log_name("007.log"), Some(7));
    assert_eq!(parse_log_name("00000000000000000000000001.log"), Some(1));
}

#[test]
fn other_names_are_no_segments() {
    for name in [
        "",
        ".log",
        "log",
        "1",
        "1.lo",
        "1.logs",
        "1.LOG",
        "a.log",
        "1a.log",
        "-1.log",
        "+1.log",
        " 1.log",
        "1 .log",
        "1.log ",
        "1..log",
        "1.5.log",
        ".engine",
        "temp_log.log",
        "18446744073709551616.log",
        "99999999999999999999999.log",
        "١.log",
        "1.lög",
    ] {
        assert_eq!(parse_log_name(name), None, "{:?}", name);
    }
}

#[test]
fn generations_come_sorted_and_once() {
    let names = strings(&["10.log", ".engine", "2.log", "notes.txt", "1.log", "02.log", "33.log"]);
    assert_eq!(sorted_gen_list(&names), vec![1, 2, 10, 33]);
    assert_eq!(sorted_gen_list(&strings(&[])), Vec::<u64>::new());
    assert_eq!(sorted_gen_list(&strings(&["x", "y.log"])), Vec::<u64>::new());
    assert_eq!(sorted_gen_list(&strings(&["5.log"])), vec![5]);
    assert_eq!(sorted_gen_list(&strings(&["3.log", "2.log", "1.log"])), vec![1, 2, 3]);
    assert_eq!(
        sorted_gen_list(&strings(&["18446744073709551615.log", "0.log"])),
        vec![0, u64::MAX]
    );
}
