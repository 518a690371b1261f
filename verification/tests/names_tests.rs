use golang_profiling::names::{
    clean_go_function_name, contains_str, ends_with_str, join_dir_file, starts_with_str,
};
use golang_profiling::strutil::{dec_string, hex_string, parse_dec_u32, parse_hex};

#[test]
fn cleaning_replacements() {
    assert_eq!(clean_go_function_name("runtime.mcall"), "mcall");
    assert_eq!(clean_go_function_name("main.main"), "main::main");
    assert_eq!(clean_go_function_name("main.handler.func1"), "main::handler::func1");
    assert_eq!(clean_go_function_name("pkg/sub.Work"), "pkg::sub.Work");
    assert_eq!(clean_go_function_name("a\u{b7}b"), "a::b");
    assert_eq!(clean_go_function_name("plain"), "plain");
}

#[test]
fn cleaning_rewrites_hex_leftover() {
    assert_eq!(clean_go_function_name("0x401150"), "[unknown:401150]");
    assert_eq!(
        clean_go_function_name("0x0123456789abcdef"),
        "[unknown:01234567]"
    );
}

#[test]
fn cleaning_idempotent_samples() {
    // Cleaning twice changes nothing more, for names without the runtime
    // prefix.
    for name in [
        "main.main",
        "pkg/sub.Work.func2",
        "a\u{b7}b/c",
        "0x401150",
        "plain",
        "",
    ] {
        let once = clean_go_function_name(name);
        let twice = clean_go_function_name(&once);
        assert_eq!(once, twice);
    }
}

#[test]
fn string_scans() {
    assert!(contains_str("hello world", "lo wo"));
    assert!(!contains_str("hello", "world"));
    assert!(contains_str("abc", ""));
    assert!(starts_with_str("go1.21", "go1."));
    assert!(!starts_with_str("g", "go1."));
    assert!(ends_with_str("src/main.go", "main.go"));
    assert!(!ends_with_str("main.gox", "main.go"));
}

#[test]
fn number_rendering() {
    assert_eq!(hex_string(0), "0");
    assert_eq!(hex_string(0x401150), "401150");
    assert_eq!(hex_string(u64::MAX), "ffffffffffffffff");
    assert_eq!(dec_string(0), "0");
    assert_eq!(dec_string(90210), "90210");
}

#[test]
fn number_parsing() {
    let chars: Vec<char> = "ffffffff81233f00".chars().collect();
    assert_eq!(parse_hex(&chars), Some(0xffffffff81233f00));
    let chars: Vec<char> = "10g".chars().collect();
    assert_eq!(parse_hex(&chars), None);
    let empty: Vec<char> = Vec::new();
    assert_eq!(parse_hex(&empty), None);
    let too_big: Vec<char> = "10000000000000000".chars().collect();
    assert_eq!(parse_hex(&too_big), None);

    let chars: Vec<char> = "21".chars().collect();
    assert_eq!(parse_dec_u32(&chars), Some(21));
    let chars: Vec<char> = "4294967296".chars().collect();
    assert_eq!(parse_dec_u32(&chars), None);
    let chars: Vec<char> = "2x".chars().collect();
    assert_eq!(parse_dec_u32(&chars), None);
}

#[test]
fn path_joining() {
    assert_eq!(join_dir_file("/src/pkg", "a.go"), "/src/pkg/a.go");
    assert_eq!(join_dir_file("/src/pkg/", "a.go"), "/src/pkg/a.go");
    assert_eq!(join_dir_file("", "a.go"), "/a.go");
}
