use golang_profiling::common::GoRuntimeInfo;
use golang_profiling::runtime::GoRuntimeParser;

#[test]
fn test_find_version_in_data() {
    let parser = GoRuntimeParser::new();

    // A valid version token embedded in surrounding data.
    let data_with_version = b"some data go1.21.0 more data";
    let version = parser.find_version_in_data(data_with_version);
    assert_eq!(version, Some("go1.21.0".to_string()));

    // Another version token.
    let data_with_version2 = b"prefix go1.24.0 suffix";
    let version2 = parser.find_version_in_data(data_with_version2);
    assert_eq!(version2, Some("go1.24.0".to_string()));

    // No version token at all.
    let data_no_version = b"no version here";
    let version_none = parser.find_version_in_data(data_no_version);
    assert_eq!(version_none, None);

    // A malformed token is rejected.
    let data_malformed = b"go1.x.y invalid";
    let version_malformed = parser.find_version_in_data(data_malformed);
    assert_eq!(version_malformed, None);
}

#[test]
fn test_parse_goroutine_offsets() {
    let parser = GoRuntimeParser::new();
    let mut runtime_info = GoRuntimeInfo::default();

    parser
        .parse_goroutine_offsets(&mut runtime_info, "go1.21.0")
        .unwrap();
    assert_eq!(runtime_info.g_offset, 0x30);
    assert_eq!(runtime_info.stack_base_offset, 0x10);
    assert_eq!(runtime_info.stack_size_offset, 0x18);

    parser
        .parse_goroutine_offsets(&mut runtime_info, "go1.20.5")
        .unwrap();
    assert_eq!(runtime_info.g_offset, 0x30);
    assert_eq!(runtime_info.stack_base_offset, 0x10);
    assert_eq!(runtime_info.stack_size_offset, 0x18);

    // An unknown version keeps the documented defaults.
    parser
        .parse_goroutine_offsets(&mut runtime_info, "go1.15.0")
        .unwrap();
    assert_eq!(runtime_info.g_offset, 0x30);
    assert_eq!(runtime_info.stack_base_offset, 0x10);
    assert_eq!(runtime_info.stack_size_offset, 0x18);
}

#[test]
fn test_update_runtime_addresses() {
    let parser = GoRuntimeParser::new();
    let mut runtime_info = GoRuntimeInfo {
        func_tab_base: 0x1000,
        ..Default::default()
    };

    let maps_text = "7f8b40000000-7f8b40001000 r-xp 00000000 08:01 123456 /usr/bin/test\n\
                     7f8b50000000-7f8b50001000 rw-p 00000000 00:00 0 [heap]\n\
                     7f8b60000000-7f8b60001000 r-xp 00000000 08:01 789012 /go/bin/app\n";

    let original_base = runtime_info.func_tab_base;
    parser
        .update_runtime_addresses(&mut runtime_info, maps_text)
        .unwrap();

    // The bias from the executable mapping is applied once, never lost.
    assert!(runtime_info.func_tab_base >= original_base);
}

#[test]
fn test_new_parser() {
    let parser = GoRuntimeParser::new();
    assert_eq!(
        std::mem::size_of_val(&parser),
        std::mem::size_of::<GoRuntimeParser>()
    );
}

#[test]
fn test_is_valid_go_version() {
    let parser = GoRuntimeParser::new();
    assert!(parser.is_valid_go_version("go1.21.0"));
    assert!(parser.is_valid_go_version("go1.2.3"));
    assert!(!parser.is_valid_go_version("go1.21"));
    assert!(!parser.is_valid_go_version("go1.x.y"));
    assert!(!parser.is_valid_go_version("go2.1.0"));
    assert!(!parser.is_valid_go_version(""));
}

#[test]
fn test_update_runtime_addresses_applied_once() {
    let parser = GoRuntimeParser::new();
    let mut runtime_info = GoRuntimeInfo {
        func_tab_base: 0x1000,
        ..Default::default()
    };
    // Two candidate mappings: only the first executable one is applied.
    let maps_text = "10000-20000 r-xp 0 0:0 0 /go/bin/app\n\
                     30000-40000 r-xp 0 0:0 0 /go/bin/app\n";
    parser
        .update_runtime_addresses(&mut runtime_info, maps_text)
        .unwrap();
    assert_eq!(runtime_info.func_tab_base, 0x1000 + 0x10000);
}

#[test]
fn test_update_runtime_addresses_zero_base() {
    let parser = GoRuntimeParser::new();
    let mut runtime_info = GoRuntimeInfo::default();
    let maps_text = "10000-20000 r-xp 0 0:0 0 /go/bin/app\n";
    parser
        .update_runtime_addresses(&mut runtime_info, maps_text)
        .unwrap();
    assert_eq!(runtime_info.func_tab_base, 0);
}
