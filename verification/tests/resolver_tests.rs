use golang_profiling::common::{FuncInfo, GoRuntimeInfo};
use golang_profiling::dwarf::{DwarfParser, SourceLocation};
use golang_profiling::resolver::SymbolResolver;

fn create_mock_runtime_info() -> GoRuntimeInfo {
    let mut version = [0u8; 32];
    version[..8].copy_from_slice(b"go1.21.0");
    GoRuntimeInfo {
        version,
        g_offset: 0x30,
        stack_base_offset: 0x10,
        stack_size_offset: 0x18,
        func_tab_base: 0x400000,
        func_tab_size: 1000,
        pc_quantum: 1,
    }
}

fn bare_resolver() -> SymbolResolver {
    SymbolResolver {
        pid: 1234,
        runtime_info: create_mock_runtime_info(),
        func_table: Vec::new(),
        string_table: Vec::new(),
        symbol_cache: Vec::new(),
        base_address: 0,
        kernel_symbols: Vec::new(),
        dwarf_parser: None,
        gopclntab: None,
    }
}

#[test]
fn symbol_resolver_test_get_function_name() {
    let mut resolver = bare_resolver();
    resolver.string_table = b"main\0test\0".to_vec();

    let func_info1 = FuncInfo {
        entry: 0x401100,
        name_off: 0,
        file_off: 0,
        line: 0,
    };
    let func_info2 = FuncInfo {
        entry: 0x401200,
        name_off: 5,
        file_off: 0,
        line: 0,
    };

    let name1 = resolver.get_function_name(&func_info1);
    assert_eq!(name1, Some("main".to_string()));

    let name2 = resolver.get_function_name(&func_info2);
    assert_eq!(name2, Some("test".to_string()));

    // An offset past the string table resolves to nothing.
    let func_info_invalid = FuncInfo {
        entry: 0x401300,
        name_off: 100,
        file_off: 0,
        line: 0,
    };
    let name_invalid = resolver.get_function_name(&func_info_invalid);
    assert_eq!(name_invalid, None);
}

#[test]
fn symbol_resolver_test_find_function_by_pc() {
    let mut resolver = bare_resolver();
    resolver.func_table = vec![
        FuncInfo { entry: 0x401000, name_off: 0, file_off: 0, line: 0 },
        FuncInfo { entry: 0x401100, name_off: 5, file_off: 0, line: 0 },
        FuncInfo { entry: 0x401200, name_off: 10, file_off: 0, line: 0 },
    ];

    // Exact match.
    let func = resolver.find_function_by_pc(0x401100);
    assert!(func.is_some());
    assert_eq!(func.unwrap().entry, 0x401100);

    // Within a function's range.
    let func = resolver.find_function_by_pc(0x401150);
    assert!(func.is_some());
    assert_eq!(func.unwrap().entry, 0x401100);

    // Before the first function.
    let func = resolver.find_function_by_pc(0x400500);
    assert!(func.is_none());

    // After the last function, within the 64 KiB cap.
    let func = resolver.find_function_by_pc(0x401300);
    assert!(func.is_some());
    assert_eq!(func.unwrap().entry, 0x401200);
}

#[test]
fn symbol_resolver_test_resolve_pc() {
    let mut resolver = bare_resolver();
    resolver.func_table = vec![FuncInfo { entry: 0x401100, name_off: 0, file_off: 0, line: 0 }];
    resolver.string_table = b"main\0".to_vec();

    // Successful resolution through the flat table.
    let name = resolver.resolve_pc(0x401100);
    assert_eq!(name, "main");

    // A PC no table covers falls back to the bracketed address.
    let name = resolver.resolve_pc(0x500000);
    assert_eq!(name, "[unknown:0x500000]");
}

#[test]
fn kernel_range_routing() {
    // A kernel PC with a symbol within 64 KiB resolves to its name.
    let mut resolver = bare_resolver();
    resolver.kernel_symbols = vec![(0xFFFFFFFF81233F00, "sys_read".to_string())];
    let name = resolver.resolve_pc(0xFFFFFFFF81234000);
    assert_eq!(name, "sys_read");

    // The same PC with the nearest symbol too far away misses.
    let mut far = bare_resolver();
    far.kernel_symbols = vec![(0xFFFFFFFF81214000, "sys_read".to_string())];
    let name = far.resolve_pc(0xFFFFFFFF81234000);
    assert_eq!(name, "[unknown:0xffffffff81234000]");
}

#[test]
fn kernel_table_ignored_below_threshold() {
    // A user-space PC resolves the same with and without kernel symbols.
    let mut with_kernel = bare_resolver();
    with_kernel.func_table = vec![FuncInfo { entry: 0x401100, name_off: 0, file_off: 0, line: 0 }];
    with_kernel.string_table = b"main\0".to_vec();
    with_kernel.kernel_symbols = vec![(0x400000, "bogus".to_string())];

    let mut without_kernel = bare_resolver();
    without_kernel.func_table = with_kernel.func_table.clone();
    without_kernel.string_table = with_kernel.string_table.clone();

    assert_eq!(
        with_kernel.resolve_pc(0x401150),
        without_kernel.resolve_pc(0x401150)
    );
    assert_eq!(
        with_kernel.resolve_pc(0x500000),
        without_kernel.resolve_pc(0x500000)
    );
}

#[test]
fn priority_merge() {
    // Debug lines place the PC in main.go:42 with no function name; the
    // function table names it: the merged symbol carries both.
    let mut resolver = bare_resolver();
    resolver.func_table = vec![FuncInfo { entry: 0x401100, name_off: 0, file_off: 0, line: 0 }];
    resolver.string_table = b"main\0".to_vec();
    let mut dp = DwarfParser::new();
    dp.insert_location(
        0x401150,
        SourceLocation {
            file_path: "main.go".to_string(),
            line: 42,
            column: 0,
            function_name: None,
        },
    );
    resolver.dwarf_parser = Some(dp);

    let name = resolver.resolve_pc(0x401150);
    assert_eq!(name, "main main.go:42");
}

#[test]
fn debug_line_name_wins() {
    let mut resolver = bare_resolver();
    let mut dp = DwarfParser::new();
    dp.insert_location(
        0x401150,
        SourceLocation {
            file_path: "main.go".to_string(),
            line: 7,
            column: 0,
            function_name: Some("handler".to_string()),
        },
    );
    resolver.dwarf_parser = Some(dp);
    assert_eq!(resolver.resolve_pc(0x401150), "handler main.go:7");
}

#[test]
fn load_kernel_symbols_from_listing() {
    let mut resolver = bare_resolver();
    let listing = "ffffffff81000000 T startup\n\
                   ffffffff81233f00 T sys_read\n\
                   ffffffff81300000 d some_data\n\
                   not a line\n";
    resolver.load_kernel_symbols(listing);
    // Only the function-kind entries are kept.
    assert_eq!(resolver.kernel_symbols.len(), 2);
    assert_eq!(resolver.resolve_kernel_symbol(0xffffffff81233f80), Some("sys_read".to_string()));
    assert_eq!(resolver.resolve_kernel_symbol(0xffffffff81000000), Some("startup".to_string()));
    assert_eq!(resolver.resolve_kernel_symbol(0xffffffff80000000), None);
}

#[test]
fn nearby_cached_symbol_offset() {
    let mut resolver = bare_resolver();
    resolver.symbol_cache = vec![(0x400000, "start".to_string())];
    // Within a page of a cached symbol: name plus hexadecimal offset.
    assert_eq!(resolver.resolve_pc(0x400010), "start +0x10");
}

#[test]
fn dwarf_nearest_location_lookup() {
    let mut dp = DwarfParser::new();
    dp.insert_location(
        0x1000,
        SourceLocation {
            file_path: "a.go".to_string(),
            line: 1,
            column: 0,
            function_name: None,
        },
    );
    dp.insert_location(
        0x2000,
        SourceLocation {
            file_path: "b.go".to_string(),
            line: 2,
            column: 0,
            function_name: None,
        },
    );
    assert_eq!(dp.get_location(0x1000).unwrap().file_path, "a.go");
    assert!(dp.get_location(0x1500).is_none());
    assert_eq!(dp.get_nearest_location(0x1500).unwrap().file_path, "a.go");
    assert_eq!(dp.get_nearest_location(0x2500).unwrap().file_path, "b.go");
    assert!(dp.get_nearest_location(0x500).is_none());
}

#[test]
fn dwarf_function_range_backfill() {
    let mut dp = DwarfParser::new();
    dp.insert_location(
        0x1000,
        SourceLocation {
            file_path: "a.go".to_string(),
            line: 1,
            column: 0,
            function_name: None,
        },
    );
    dp.insert_location(
        0x3000,
        SourceLocation {
            file_path: "a.go".to_string(),
            line: 9,
            column: 0,
            function_name: None,
        },
    );
    dp.apply_function_ranges("work", &vec![(0x1000, 0x2000)]);
    assert_eq!(
        dp.get_location(0x1000).unwrap().function_name,
        Some("work".to_string())
    );
    assert_eq!(dp.get_location(0x3000).unwrap().function_name, None);
    assert!(dp.is_address_in_function(0x1500, "work"));
    assert!(!dp.is_address_in_function(0x2500, "work"));
    assert_eq!(dp.get_function_ranges("work"), Some(&vec![(0x1000u64, 0x2000u64)]));
    assert_eq!(dp.get_function_ranges("other"), None);
}
