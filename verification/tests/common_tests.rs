use golang_profiling::common::{EnhancedFuncInfo, FuncInfo, GoRuntimeInfo};
use golang_profiling::resolver::SymbolResolver;

#[test]
fn enhanced_info_from_basic() {
    let basic = FuncInfo { entry: 0x401100, name_off: 3, file_off: 0, line: 12 };
    let info = EnhancedFuncInfo::from_basic(basic);
    assert_eq!(info.basic.entry, 0x401100);
    assert_eq!(info.precise_line, Some(12));
    assert!(!info.from_dwarf);
    assert_eq!(info.get_function_name(), None);
    assert_eq!(info.get_line_number(), Some(12));
}

#[test]
fn enhanced_info_from_dwarf() {
    let info = EnhancedFuncInfo::from_dwarf(
        0x401100,
        Some("work".to_string()),
        Some("/src/a.go".to_string()),
        Some(7),
        Some(3),
        Some(0x401200),
    );
    assert!(info.from_dwarf);
    assert_eq!(info.basic.line, 7);
    assert_eq!(info.get_function_name(), Some("work"));
    assert_eq!(info.get_file_path(), Some("/src/a.go"));
    assert_eq!(info.format_symbol(), "/src/a.go:7:3 work");
}

#[test]
fn enhanced_info_format_variants() {
    let no_column = EnhancedFuncInfo::from_dwarf(
        0,
        Some("work".to_string()),
        Some("a.go".to_string()),
        Some(7),
        None,
        None,
    );
    assert_eq!(no_column.format_symbol(), "a.go:7 work");

    let bare = EnhancedFuncInfo::from_dwarf(0, Some("work".to_string()), None, None, None, None);
    assert_eq!(bare.format_symbol(), "work");

    let unnamed = EnhancedFuncInfo::from_dwarf(0, None, None, None, None, None);
    assert_eq!(unnamed.format_symbol(), "[unknown]");
}

#[test]
fn enhanced_resolution_falls_back() {
    let resolver = SymbolResolver {
        pid: 1,
        runtime_info: GoRuntimeInfo::default(),
        func_table: vec![FuncInfo { entry: 0x401100, name_off: 0, file_off: 0, line: 9 }],
        string_table: b"main\0".to_vec(),
        symbol_cache: Vec::new(),
        base_address: 0,
        kernel_symbols: Vec::new(),
        dwarf_parser: None,
        gopclntab: None,
    };
    let hit = resolver.resolve_enhanced_pc(0x401150);
    assert!(!hit.from_dwarf);
    assert_eq!(hit.function_name, Some("main".to_string()));
    assert_eq!(hit.precise_line, Some(9));

    let miss = resolver.resolve_enhanced_pc(0x900000);
    assert!(miss.from_dwarf);
    assert_eq!(miss.function_name, Some("[unknown:0x900000]".to_string()));
}

#[test]
fn default_descriptor_is_zeroed() {
    let info = GoRuntimeInfo::default();
    assert_eq!(info.version, [0u8; 32]);
    assert_eq!(info.func_tab_base, 0);
    assert_eq!(info.pc_quantum, 0);
}
