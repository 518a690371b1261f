use golang_profiling::pclntab::{
    get_go_functions_stop_delta, get_int32, get_string, go_magic_to_version,
    pclntab_header_signature, search_go_pclntab, Gopclntab, Pcval,
};
use golang_profiling::resolver::SymbolResolver;
use golang_profiling::common::GoRuntimeInfo;

fn push_u16(v: &mut Vec<u8>, x: u16) {
    v.extend_from_slice(&x.to_le_bytes());
}

fn push_u32(v: &mut Vec<u8>, x: u32) {
    v.extend_from_slice(&x.to_le_bytes());
}

fn push_u64(v: &mut Vec<u8>, x: u64) {
    v.extend_from_slice(&x.to_le_bytes());
}

/// A minimal fourth-generation table: two functions at text offsets 0x100
/// and 0x200, named "main" and "test".
fn v120_section() -> Vec<u8> {
    let mut d = Vec::new();
    push_u32(&mut d, 0xfffffff1); // magic
    push_u16(&mut d, 0); // pad
    d.push(1); // quantum
    d.push(8); // pointer size
    push_u64(&mut d, 2); // num_funcs
    push_u64(&mut d, 1); // nfiles
    push_u64(&mut d, 0x401000); // text_start
    push_u64(&mut d, 200); // funcname offset
    push_u64(&mut d, 0); // cu offset
    push_u64(&mut d, 0); // filetab offset
    push_u64(&mut d, 0); // pctab offset
    push_u64(&mut d, 80); // pcln (lookup table) offset
    assert_eq!(d.len(), 72);
    d.resize(80, 0);
    // Lookup entries: (pc offset, record offset relative to the table).
    push_u32(&mut d, 0x100);
    push_u32(&mut d, 16);
    push_u32(&mut d, 0x200);
    push_u32(&mut d, 56);
    // Record for "main" at relative offset 16 (absolute 96).
    assert_eq!(d.len(), 96);
    push_u32(&mut d, 0x100); // entry PC offset
    push_u32(&mut d, 0); // name_off
    for _ in 0..7 {
        push_u32(&mut d, 0);
    }
    // Record for "test" at relative offset 56 (absolute 132 + pad to 136).
    d.resize(136, 0);
    push_u32(&mut d, 0x200);
    push_u32(&mut d, 5);
    for _ in 0..7 {
        push_u32(&mut d, 0);
    }
    d.resize(200, 0);
    d.extend_from_slice(b"main\0test\0");
    d
}

#[test]
fn go_v120_two_functions() {
    let section = v120_section();
    let table = Gopclntab::new(section).unwrap();
    assert_eq!(table.version, 20);
    assert_eq!(table.num_funcs, 2);
    assert_eq!(table.text_start, 0x401000);

    let (_, _, name) = table.symbolize(0x401150);
    assert_eq!(name, "main");
    let (_, _, name) = table.symbolize(0x401250);
    assert_eq!(name, "test");
    // Far past the last entry: outside the managed code.
    let (_, _, name) = table.symbolize(0x500000);
    assert_eq!(name, "");

    let resolver = SymbolResolver {
        pid: 1,
        runtime_info: GoRuntimeInfo::default(),
        func_table: Vec::new(),
        string_table: Vec::new(),
        symbol_cache: Vec::new(),
        base_address: 0,
        kernel_symbols: Vec::new(),
        dwarf_parser: None,
        gopclntab: Some(Gopclntab::new(v120_section()).unwrap()),
    };
    assert_eq!(resolver.resolve_pc(0x401150), "main");
    assert_eq!(resolver.resolve_pc(0x401250), "test");
    assert_eq!(resolver.resolve_pc(0x500000), "[unknown:0x500000]");
}

#[test]
fn zig_zag_delta_decode() {
    // One encoded table: value delta +1 over one PC step, then +2 over two.
    let data = vec![0x02u8, 0x01, 0x04, 0x02, 0x00];
    let mut p = Pcval::new(data, 0x1000, 1);
    assert_eq!(p.val, 0);
    assert_eq!(p.pc_end, 0x1001);
    assert!(p.step());
    assert_eq!(p.val, 2);
    assert_eq!(p.pc_end, 0x1003);
    // The zero byte terminates the program.
    assert!(!p.step());
}

#[test]
fn delta_lane_lookup() {
    let section = {
        let mut d = v120_section();
        // Rewrite the first record to carry a line lane at pctab offset 190:
        // line 5 until 0x401110, then line 7.
        let pcln_lane_off: u32 = 190;
        d[96 + 4 + 20..96 + 4 + 24].copy_from_slice(&(pcln_lane_off as i32).to_le_bytes());
        // The lane table is the whole section (pctab offset 0), so place the
        // program at absolute 190: (zigzag +6, pc delta 0x10), (zigzag +2,
        // pc delta 0x40), terminator.
        d[190] = 0x0c;
        d[191] = 0x10;
        d[192] = 0x04;
        d[193] = 0x40;
        d[194] = 0x00;
        d
    };
    let table = Gopclntab::new(section).unwrap();
    let (_, line, name) = table.symbolize(0x401108);
    assert_eq!(name, "main");
    assert_eq!(line, 5);
    let (_, line, _) = table.symbolize(0x401120);
    assert_eq!(line, 7);
}

#[test]
fn magic_words() {
    assert_eq!(go_magic_to_version(0xfffffffb), 2);
    assert_eq!(go_magic_to_version(0xfffffffa), 16);
    assert_eq!(go_magic_to_version(0xfffffff0), 18);
    assert_eq!(go_magic_to_version(0xfffffff1), 20);
    assert_eq!(go_magic_to_version(0x12345678), 0);
}

#[test]
fn table_rejects_malformed_headers() {
    // Too short.
    assert!(Gopclntab::new(vec![0u8; 8]).is_err());
    // Unknown magic.
    let mut d = vec![0u8; 80];
    d[0] = 0x99;
    assert!(Gopclntab::new(d).is_err());
    // A 32-bit pointer size reshapes the header; these offsets then run
    // past the section.
    let mut d = v120_section();
    d[7] = 4;
    assert!(Gopclntab::new(d).is_err());
    // A pointer size other than four or eight is malformed.
    let mut d = v120_section();
    d[7] = 2;
    assert!(Gopclntab::new(d).is_err());
    // Nonzero padding.
    let mut d = v120_section();
    d[4] = 1;
    assert!(Gopclntab::new(d).is_err());
    // An offset past the section.
    let mut d = v120_section();
    let huge = (d.len() as u64 + 1).to_le_bytes();
    d[64..72].copy_from_slice(&huge);
    assert!(Gopclntab::new(d).is_err());
}

#[test]
fn signature_scan_finds_header() {
    let section = v120_section();
    let mut blob = vec![0xabu8; 37];
    blob.extend_from_slice(&section);
    blob.extend(vec![0u8; 40]);
    let found = search_go_pclntab(&blob, "x86_64").unwrap();
    assert_eq!(&found[..section.len()], &section[..]);
    // The recovered slice parses.
    assert!(Gopclntab::new(found).is_ok());
}

#[test]
fn signature_scan_rejects_junk() {
    // No valid magic anywhere.
    let blob = vec![0x17u8; 256];
    assert!(search_go_pclntab(&blob, "x86_64").is_none());
    // The signature alone, with a bad magic byte before it.
    let mut blob = vec![0u8; 64];
    blob[9] = 0xff;
    blob[10] = 0xff;
    blob[11] = 0xff;
    blob[14] = 0x01;
    blob[15] = 0x08;
    assert!(search_go_pclntab(&blob, "x86_64").is_none());
}

#[test]
fn signature_template() {
    assert_eq!(pclntab_header_signature("x86_64"), vec![0xff, 0xff, 0xff, 0, 0, 1, 8]);
    assert_eq!(pclntab_header_signature("aarch64"), vec![0xff, 0xff, 0xff, 0, 0, 4, 8]);
    assert_eq!(pclntab_header_signature("riscv"), vec![0xff, 0xff, 0xff, 0, 0, 1, 8]);
}

#[test]
fn int32_reads() {
    let data = vec![0xfe, 0xff, 0xff, 0xff, 0x2a];
    assert_eq!(get_int32(&data, 0), Some(-2));
    assert_eq!(get_int32(&data, 1), Some(0x2affffff));
    assert_eq!(get_int32(&data, 2), None);
}

#[test]
fn string_reads() {
    let data = b"alpha\0beta\0";
    assert_eq!(get_string(data, 0), "alpha");
    assert_eq!(get_string(data, 6), "beta");
    assert_eq!(get_string(data, 5), "");
    assert_eq!(get_string(data, 100), "");
    // No terminator: the string is absent.
    assert_eq!(get_string(b"abc", 0), "");
    // Invalid UTF-8 decodes through the replacement character.
    let bad = vec![0x66u8, 0xff, 0x6f, 0x00];
    let s = get_string(&bad, 0);
    assert_eq!(s.chars().count(), 3);
    assert!(s.starts_with('f'));
    assert!(s.ends_with('o'));
}

#[test]
fn legacy_parser_collects_entries() {
    // The first-generation magic with a flat list of (entry, record) pairs.
    let mut d = Vec::new();
    push_u32(&mut d, 0xfffffffb);
    d.push(0);
    d.push(0);
    d.push(8); // pointer size at its fixed offset
    d.push(0);
    push_u32(&mut d, 2); // count
    push_u32(&mut d, 0);
    push_u64(&mut d, 0x1100);
    push_u64(&mut d, 0);
    push_u64(&mut d, 0x1200);
    push_u64(&mut d, 0);
    d.resize(120, 0);
    d.extend_from_slice(b"main.main\0");
    let mut resolver = SymbolResolver {
        pid: 1,
        runtime_info: GoRuntimeInfo::default(),
        func_table: Vec::new(),
        string_table: Vec::new(),
        symbol_cache: Vec::new(),
        base_address: 0x400000,
        kernel_symbols: Vec::new(),
        dwarf_parser: None,
        gopclntab: None,
    };
    resolver.parse_pclntab_legacy(&d).unwrap();
    assert_eq!(resolver.func_table.len(), 2);
    assert_eq!(resolver.func_table[0].entry, 0x401100);
    assert_eq!(resolver.func_table[1].entry, 0x401200);
    // The guessed string table is a suffix of the section.
    assert!(!resolver.string_table.is_empty());
}

#[test]
fn leb_words_decode() {
    // A two-byte word: 0x80 0x02 encodes 256.
    let mut p = Pcval::new(Vec::new(), 0, 1);
    p.ptr = vec![0x80, 0x02, 0x7f];
    assert_eq!(p.get_int(), 256);
    assert_eq!(p.get_int(), 0x7f);
    // A word cut off by the end of the program reads as zero.
    assert_eq!(p.get_int(), 0);
    p.ptr = vec![0x81];
    assert_eq!(p.get_int(), 0);
}

#[test]
fn unwind_stop_functions() {
    let stops = get_go_functions_stop_delta();
    assert_eq!(stops.get("runtime.mstart"), Some(&true));
    assert_eq!(stops.get("runtime.goexit"), Some(&true));
    assert_eq!(stops.get("runtime.systemstack"), Some(&true));
    assert_eq!(stops.len(), 6);
    assert_eq!(stops.get("main.main"), None);
}

/// A minimal first-generation table with 32-bit pointers: one function at
/// 0x1100.
fn v12_section_ptr4() -> Vec<u8> {
    let mut d = Vec::new();
    push_u32(&mut d, 0xfffffffb); // magic
    push_u16(&mut d, 0); // pad
    d.push(1); // quantum
    d.push(4); // pointer size
    push_u32(&mut d, 1); // num_funcs, pointer-sized
    // Lookup: one (pc, record offset) pair, then the trailing pointer.
    push_u32(&mut d, 0x1100);
    push_u32(&mut d, 0);
    push_u32(&mut d, 0);
    // File-table offset just past itself, with a nonzero file count.
    push_u32(&mut d, 28);
    push_u32(&mut d, 1);
    d
}

#[test]
fn table_accepts_32_bit_pointers() {
    let table = Gopclntab::new(v12_section_ptr4()).unwrap();
    assert_eq!(table.version, 2);
    assert_eq!(table.ptr_size, 4);
    assert_eq!(table.num_funcs, 1);
    assert_eq!(table.func_map_size, 8);
    assert_eq!(table.fun_size, 36);
    // The lookup table spans from past the header to the file table.
    assert_eq!(table.functab.len(), 28 - 12);
    let (pc, off) = table.get_func_map_entry(0);
    assert_eq!(pc, 0x1100);
    assert_eq!(off, 0);
}

#[test]
fn inner_gap_not_misattributed() {
    // Two entries more than 64 KiB apart: a PC in the gap lies outside
    // the managed code.
    let mut d = v120_section();
    d[88..92].copy_from_slice(&0x30000u32.to_le_bytes()); // second lookup PC
    d[136..140].copy_from_slice(&0x30000u32.to_le_bytes()); // second record PC
    let table = Gopclntab::new(d).unwrap();
    let (_, _, name) = table.symbolize(0x401000 + 0x100);
    assert_eq!(name, "main");
    // Within 64 KiB of the first entry: still attributed.
    let (_, _, name) = table.symbolize(0x401000 + 0x100 + 0xffff);
    assert_eq!(name, "main");
    // Beyond it, but before the next entry: a miss.
    let (_, _, name) = table.symbolize(0x401000 + 0x100 + 0x10000);
    assert_eq!(name, "");
    let (_, _, name) = table.symbolize(0x401000 + 0x30000 + 8);
    assert_eq!(name, "test");
}
