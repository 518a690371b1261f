use golang_profiling::common::GoRuntimeInfo;
use golang_profiling::fold::{fold_stacks, materialize_stack, FlameGraphExporter, FlameNode};
use golang_profiling::resolver::SymbolResolver;

fn resolver_with_cache(entries: Vec<(u64, &str)>) -> SymbolResolver {
    let mut cache: Vec<(u64, String)> = entries
        .into_iter()
        .map(|(a, n)| (a, n.to_string()))
        .collect();
    cache.sort_by_key(|e| e.0);
    SymbolResolver {
        pid: 1,
        runtime_info: GoRuntimeInfo::default(),
        func_table: Vec::new(),
        string_table: Vec::new(),
        symbol_cache: cache,
        base_address: 0,
        kernel_symbols: Vec::new(),
        dwarf_parser: None,
        gopclntab: None,
    }
}

#[test]
fn folded_output() {
    let pc_a = 0x1000u64;
    let pc_b = 0x2000u64;
    let pc_c = 0x3000u64;
    let resolver = resolver_with_cache(vec![(pc_a, "A"), (pc_b, "B"), (pc_c, "C")]);
    let aggregated = vec![(vec![pc_a, pc_b], 3u64), (vec![pc_a, pc_c], 5u64)];
    let exporter = FlameGraphExporter::new();
    let lines = exporter.export_folded_stacks(&aggregated, &resolver);
    assert_eq!(lines.len(), 2);
    assert!(lines.contains(&"A;B 3".to_string()));
    assert!(lines.contains(&"A;C 5".to_string()));
}

#[test]
fn folded_output_order_invariant() {
    // Permuting the snapshot produces lines with equal sums per stack.
    let resolver = resolver_with_cache(vec![(0x1000, "A"), (0x2000, "B")]);
    let forward = vec![
        (vec![0x1000u64], 2u64),
        (vec![0x2000u64], 7u64),
        (vec![0x1000u64], 3u64),
    ];
    let backward = vec![
        (vec![0x1000u64], 3u64),
        (vec![0x2000u64], 7u64),
        (vec![0x1000u64], 2u64),
    ];
    let exporter = FlameGraphExporter::new();
    let mut lines1 = exporter.export_folded_stacks(&forward, &resolver);
    let mut lines2 = exporter.export_folded_stacks(&backward, &resolver);
    lines1.sort();
    lines2.sort();
    assert_eq!(lines1, vec!["A 5".to_string(), "B 7".to_string()]);
    assert_eq!(lines1, lines2);
}

#[test]
fn fold_sums_duplicate_stacks() {
    let entries = vec![
        ("a;b".to_string(), 1u64),
        ("a;c".to_string(), 2u64),
        ("a;b".to_string(), 4u64),
    ];
    let folded = fold_stacks(&entries);
    assert_eq!(folded.len(), 2);
    let ab = folded.iter().find(|e| e.0 == "a;b").unwrap();
    assert_eq!(ab.1, 5);
    let ac = folded.iter().find(|e| e.0 == "a;c").unwrap();
    assert_eq!(ac.1, 2);
}

#[test]
fn materialize_reverses_and_skips_zeros() {
    // The kernel map stores leaf-first; materialized stacks run root-first,
    // kernel before user, zero frames dropped.
    let kernel = vec![0x30u64, 0, 0x10];
    let user = vec![0x3u64, 0x2, 0, 0x1];
    let stack = materialize_stack(&kernel, &user);
    assert_eq!(stack, vec![0x10, 0x30, 0x1, 0x2, 0x3]);
}

#[test]
fn flame_node_tree() {
    let mut root = FlameNode::new("root".to_string());
    let stack_ab = vec!["a".to_string(), "b".to_string()];
    let stack_ac = vec!["a".to_string(), "c".to_string()];
    root.add_sample(&stack_ab, 3);
    root.add_sample(&stack_ac, 5);
    assert_eq!(root.value, 8);
    assert_eq!(root.children.len(), 1);
    assert_eq!(root.children[0].name, "a");
    assert_eq!(root.children[0].value, 8);

    let mut lines = root.to_folded("");
    lines.sort();
    assert_eq!(lines, vec!["root;a;b 3".to_string(), "root;a;c 5".to_string()]);
}

#[test]
fn flame_node_leaf_line() {
    let mut leaf = FlameNode::new("only".to_string());
    leaf.add_sample(&[], 4);
    assert_eq!(leaf.to_folded(""), vec!["only 4".to_string()]);
    assert_eq!(leaf.to_folded("pre"), vec!["pre;only 4".to_string()]);
}

#[test]
fn perf_script_shape() {
    let resolver = resolver_with_cache(vec![(0x1000, "A")]);
    let aggregated = vec![(vec![0x1000u64], 2u64)];
    let exporter = FlameGraphExporter::new();
    let lines = exporter.export_perf_script(&aggregated, &resolver, 1700000000);
    assert_eq!(lines[0], "# captured on: 1700000000");
    // Eleven header lines, then per sample: one summary line, one frame,
    // one separator.
    assert_eq!(lines.len(), 11 + 2 * 3);
    assert_eq!(lines[11], "golang-profile 1 [000] 0.000001: cycles:");
    assert_eq!(lines[12], "\t0000000000001000 A");
    assert_eq!(lines[13], "");
}
