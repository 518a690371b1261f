//! The unified PC-to-symbol resolver: merges the debug-line store, the
//! in-binary function table, the flat text-symbol list and the kernel
//! symbol listing, with the fixed priority the profiler defines.
use vstd::prelude::*;

use crate::common::{FuncInfo, GoRuntimeInfo, EnhancedFuncInfo};
use crate::dwarf::{DwarfParser, SourceLocation, spec_dwarf_wf, spec_nearest_loc};
use crate::elf::{elf_section_data, elf_section_of, elf_symbols, elf_symbols_of};
use crate::names::{clean_go_function_name, spec_clean_full, spec_contains};
use crate::pclntab::{Gopclntab, spec_gopclntab_valid};
use crate::strutil::{
    chars_to_string,
    dec_string,
    hex_string,
    parse_hex,
    spec_all_hex,
    spec_ascii_bytes,
    spec_bytes_as_chars,
    spec_dec,
    spec_fields,
    spec_hex,
    spec_hex_value,
    spec_lines,
    spec_views,
    split_lines_chars,
    split_whitespace_chars,
    str_chars,
    string_from_utf8,
    utf8_of,
};

verus! {

/// First kernel-space address on 64-bit commodity hardware: PCs at or
/// above it resolve against the kernel symbol listing alone.
pub const KERNEL_ADDR_BASE: u64 = 0xffffffff80000000;

/// One process memory mapping, reduced to what the bias computation reads.
#[derive(Debug, Clone)]
pub struct MapRecord {
    /// Start address of the mapping.
    pub start: u64,
    /// End address of the mapping.
    pub end: u64,
    /// Whether the mapping is readable.
    pub readable: bool,
    /// Whether the mapping is executable.
    pub executable: bool,
    /// The mapped path, empty for anonymous mappings.
    pub path: String,
}

/// Whether a mapping is the main executable's text: readable, executable,
/// and named like the target binary.
pub open spec fn spec_map_matches(m: MapRecord) -> bool {
    m.readable && m.executable && (spec_contains(m.path@, "test_program"@) || spec_contains(
        m.path@,
        "golang-profile"@,
    ))
}

/// The load bias: the start of the first matching mapping, or the
/// documented default when none matches.
pub open spec fn spec_base_of(maps: Seq<MapRecord>) -> u64
    decreases maps.len(),
{
    if maps.len() == 0 {
        0x400000u64
    } else if spec_map_matches(maps[0]) {
        maps[0].start
    } else {
        spec_base_of(maps.skip(1))
    }
}

/// What one kernel-listing line contributes: the address and name, when
/// the line has at least three fields, a hexadecimal address, and one of
/// the four function kinds.
pub open spec fn spec_ksym_line(line: Seq<char>) -> Option<(u64, Seq<char>)> {
    let fs = spec_fields(line);
    if fs.len() >= 3 && fs[0].len() > 0 && spec_all_hex(fs[0]) && spec_hex_value(fs[0])
        <= u64::MAX && fs[1].len() == 1 && (fs[1][0] == 'T' || fs[1][0] == 't' || fs[1][0] == 'W'
        || fs[1][0] == 'w') {
        Some((spec_hex_value(fs[0]) as u64, fs[2]))
    } else {
        None
    }
}

/// The name the listing's lines give an address, a later line overriding
/// an earlier one with the same address; `None` when no parsing line
/// names it.
pub open spec fn spec_ksym_lookup(lines: Seq<Seq<char>>, a: u64) -> Option<Seq<char>>
    decreases lines.len(),
{
    if lines.len() == 0 {
        None
    } else {
        match spec_ksym_lookup(lines.skip(1), a) {
            Some(n) => Some(n),
            None => match spec_ksym_line(lines[0]) {
                Some((addr, name)) => if addr == a {
                    Some(name)
                } else {
                    None
                },
                None => None,
            },
        }
    }
}

proof fn lemma_ksym_snoc(p: Seq<Seq<char>>, x: Seq<char>, a: u64)
    ensures
        spec_ksym_lookup(p.push(x), a) == (match spec_ksym_line(x) {
            Some((addr, nm)) => if addr == a {
                Some(nm)
            } else {
                spec_ksym_lookup(p, a)
            },
            None => spec_ksym_lookup(p, a),
        }),
    decreases p.len(),
{
    if p.len() == 0 {
        assert(p.push(x)[0] == x);
        assert(p.push(x).skip(1) =~= Seq::<Seq<char>>::empty());
        assert(spec_ksym_lookup(p.push(x).skip(1), a) is None);
        assert(spec_ksym_lookup(p, a) is None);
    } else {
        assert(p.push(x)[0] == p[0]);
        assert(p.push(x).skip(1) =~= p.skip(1).push(x));
        lemma_ksym_snoc(p.skip(1), x, a);
        if spec_ksym_line(x) is Some && spec_ksym_line(x)->Some_0.0 == a {
            let nm = spec_ksym_line(x)->Some_0.1;
            assert(spec_ksym_lookup(p.skip(1).push(x), a) == Some(nm));
            assert(spec_ksym_lookup(p.push(x), a) == Some(nm));
        } else {
            assert(spec_ksym_lookup(p.skip(1).push(x), a) == spec_ksym_lookup(p.skip(1), a));
            assert(spec_ksym_lookup(p.push(x), a) == (match spec_ksym_lookup(p.skip(1), a) {
                Some(n) => Some(n),
                None => match spec_ksym_line(p[0]) {
                    Some((addr, name)) => if addr == a {
                        Some(name)
                    } else {
                        None
                    },
                    None => None,
                },
            }));
        }
    }
}

/// Keys strictly increasing in an address-keyed list.
pub open spec fn spec_sorted_syms(s: Seq<(u64, String)>) -> bool {
    forall|i: int, j: int| 0 <= i < j < s.len() ==> (#[trigger] s[i]).0 < (#[trigger] s[j]).0
}

/// Entry addresses non-decreasing in the flat function table.
pub open spec fn spec_sorted_funcs(s: Seq<FuncInfo>) -> bool {
    forall|i: int, j: int|
        0 <= i < j < s.len() ==> (#[trigger] s[i]).entry <= (#[trigger] s[j]).entry
}

/// Whether some record carries the entry address.
pub open spec fn spec_has_entry(t: Seq<FuncInfo>, a: u64) -> bool {
    exists|i: int| 0 <= i < t.len() && (#[trigger] t[i]).entry == a
}

/// Entry addresses all distinct.
pub open spec fn spec_distinct_funcs(t: Seq<FuncInfo>) -> bool {
    forall|i: int, j: int|
        0 <= i < j < t.len() ==> (#[trigger] t[i]).entry != (#[trigger] t[j]).entry
}

/// The name recorded for an exact address, if any.
pub open spec fn spec_lookup_sym(s: Seq<(u64, String)>, a: u64) -> Option<Seq<char>>
    decreases s.len(),
{
    if s.len() == 0 {
        None
    } else if s[0].0 == a {
        Some(s[0].1@)
    } else {
        spec_lookup_sym(s.skip(1), a)
    }
}

/// What a range query over an address-keyed list returns: the name of the
/// entry with the greatest address not above `a`, if that entry lies
/// within 64 KiB of `a`.
pub open spec fn spec_range_resolve(s: Seq<(u64, String)>, a: u64, dist: u64) -> Option<Seq<char>> {
    if exists|i: int| 0 <= i < s.len() && (#[trigger] s[i]).0 <= a {
        let i = choose|i: int|
            0 <= i < s.len() && (#[trigger] s[i]).0 <= a && (i + 1 == s.len() || s[i + 1].0 > a);
        if a - s[i].0 < dist {
            Some(s[i].1@)
        } else {
            None
        }
    } else {
        None
    }
}

/// The symbol resolver: every table it consults, held as plain values.
/// The caller reads the executable image, the process mappings and the
/// kernel symbol listing and hands them in at construction.
pub struct SymbolResolver {
    /// Process being profiled.
    pub pid: u32,
    /// The runtime descriptor of the target.
    pub runtime_info: GoRuntimeInfo,
    /// Flat function table, sorted by entry address.
    pub func_table: Vec<FuncInfo>,
    /// String table backing `func_table` name and file offsets.
    pub string_table: Vec<u8>,
    /// Names of text symbols by address, sorted, one per address.
    pub symbol_cache: Vec<(u64, String)>,
    /// Load bias of the main executable.
    pub base_address: u64,
    /// Kernel symbols by address, sorted, one per address.
    pub kernel_symbols: Vec<(u64, String)>,
    /// Debug-line store, when the binary carried debug sections.
    pub dwarf_parser: Option<DwarfParser>,
    /// Parsed in-binary function table, when one was found.
    pub gopclntab: Option<Gopclntab>,
}

/// Well-formedness: every address-keyed table sorted.
pub open spec fn spec_resolver_wf(r: &SymbolResolver) -> bool {
    &&& spec_sorted_syms(r.symbol_cache@)
    &&& spec_sorted_syms(r.kernel_symbols@)
    &&& spec_sorted_funcs(r.func_table@)
    &&& (r.dwarf_parser is Some ==> spec_dwarf_wf(&r.dwarf_parser->Some_0))
}

/// Inserts into a sorted address-keyed list, replacing an entry with the
/// same address.
fn upsert_sym(v: &mut Vec<(u64, String)>, key: u64, val: String)
    requires
        spec_sorted_syms(old(v)@),
    ensures
        spec_sorted_syms(final(v)@),
        final(v)@.len() <= old(v)@.len() + 1,
        spec_lookup_sym(final(v)@, key) == Some(val@),
        forall|a: u64|
            a != key ==> #[trigger] spec_lookup_sym(final(v)@, a) == spec_lookup_sym(old(v)@, a),
{
    let ghost olds = v@;
    let mut i: usize = 0;
    while i < v.len() && v[i].0 < key
        invariant
            0 <= i <= olds.len(),
            v@ == olds,
            forall|k: int| 0 <= k < i ==> (#[trigger] olds[k]).0 < key,
        decreases olds.len() - i,
    {
        i = i + 1;
    }
    if i < v.len() && v[i].0 == key {
        v[i] = (key, val);
        proof {
            let news = v@;
            assert(spec_sorted_syms(news)) by {
                assert(forall|k: int| 0 <= k < news.len() && k != i ==> news[k] == olds[k]);
            }
            lemma_lookup_sym_at(news, i as int);
            assert forall|a: u64| a != key implies #[trigger] spec_lookup_sym(news, a)
                == spec_lookup_sym(olds, a) by {
                lemma_lookup_sym_update(olds, news, i as int, a);
            }
        }
    } else {
        proof {
            assert(spec_sorted_syms(olds));
            assert forall|k: int| i <= k < olds.len() implies (#[trigger] olds[k]).0 > key by {
                if k > i {
                    assert(olds[i as int].0 < olds[k].0);
                }
            }
        }
        v.insert(i, (key, val));
        proof {
            let news = v@;
            assert(spec_sorted_syms(news)) by {
                assert(forall|k: int| 0 <= k < i ==> news[k] == olds[k]);
                assert(forall|k: int| i < k < news.len() ==> news[k] == olds[k - 1]);
                assert(news[i as int].0 == key);
            }
            lemma_lookup_sym_at(news, i as int);
            assert forall|a: u64| a != key implies #[trigger] spec_lookup_sym(news, a)
                == spec_lookup_sym(olds, a) by {
                lemma_lookup_sym_insert(olds, news, i as int, a);
            }
        }
    }
}

proof fn lemma_lookup_sym_update(olds: Seq<(u64, String)>, news: Seq<(u64, String)>, i: int, a: u64)
    requires
        0 <= i < olds.len(),
        news.len() == olds.len(),
        forall|k: int| 0 <= k < olds.len() && k != i ==> #[trigger] news[k] == olds[k],
        news[i].0 == olds[i].0,
        a != olds[i].0,
    ensures
        spec_lookup_sym(news, a) == spec_lookup_sym(olds, a),
    decreases i,
{
    if i == 0 {
        assert(news.skip(1) =~= olds.skip(1));
    } else {
        assert(news[0] == olds[0]);
        if olds[0].0 == a {
        } else {
            assert(forall|k: int|
                0 <= k < olds.skip(1).len() && k != i - 1 ==> #[trigger] news.skip(1)[k]
                    == olds.skip(1)[k]);
            assert(news.skip(1)[i - 1].0 == olds.skip(1)[i - 1].0);
            lemma_lookup_sym_update(olds.skip(1), news.skip(1), i - 1, a);
        }
    }
}

proof fn lemma_lookup_sym_insert(olds: Seq<(u64, String)>, news: Seq<(u64, String)>, i: int, a: u64)
    requires
        0 <= i <= olds.len(),
        news.len() == olds.len() + 1,
        forall|k: int| 0 <= k < i ==> #[trigger] news[k] == olds[k],
        forall|k: int| i < k < news.len() ==> #[trigger] news[k] == olds[k - 1],
        a != news[i].0,
    ensures
        spec_lookup_sym(news, a) == spec_lookup_sym(olds, a),
    decreases i,
{
    if i == 0 {
        assert(news.skip(1) =~= olds);
    } else {
        assert(news[0] == olds[0]);
        if olds[0].0 == a {
        } else {
            assert(forall|k: int|
                0 <= k < i - 1 ==> #[trigger] news.skip(1)[k] == olds.skip(1)[k]);
            assert(forall|k: int|
                i - 1 < k < news.skip(1).len() ==> #[trigger] news.skip(1)[k] == olds.skip(1)[k
                    - 1]);
            assert(news.skip(1)[i - 1] == news[i]);
            lemma_lookup_sym_insert(olds.skip(1), news.skip(1), i - 1, a);
        }
    }
}

/// Exact lookup in a sorted address-keyed list.
fn lookup_sym(v: &Vec<(u64, String)>, key: u64) -> (r: Option<&String>)
    ensures
        r is Some <==> spec_lookup_sym(v@, key) is Some,
        r is Some ==> r->Some_0@ == spec_lookup_sym(v@, key)->Some_0,
{
    let ghost s = v@;
    let mut i: usize = 0;
    while i < v.len()
        invariant
            s == v@,
            0 <= i <= s.len(),
            forall|k: int| 0 <= k < i ==> (#[trigger] s[k]).0 != key,
        decreases s.len() - i,
    {
        if v[i].0 == key {
            proof {
                lemma_lookup_sym_at(s, i as int);
            }
            return Some(&v[i].1);
        }
        i = i + 1;
    }
    proof {
        lemma_lookup_sym_none(s, key);
    }
    None
}

proof fn lemma_lookup_sym_at(s: Seq<(u64, String)>, i: int)
    requires
        0 <= i < s.len(),
        forall|k: int| 0 <= k < i ==> (#[trigger] s[k]).0 != s[i].0,
    ensures
        spec_lookup_sym(s, s[i].0) == Some(s[i].1@),
    decreases i,
{
    if i > 0 {
        assert(s.skip(1)[i - 1] == s[i]);
        assert(forall|k: int|
            0 <= k < i - 1 ==> (#[trigger] s.skip(1)[k]).0 == s[k + 1].0);
        lemma_lookup_sym_at(s.skip(1), i - 1);
    }
}

proof fn lemma_lookup_sym_none(s: Seq<(u64, String)>, a: u64)
    requires
        forall|k: int| 0 <= k < s.len() ==> (#[trigger] s[k]).0 != a,
    ensures
        spec_lookup_sym(s, a) is None,
    decreases s.len(),
{
    if s.len() > 0 {
        assert(forall|k: int|
            0 <= k < s.skip(1).len() ==> (#[trigger] s.skip(1)[k]).0 == s[k + 1].0);
        lemma_lookup_sym_none(s.skip(1), a);
    }
}

/// The greatest-address-not-above query over a sorted list: the entry
/// index, when one exists.
fn greatest_le(v: &Vec<(u64, String)>, a: u64) -> (r: Option<usize>)
    requires
        spec_sorted_syms(v@),
    ensures
        r is Some ==> {
            let i = r->Some_0 as int;
            0 <= i < v@.len() && v@[i].0 <= a && (i + 1 == v@.len() || v@[i + 1].0 > a)
        },
        r is None ==> (v@.len() == 0 || v@[0].0 > a),
{
    let ghost s = v@;
    let mut left: usize = 0;
    let mut right: usize = v.len();
    while left < right
        invariant
            s == v@,
            spec_sorted_syms(s),
            0 <= left <= right <= s.len(),
            forall|k: int| 0 <= k < left ==> (#[trigger] s[k]).0 <= a,
            forall|k: int| right <= k < s.len() ==> (#[trigger] s[k]).0 > a,
        decreases right - left,
    {
        let mid = left + (right - left) / 2;
        if v[mid].0 <= a {
            left = mid + 1;
            proof {
                assert forall|k: int| 0 <= k < left implies (#[trigger] s[k]).0 <= a by {
                    if k < mid as int {
                        assert(s[k].0 < s[mid as int].0);
                    }
                }
            }
        } else {
            right = mid;
        }
    }
    if left == 0 {
        None
    } else {
        Some(left - 1)
    }
}

impl SymbolResolver {
    /// Builds a resolver for process `pid` from the executable image, its
    /// memory mappings and the kernel symbol listing; `dwarf` carries the
    /// debug-line store when the caller could extract one.  Sources are
    /// tried in the fixed order: debug lines, then the in-binary function
    /// table (the current layout parser before the legacy one), then the
    /// flat text symbols.
    pub fn new(
        pid: u32,
        runtime_info: GoRuntimeInfo,
        exe: &[u8],
        maps: &Vec<MapRecord>,
        kallsyms: &str,
        dwarf: Option<DwarfParser>,
    ) -> (r: Result<SymbolResolver, String>)
        requires
            dwarf is Some ==> spec_dwarf_wf(&dwarf->Some_0),
        ensures
            r is Ok ==> spec_resolver_wf(&r->Ok_0) && r->Ok_0.pid == pid && r->Ok_0.base_address
                == spec_base_of(maps@),
    {
        let mut resolver = SymbolResolver {
            pid,
            runtime_info,
            func_table: Vec::new(),
            string_table: Vec::new(),
            symbol_cache: Vec::new(),
            base_address: 0,
            kernel_symbols: Vec::new(),
            dwarf_parser: None,
            gopclntab: None,
        };
        resolver.load_kernel_symbols(kallsyms);
        match resolver.load_symbols(exe, maps, dwarf) {
            Ok(()) => Ok(resolver),
            Err(e) => Err(e),
        }
    }

    /// Loads the function-kind entries of the kernel symbol listing: one
    /// `address kind name` record per line.  Exactly the lines with at
    /// least three fields, a hexadecimal address and one of the four
    /// function kinds enter the table, a later line overriding an earlier
    /// one with the same address.
    pub fn load_kernel_symbols(&mut self, kallsyms: &str)
        ensures
            spec_sorted_syms(final(self).kernel_symbols@),
            forall|a: u64|
                #[trigger] spec_lookup_sym(final(self).kernel_symbols@, a) == spec_ksym_lookup(
                    spec_lines(kallsyms@),
                    a,
                ),
            final(self).pid == old(self).pid,
            final(self).runtime_info == old(self).runtime_info,
            final(self).func_table == old(self).func_table,
            final(self).string_table == old(self).string_table,
            final(self).symbol_cache == old(self).symbol_cache,
            final(self).base_address == old(self).base_address,
            final(self).dwarf_parser == old(self).dwarf_parser,
            final(self).gopclntab == old(self).gopclntab,
    {
        let chars = str_chars(kallsyms);
        let lines = split_lines_chars(&chars);
        let ghost lns = spec_lines(kallsyms@);
        self.kernel_symbols = Vec::new();
        let mut li: usize = 0;
        proof {
            assert(lns.take(0) =~= Seq::<Seq<char>>::empty());
            assert forall|a: u64| #[trigger] spec_lookup_sym(self.kernel_symbols@, a)
                == spec_ksym_lookup(lns.take(0), a) by {
                lemma_lookup_sym_none(self.kernel_symbols@, a);
            }
        }
        while li < lines.len()
            invariant
                lns == spec_lines(kallsyms@),
                spec_views(lines@) == lns,
                0 <= li <= lines@.len(),
                spec_sorted_syms(self.kernel_symbols@),
                forall|a: u64|
                    #[trigger] spec_lookup_sym(self.kernel_symbols@, a) == spec_ksym_lookup(
                        lns.take(li as int),
                        a,
                    ),
                self.pid == old(self).pid,
                self.runtime_info == old(self).runtime_info,
                self.func_table == old(self).func_table,
                self.string_table == old(self).string_table,
                self.symbol_cache == old(self).symbol_cache,
                self.base_address == old(self).base_address,
                self.dwarf_parser == old(self).dwarf_parser,
                self.gopclntab == old(self).gopclntab,
            decreases lines@.len() - li,
        {
            let ghost line = lns[li as int];
            let ghost pre = self.kernel_symbols@;
            proof {
                assert(lines@[li as int]@ == spec_views(lines@)[li as int]);
                assert(lns.take(li + 1) =~= lns.take(li as int).push(line));
            }
            let parts = split_whitespace_chars(&lines[li]);
            proof {
                assert(spec_views(parts@) == spec_fields(line));
            }
            let mut handled = false;
            if parts.len() >= 3 {
                if let Some(addr) = parse_hex(&parts[0]) {
                    let kind = &parts[1];
                    if kind.len() == 1 {
                        let k = kind[0];
                        if k == 'T' || k == 't' || k == 'W' || k == 'w' {
                            let name = chars_to_string(&parts[2]);
                            proof {
                                assert(parts@[0]@ == spec_fields(line)[0]);
                                assert(parts@[1]@ == spec_fields(line)[1]);
                                assert(parts@[2]@ == spec_fields(line)[2]);
                                assert(spec_ksym_line(line) == Some(
                                    (addr, spec_fields(line)[2]),
                                ));
                            }
                            upsert_sym(&mut self.kernel_symbols, addr, name);
                            handled = true;
                            proof {
                                assert forall|a: u64| #[trigger] spec_lookup_sym(
                                    self.kernel_symbols@,
                                    a,
                                ) == spec_ksym_lookup(lns.take(li + 1), a) by {
                                    lemma_ksym_snoc(lns.take(li as int), line, a);
                                    if a != addr {
                                        assert(spec_lookup_sym(self.kernel_symbols@, a)
                                            == spec_lookup_sym(pre, a));
                                    }
                                }
                            }
                        }
                    }
                }
            }
            if !handled {
                proof {
                    assert(spec_ksym_line(line) is None) by {
                        let fs = spec_fields(line);
                        assert(parts@.len() == fs.len());
                        if fs.len() >= 3 {
                            assert(parts@[0]@ == fs[0]);
                            assert(parts@[1]@ == fs[1]);
                        }
                    }
                    assert forall|a: u64| #[trigger] spec_lookup_sym(self.kernel_symbols@, a)
                        == spec_ksym_lookup(lns.take(li + 1), a) by {
                        lemma_ksym_snoc(lns.take(li as int), line, a);
                    }
                }
            }
            li = li + 1;
        }
        proof {
            assert(lns.take(lines@.len() as int) =~= lns);
        }
    }

    /// Resolves a kernel-space address: the entry with the greatest
    /// address not above it, if that entry lies within 64 KiB.
    pub fn resolve_kernel_symbol(&self, addr: u64) -> (r: Option<String>)
        requires
            spec_resolver_wf(self),
        ensures
            r is Some <==> spec_range_resolve(self.kernel_symbols@, addr, 0x10000) is Some,
            r is Some ==> r->Some_0@ == spec_range_resolve(
                self.kernel_symbols@,
                addr,
                0x10000,
            )->Some_0,
    {
        let ghost s = self.kernel_symbols@;
        match greatest_le(&self.kernel_symbols, addr) {
            Some(i) => {
                proof {
                    lemma_range_resolve_witness(s, addr, i as int, 0x10000);
                }
                let (base, name) = (self.kernel_symbols[i].0, &self.kernel_symbols[i].1);
                if addr - base < 0x10000 {
                    Some(name.clone())
                } else {
                    None
                }
            },
            None => {
                proof {
                    if exists|i: int| 0 <= i < s.len() && (#[trigger] s[i]).0 <= addr {
                        let i = choose|i: int| 0 <= i < s.len() && (#[trigger] s[i]).0 <= addr;
                        assert(s[0].0 <= s[i].0) by {
                            if 0 < i {
                                assert(s[0].0 < s[i].0);
                            }
                        }
                    }
                }
                None
            },
        }
    }

    /// Computes the load bias from the process mappings: the start of the
    /// first readable, executable mapping that names the target binary, or
    /// the documented default.
    pub fn load_process_maps(&mut self, maps: &Vec<MapRecord>)
        ensures
            final(self).base_address == spec_base_of(maps@),
            final(self).pid == old(self).pid,
            final(self).runtime_info == old(self).runtime_info,
            final(self).func_table == old(self).func_table,
            final(self).string_table == old(self).string_table,
            final(self).symbol_cache == old(self).symbol_cache,
            final(self).kernel_symbols == old(self).kernel_symbols,
            final(self).dwarf_parser == old(self).dwarf_parser,
            final(self).gopclntab == old(self).gopclntab,
    {
        let ghost ms = maps@;
        let mut i: usize = 0;
        proof {
            assert(ms.skip(0) =~= ms);
        }
        while i < maps.len()
            invariant
                ms == maps@,
                0 <= i <= ms.len(),
                spec_base_of(ms) == spec_base_of(ms.skip(i as int)),
                self == old(self),
            decreases ms.len() - i,
        {
            let m = &maps[i];
            proof {
                assert(ms.skip(i as int)[0] == ms[i as int]);
                assert(ms.skip(i as int).skip(1) =~= ms.skip(i + 1));
            }
            let named = crate::names::contains_str(m.path.as_str(), "test_program")
                || crate::names::contains_str(m.path.as_str(), "golang-profile");
            if m.readable && m.executable && named {
                self.base_address = m.start;
                return ;
            }
            i = i + 1;
        }
        proof {
            assert(ms.skip(i as int).len() == 0);
        }
        self.base_address = 0x400000;
    }
}

proof fn lemma_range_resolve_witness(s: Seq<(u64, String)>, a: u64, i: int, dist: u64)
    requires
        spec_sorted_syms(s),
        0 <= i < s.len(),
        s[i].0 <= a,
        i + 1 == s.len() || s[i + 1].0 > a,
    ensures
        spec_range_resolve(s, a, dist) == (if a - s[i].0 < dist {
            Some(s[i].1@)
        } else {
            None::<Seq<char>>
        }),
{
    assert(exists|k: int| 0 <= k < s.len() && (#[trigger] s[k]).0 <= a);
    let w = choose|k: int|
        0 <= k < s.len() && (#[trigger] s[k]).0 <= a && (k + 1 == s.len() || s[k + 1].0 > a);
    if w < i {
        assert(s[w + 1].0 <= s[i].0) by {
            if w + 1 < i {
                assert(s[w + 1].0 < s[i].0);
            }
        }
    } else if i < w {
        assert(s[i + 1].0 <= s[w].0) by {
            if i + 1 < w {
                assert(s[i + 1].0 < s[w].0);
            }
        }
    }
    assert(w == i);
}

/// The bytes of the string at `off`: up to the first null, or to the end
/// of the table when no null follows.
pub open spec fn spec_until_nul(d: Seq<u8>, off: int) -> Seq<u8>
    decreases d.len() - off,
{
    if off < 0 || off >= d.len() {
        Seq::empty()
    } else if d[off] == 0 {
        Seq::empty()
    } else {
        seq![d[off]] + spec_until_nul(d, off + 1)
    }
}

/// An unchanged table holds every record it held.
proof fn lemma_table_self_preserved(t: Seq<FuncInfo>)
    ensures
        t.to_multiset().subset_of(t.to_multiset()),
{
}

/// Inserts a record into an entry-sorted function table, unless an entry
/// with the same address is already present.
fn insert_func(v: &mut Vec<FuncInfo>, f: FuncInfo)
    requires
        spec_sorted_funcs(old(v)@),
    ensures
        spec_sorted_funcs(final(v)@),
        spec_distinct_funcs(old(v)@) ==> spec_distinct_funcs(final(v)@),
        spec_has_entry(final(v)@, f.entry),
        old(v)@.to_multiset().subset_of(final(v)@.to_multiset()),
{
    let ghost olds = v@;
    let mut i: usize = 0;
    while i < v.len() && v[i].entry < f.entry
        invariant
            0 <= i <= olds.len(),
            v@ == olds,
            forall|k: int| 0 <= k < i ==> (#[trigger] olds[k]).entry < f.entry,
        decreases olds.len() - i,
    {
        i = i + 1;
    }
    if i < v.len() && v[i].entry == f.entry {
        // Already present: the first source to claim an address keeps it.
        proof {
            assert(spec_has_entry(v@, f.entry)) by {
                assert(v@[i as int].entry == f.entry);
            }
        }
        return ;
    }
    proof {
        assert forall|k: int| i <= k < olds.len() implies (#[trigger] olds[k]).entry
            >= f.entry by {
            if k > i {
                assert(olds[i as int].entry <= olds[k].entry);
            }
        }
    }
    v.insert(i, f);
    proof {
        assert(forall|k: int| 0 <= k < i ==> v@[k] == olds[k]);
        assert(forall|k: int| i < k < v@.len() ==> v@[k] == olds[k - 1]);
        assert(v@[i as int] == f);
        assert(spec_sorted_funcs(v@));
        assert(spec_has_entry(v@, f.entry));
        if spec_distinct_funcs(olds) {
            assert(spec_distinct_funcs(v@)) by {
                // Every earlier record is strictly below the new entry, and
                // every later one strictly above (the equal case returned).
                assert forall|a: int, b: int|
                    0 <= a < b < v@.len() implies (#[trigger] v@[a]).entry != (
                #[trigger] v@[b]).entry by {
                    if a == i {
                        assert(v@[b] == olds[b - 1]);
                        assert(olds[b - 1].entry >= f.entry);
                        if olds[b - 1].entry == f.entry {
                            if i < olds.len() {
                                assert(olds[i as int].entry <= olds[b - 1].entry);
                            }
                        }
                    } else if b == i {
                        assert(v@[a] == olds[a]);
                        assert(olds[a].entry < f.entry);
                    }
                }
            }
        }
        assert(olds.to_multiset().subset_of(v@.to_multiset())) by {
            broadcast use vstd::seq_lib::to_multiset_insert;
            broadcast use vstd::multiset::group_multiset_axioms;

            assert(v@ == olds.insert(i as int, f));
            assert(v@.to_multiset() == olds.to_multiset().insert(f));
            assert forall|x: FuncInfo| #[trigger] olds.to_multiset().count(x)
                <= v@.to_multiset().count(x) by {
                vstd::multiset::lemma_insert_other_elements_unchanged(olds.to_multiset(), f, x);
                vstd::multiset::lemma_insert_increases_count_by_1(olds.to_multiset(), f);
            }
        }
    }
}

fn is_ascii_alpha(b: u8) -> (r: bool)
    ensures
        r == (65 <= b <= 90 || 97 <= b <= 122),
{
    (65 <= b && b <= 90) || (97 <= b && b <= 122)
}

/// Whether `data[from..to]` holds the needle anywhere.
fn range_has(data: &[u8], from: usize, to: usize, needle: &Vec<u8>) -> (r: bool)
    requires
        from <= to <= data@.len(),
{
    if needle.len() == 0 || to - from < needle.len() {
        return false;
    }
    let mut i: usize = from;
    while i <= to - needle.len()
        invariant
            from <= i,
            to <= data@.len(),
            needle@.len() >= 1,
            needle@.len() <= to - from,
        decreases to - needle@.len() - i + 1,
    {
        let mut j: usize = 0;
        let mut all = true;
        while j < needle.len()
            invariant
                from <= i,
                i + needle@.len() <= to <= data@.len(),
                0 <= j <= needle@.len(),
            decreases needle@.len() - j,
        {
            if data[i + j] != needle[j] {
                all = false;
                j = needle.len();
            } else {
                j = j + 1;
            }
        }
        if all {
            return true;
        }
        i = i + 1;
    }
    false
}

fn count_printable_bytes(v: u64) -> (r: u32)
    ensures
        r <= 8,
{
    let mut count: u32 = 0;
    let mut rest: u64 = v;
    let mut k: u32 = 0;
    while k < 8
        invariant
            0 <= k <= 8,
            count <= k,
        decreases 8 - k,
    {
        let b = rest % 256;
        if 32 <= b && b <= 126 {
            count = count + 1;
        }
        rest = rest / 256;
        k = k + 1;
    }
    count
}

impl SymbolResolver {
    /// Loads the symbol sources from the executable image, in the fixed
    /// priority order.
    pub fn load_symbols(
        &mut self,
        exe: &[u8],
        maps: &Vec<MapRecord>,
        dwarf: Option<DwarfParser>,
    ) -> (r: Result<(), String>)
        requires
            spec_sorted_syms(old(self).symbol_cache@),
            spec_sorted_syms(old(self).kernel_symbols@),
            spec_sorted_funcs(old(self).func_table@),
            spec_distinct_funcs(old(self).func_table@),
            dwarf is Some ==> spec_dwarf_wf(&dwarf->Some_0),
        ensures
            spec_sorted_syms(final(self).symbol_cache@),
            spec_sorted_funcs(final(self).func_table@),
            spec_distinct_funcs(final(self).func_table@),
            final(self).kernel_symbols == old(self).kernel_symbols,
            final(self).pid == old(self).pid,
            final(self).base_address == spec_base_of(maps@),
            final(self).dwarf_parser == dwarf,
            final(self).dwarf_parser is Some ==> spec_dwarf_wf(&final(self).dwarf_parser->Some_0),
            (dwarf is None && elf_section_of(exe@, ".gopclntab"@) is Some && spec_gopclntab_valid(
                elf_section_of(exe@, ".gopclntab"@)->Some_0,
            )) ==> r is Ok && final(self).gopclntab is Some && final(self).gopclntab->Some_0.data@
                == elf_section_of(exe@, ".gopclntab"@)->Some_0,
            (dwarf is None && elf_section_of(exe@, ".gopclntab"@) is None) ==> r is Ok && (forall|
                i: int,
            |
                0 <= i < elf_symbols_of(exe@).len() && (#[trigger] elf_symbols_of(exe@)[i]).3
                    ==> spec_lookup_sym(
                    final(self).symbol_cache@,
                    elf_symbols_of(exe@)[i].0,
                ) is Some),
    {
        self.load_process_maps(maps);
        let has_dwarf = dwarf.is_some();
        self.dwarf_parser = dwarf;
        if !has_dwarf {
            match elf_section_data(exe, ".gopclntab") {
                Some(data) => {
                    match self.parse_pclntab(data.as_slice()) {
                        Ok(()) => {},
                        Err(e) => {
                            return Err(e);
                        },
                    }
                },
                None => {
                    match self.load_symbols_fallback(exe) {
                        Ok(()) => {},
                        Err(e) => {
                            return Err(e);
                        },
                    }
                },
            }
        } else {
            match self.try_load_pclntab(exe) {
                Ok(()) => {},
                Err(e) => {
                    return Err(e);
                },
            }
        }
        Ok(())
    }

    /// Loads the flat function table from the image's text symbols and
    /// caches their names.
    pub fn load_symbols_fallback(&mut self, exe: &[u8]) -> (r: Result<(), String>)
        requires
            spec_sorted_syms(old(self).symbol_cache@),
            spec_sorted_funcs(old(self).func_table@),
            spec_distinct_funcs(old(self).func_table@),
        ensures
            r is Ok,
            spec_sorted_syms(final(self).symbol_cache@),
            spec_sorted_funcs(final(self).func_table@),
            spec_distinct_funcs(final(self).func_table@),
            final(self).kernel_symbols == old(self).kernel_symbols,
            final(self).pid == old(self).pid,
            final(self).base_address == old(self).base_address,
            final(self).dwarf_parser == old(self).dwarf_parser,
            final(self).gopclntab == old(self).gopclntab,
            final(self).string_table == old(self).string_table,
            forall|i: int|
                0 <= i < elf_symbols_of(exe@).len() && (#[trigger] elf_symbols_of(exe@)[i]).3
                    ==> spec_lookup_sym(final(self).symbol_cache@, elf_symbols_of(exe@)[i].0)
                    is Some,
    {
        let syms = elf_symbols(exe);
        let mut i: usize = 0;
        while i < syms.len()
            invariant
                spec_sorted_syms(self.symbol_cache@),
                spec_sorted_funcs(self.func_table@),
                spec_distinct_funcs(self.func_table@),
                self.kernel_symbols == old(self).kernel_symbols,
                self.pid == old(self).pid,
                self.base_address == old(self).base_address,
                self.dwarf_parser == old(self).dwarf_parser,
                self.gopclntab == old(self).gopclntab,
                self.string_table == old(self).string_table,
                self.runtime_info == old(self).runtime_info,
                0 <= i <= syms@.len(),
                syms@.len() == elf_symbols_of(exe@).len(),
                forall|k: int|
                    0 <= k < syms@.len() ==> (#[trigger] syms@[k]).0 == elf_symbols_of(exe@)[k].0
                        && syms@[k].3 == elf_symbols_of(exe@)[k].3,
                forall|k: int|
                    0 <= k < i && (#[trigger] elf_symbols_of(exe@)[k]).3 ==> spec_lookup_sym(
                        self.symbol_cache@,
                        elf_symbols_of(exe@)[k].0,
                    ) is Some,
            decreases syms@.len() - i,
        {
            if syms[i].3 {
                let addr = syms[i].0;
                let name = syms[i].2.clone();
                // A name offset of one marks an entry whose name lives in
                // the cache rather than the string table.
                insert_func(
                    &mut self.func_table,
                    FuncInfo { entry: addr, name_off: 1, file_off: 0, line: 0 },
                );
                upsert_sym(&mut self.symbol_cache, addr, name);
                proof {
                    assert forall|k: int|
                        0 <= k < i + 1 && (#[trigger] elf_symbols_of(exe@)[k]).3 implies
                        spec_lookup_sym(self.symbol_cache@, elf_symbols_of(exe@)[k].0)
                        is Some by {
                        if elf_symbols_of(exe@)[k].0 != addr {
                            assert(spec_lookup_sym(self.symbol_cache@, elf_symbols_of(exe@)[k].0)
                                is Some);
                        }
                    }
                }
            }
            i = i + 1;
        }
        Ok(())
    }

    /// Parses a function-table section found alongside debug information.
    pub fn try_load_pclntab(&mut self, exe: &[u8]) -> (r: Result<(), String>)
        requires
            spec_sorted_syms(old(self).symbol_cache@),
            spec_sorted_funcs(old(self).func_table@),
            spec_distinct_funcs(old(self).func_table@),
        ensures
            spec_sorted_syms(final(self).symbol_cache@),
            spec_sorted_funcs(final(self).func_table@),
            spec_distinct_funcs(final(self).func_table@),
            final(self).kernel_symbols == old(self).kernel_symbols,
            final(self).pid == old(self).pid,
            final(self).base_address == old(self).base_address,
            final(self).dwarf_parser == old(self).dwarf_parser,
    {
        match elf_section_data(exe, ".gopclntab") {
            Some(data) => self.parse_pclntab(data.as_slice()),
            None => Ok(()),
        }
    }

    /// Parses a function-table section: the current layout parser first,
    /// the legacy heuristic on its failure.
    pub fn parse_pclntab(&mut self, data: &[u8]) -> (r: Result<(), String>)
        requires
            spec_sorted_syms(old(self).symbol_cache@),
            spec_sorted_funcs(old(self).func_table@),
            spec_distinct_funcs(old(self).func_table@),
        ensures
            spec_sorted_syms(final(self).symbol_cache@),
            spec_sorted_funcs(final(self).func_table@),
            spec_distinct_funcs(final(self).func_table@),
            final(self).kernel_symbols == old(self).kernel_symbols,
            final(self).pid == old(self).pid,
            final(self).base_address == old(self).base_address,
            final(self).dwarf_parser == old(self).dwarf_parser,
            r is Ok <==> data@.len() >= 16,
            r is Err ==> *final(self) == *old(self),
            spec_gopclntab_valid(data@) ==> final(self).gopclntab is Some
                && final(self).gopclntab->Some_0.data@ == data@,
    {
        if data.len() < 16 {
            return Err("function table section is too small".to_owned());
        }
        match self.parse_pclntab_enhanced(data) {
            Ok(()) => Ok(()),
            Err(_) => self.parse_pclntab_legacy(data),
        }
    }

    /// Parses a section with the layout-aware parser and keeps the result
    /// for direct symbolization.
    pub fn parse_pclntab_enhanced(&mut self, data: &[u8]) -> (r: Result<(), String>)
        ensures
            r is Ok <==> spec_gopclntab_valid(data@),
            r is Ok ==> final(self).gopclntab is Some && final(self).gopclntab->Some_0.data@
                == data@ && crate::pclntab::spec_consistent(&final(self).gopclntab->Some_0),
            r is Err ==> *final(self) == *old(self),
            final(self).symbol_cache == old(self).symbol_cache,
            final(self).func_table == old(self).func_table,
            final(self).kernel_symbols == old(self).kernel_symbols,
            final(self).pid == old(self).pid,
            final(self).base_address == old(self).base_address,
            final(self).dwarf_parser == old(self).dwarf_parser,
            final(self).string_table == old(self).string_table,
    {
        let copy = crate::pclntab::tail_vec(data, 0);
        proof {
            assert(data@.skip(0) =~= data@);
        }
        match Gopclntab::new(copy) {
            Ok(g) => {
                self.gopclntab = Some(g);
                Ok(())
            },
            Err(e) => Err(e),
        }
    }

    /// The legacy heuristic parser for function-table sections whose
    /// layout-aware parse failed: walks what looks like a lookup table,
    /// guesses where the string table begins, and fills the flat table.
    /// Entries that do not look plausible are skipped, never fatal.
    pub fn parse_pclntab_legacy(&mut self, data: &[u8]) -> (r: Result<(), String>)
        requires
            spec_sorted_syms(old(self).symbol_cache@),
            spec_sorted_funcs(old(self).func_table@),
            spec_distinct_funcs(old(self).func_table@),
        ensures
            spec_sorted_syms(final(self).symbol_cache@),
            spec_sorted_funcs(final(self).func_table@),
            spec_distinct_funcs(final(self).func_table@),
            final(self).kernel_symbols == old(self).kernel_symbols,
            final(self).pid == old(self).pid,
            final(self).base_address == old(self).base_address,
            final(self).dwarf_parser == old(self).dwarf_parser,
            final(self).gopclntab == old(self).gopclntab,
            r is Ok <==> data@.len() >= 12,
            r is Err ==> *final(self) == *old(self),
            old(self).func_table@.to_multiset().subset_of(final(self).func_table@.to_multiset()),
    {
        let n: usize = data.len();
        if n < 12 {
            proof {
                lemma_table_self_preserved(self.func_table@);
            }
            return Err("function table header is incomplete".to_owned());
        }
        let magic = crate::pclntab::read_u32_le(data, 0).unwrap();
        if magic != 0xfffffffb && magic != 0xfffffff1 && magic != 0xfffffff0 {
            // Unknown magic: skip the section rather than fail.
            proof {
                lemma_table_self_preserved(self.func_table@);
            }
            return Ok(());
        }
        let mut ptrsize: usize = data[6] as usize;
        if magic == 0xfffffff1 && n >= 16 {
            // In this layout the count is pointer-sized; a plausible count
            // word here means 64-bit entries.
            let probe = crate::pclntab::read_u32_le(data, 8).unwrap();
            if probe > 0 && probe < 100000 {
                ptrsize = 8;
            }
        }
        if ptrsize != 4 && ptrsize != 8 {
            proof {
                lemma_table_self_preserved(self.func_table@);
            }
            return Ok(());
        }
        let nfunctab = crate::pclntab::read_u32_le(data, 8).unwrap() as usize;
        let functab_start = 8 + ptrsize;
        let mut offset = functab_start;
        let mut func_entries: Vec<(u64, u64)> = Vec::new();
        let mut consecutive_invalid: u32 = 0;
        let limit: usize = if nfunctab < 1000 {
            nfunctab
        } else {
            1000
        };
        let mut idx: usize = 0;
        while idx < limit
            invariant_except_break
                func_entries@.len() <= idx,
                consecutive_invalid <= 3,
            invariant
                n == data@.len(),
                ptrsize == 4 || ptrsize == 8,
                0 <= idx <= limit <= 1000,
                func_entries@.len() <= 1000,
            decreases limit - idx,
        {
            if offset > n || n - offset < ptrsize * 2 {
                break ;
            }
            let entry: u64 = if ptrsize == 8 {
                crate::pclntab::read_u64_le(data, offset).unwrap()
            } else {
                crate::pclntab::read_u32_le(data, offset).unwrap() as u64
            };
            let offset2 = offset + ptrsize;
            let funcoff: u64 = if ptrsize == 8 {
                crate::pclntab::read_u64_le(data, offset2).unwrap()
            } else {
                crate::pclntab::read_u32_le(data, offset2).unwrap() as u64
            };
            offset = offset2 + ptrsize;
            // Entries whose bytes read as printable text mark the start of
            // string data; stop there.
            if count_printable_bytes(entry) >= 6 {
                break ;
            }
            if entry > 0 && entry < 0x10000000 {
                let absolute = entry.wrapping_add(self.base_address);
                func_entries.push((absolute, funcoff));
                consecutive_invalid = 0;
            } else {
                consecutive_invalid = consecutive_invalid + 1;
                if consecutive_invalid >= 3 {
                    break ;
                }
            }
            idx = idx + 1;
        }
        let functab_end = functab_start + func_entries.len() * ptrsize * 2;
        let mut sts: usize = functab_end;
        if magic == 0xfffffff1 {
            let alt = n / 10;
            if alt > sts {
                sts = alt;
            }
        }
        let needle_main: Vec<u8> = vec![109u8, 97, 105, 110];
        let needle_runtime: Vec<u8> = vec![114u8, 117, 110, 116, 105, 109, 101];
        let needle_internal: Vec<u8> = vec![105u8, 110, 116, 101, 114, 110, 97, 108];
        let needle_dot: Vec<u8> = vec![46u8];
        let needle_slash: Vec<u8> = vec![47u8];
        while sts < n - 10
            invariant
                n == data@.len(),
                n >= 12,
            decreases n - 10 - sts,
        {
            let b = data[sts];
            if b != 0 && is_ascii_alpha(b) {
                let mut end: usize = sts;
                while end < n && data[end] != 0
                    invariant
                        n == data@.len(),
                        sts <= end <= n,
                    decreases n - end,
                {
                    end = end + 1;
                }
                if end > sts && end - sts > 3 {
                    if range_has(data, sts, end, &needle_main) || range_has(
                        data,
                        sts,
                        end,
                        &needle_runtime,
                    ) || range_has(data, sts, end, &needle_internal) || range_has(
                        data,
                        sts,
                        end,
                        &needle_dot,
                    ) || range_has(data, sts, end, &needle_slash) {
                        break ;
                    }
                }
            }
            sts = sts + 1;
        }
        if sts < n {
            self.string_table = crate::pclntab::tail_vec(data, sts);
        }
        proof {
            lemma_table_self_preserved(self.func_table@);
        }
        let mut j: usize = 0;
        while j < func_entries.len()
            invariant
                n == data@.len(),
                n >= 12,
                spec_sorted_syms(self.symbol_cache@),
                spec_sorted_funcs(self.func_table@),
                spec_distinct_funcs(self.func_table@),
                self.kernel_symbols == old(self).kernel_symbols,
                self.pid == old(self).pid,
                self.base_address == old(self).base_address,
                self.dwarf_parser == old(self).dwarf_parser,
                self.gopclntab == old(self).gopclntab,
                self.symbol_cache == old(self).symbol_cache,
                old(self).func_table@.to_multiset().subset_of(self.func_table@.to_multiset()),
            decreases func_entries@.len() - j,
        {
            let (entry, funcoff) = func_entries[j];
            let name_off: u32 = if funcoff > 0 {
                // The record offset may be section-relative already, or an
                // absolute address in the usual load range.
                let rel: u64 = if funcoff < n as u64 {
                    funcoff
                } else if funcoff > 0x400000 && funcoff < 0x500000 {
                    funcoff - 0x400000
                } else {
                    funcoff
                };
                if rel < u64::MAX - 4 && rel + 4 < n as u64 {
                    crate::pclntab::read_u32_le(data, rel as usize).unwrap()
                } else {
                    0
                }
            } else {
                0
            };
            let ghost pre_table = self.func_table@;
            insert_func(
                &mut self.func_table,
                FuncInfo { entry, name_off, file_off: 0, line: 0 },
            );
            proof {
                // Record preservation chains through the insertion.
                assert forall|x: FuncInfo| #[trigger] old(self).func_table@.to_multiset().count(x)
                    <= self.func_table@.to_multiset().count(x) by {
                    assert(old(self).func_table@.to_multiset().count(x)
                        <= pre_table.to_multiset().count(x));
                    assert(pre_table.to_multiset().count(x)
                        <= self.func_table@.to_multiset().count(x));
                }
            }
            j = j + 1;
        }
        Ok(())
    }
}

/// The entry a range query lands on: the entry with the greatest address
/// not above `a`, with its address, when it lies within `dist`.
pub open spec fn spec_range_entry(s: Seq<(u64, String)>, a: u64, dist: u64) -> Option<
    (u64, Seq<char>),
> {
    if exists|i: int| 0 <= i < s.len() && (#[trigger] s[i]).0 <= a {
        let i = choose|i: int|
            0 <= i < s.len() && (#[trigger] s[i]).0 <= a && (i + 1 == s.len() || s[i + 1].0 > a);
        if a - s[i].0 < dist {
            Some((s[i].0, s[i].1@))
        } else {
            None
        }
    } else {
        None
    }
}

/// The flat-table record a PC lands on: the entry with the greatest start
/// address not above the PC, when the PC lies within the 64 KiB a function
/// never exceeds by convention.
pub open spec fn spec_find_func(t: Seq<FuncInfo>, pc: u64) -> Option<FuncInfo> {
    if exists|i: int| 0 <= i < t.len() && (#[trigger] t[i]).entry <= pc {
        let i = choose|i: int|
            0 <= i < t.len() && (#[trigger] t[i]).entry <= pc && (i + 1 == t.len() || pc < t[i
                + 1].entry);
        if pc < t[i].entry + 0x10000 {
            Some(t[i])
        } else {
            None
        }
    } else {
        None
    }
}

/// The name the flat tables hold for a record: the cached one when the
/// record marks its name as cached, else the string-table entry at its
/// name offset.  Reads seven-bit tables exactly.
pub open spec fn spec_name_of(r: &SymbolResolver, f: FuncInfo) -> Option<Seq<char>> {
    if f.name_off == 1 && spec_lookup_sym(r.symbol_cache@, f.entry) is Some {
        Some(spec_lookup_sym(r.symbol_cache@, f.entry)->Some_0)
    } else if f.name_off as int >= r.string_table@.len() {
        None
    } else {
        let b = spec_until_nul(r.string_table@, f.name_off as int);
        if b.len() == 0 {
            None
        } else {
            Some(spec_bytes_as_chars(b))
        }
    }
}

/// The file path the string table holds for a record; an offset of zero
/// marks no file.
pub open spec fn spec_file_of(r: &SymbolResolver, f: FuncInfo) -> Option<Seq<char>> {
    if f.file_off == 0 {
        None
    } else if f.file_off as int >= r.string_table@.len() {
        None
    } else {
        let b = spec_until_nul(r.string_table@, f.file_off as int);
        if b.len() == 0 {
            None
        } else {
            Some(spec_bytes_as_chars(b))
        }
    }
}

/// The full symbol string for a record: the cleaned name, with the file
/// and line appended where known.
pub open spec fn spec_complete_of(r: &SymbolResolver, f: FuncInfo, pc: u64) -> Option<Seq<char>> {
    match spec_name_of(r, f) {
        None => None,
        Some(nm) => {
            let cleaned = spec_clean_full(nm);
            match spec_file_of(r, f) {
                Some(fl) => if f.line > 0 {
                    Some(cleaned + " "@ + fl + ":"@ + spec_dec(f.line as u64))
                } else {
                    Some(cleaned + " "@ + fl)
                },
                None => Some(cleaned),
            }
        },
    }
}

/// The symbol string the debug-line leg renders for a located record with
/// a known function name: the name, with `file:line` appended when both
/// are known.
pub open spec fn spec_dwarf_sym(loc: SourceLocation) -> Seq<char> {
    let nm = loc.function_name->Some_0@;
    if loc.file_path@.len() > 0 && loc.line > 0 {
        nm + " "@ + loc.file_path@ + ":"@ + spec_dec(loc.line as u64)
    } else {
        nm
    }
}

/// The symbol the debug-line leg renders when the back-fill never named
/// the location: the flat tables' name where they have one, else a
/// placeholder from the file name, with ` file:line` appended when both
/// are known.
pub open spec fn spec_dwarf_merge_sym(r: &SymbolResolver, loc: SourceLocation, pc: u64) -> Seq<
    char,
> {
    let nm = match spec_flat_name(r, pc) {
        Some(n) => n,
        None => if "main.go"@.len() <= loc.file_path@.len() && loc.file_path@.subrange(
            loc.file_path@.len() - "main.go"@.len(),
            loc.file_path@.len() as int,
        ) == "main.go"@ {
            "main.func"@
        } else {
            "<anonymous_function>"@
        },
    };
    if loc.file_path@.len() > 0 && loc.line > 0 {
        nm + " "@ + loc.file_path@ + ":"@ + spec_dec(loc.line as u64)
    } else {
        nm
    }
}

/// Where the flat resolver ends up when no table claims the PC: the
/// nearest cached symbol within a page, else the bracketed address.
pub open spec fn spec_fallthrough(r: &SymbolResolver, pc: u64) -> Seq<char> {
    match spec_range_entry(r.symbol_cache@, pc, 4096) {
        Some((addr, nm)) => spec_clean_full(nm) + " +0x"@ + spec_hex((pc - addr) as u64),
        None => "[unknown:0x"@ + spec_hex(pc) + "]"@,
    }
}

/// What the resolver returns for a user-space PC when only the flat
/// tables are loaded: the cached name for the exact PC, else the flat
/// record's symbol, else the fall-through.
pub open spec fn spec_resolve_flat(r: &SymbolResolver, pc: u64) -> Seq<char> {
    match spec_lookup_sym(r.symbol_cache@, pc) {
        Some(n) => spec_clean_full(n),
        None => match spec_find_func(r.func_table@, pc) {
            Some(f) => match spec_lookup_sym(r.symbol_cache@, f.entry) {
                Some(n) => spec_clean_full(n),
                None => match spec_complete_of(r, f, pc) {
                    Some(sym) => sym,
                    None => spec_fallthrough(r, pc),
                },
            },
            None => spec_fallthrough(r, pc),
        },
    }
}

/// The symbol the in-binary-table leg renders for the entry covering a
/// PC: the cleaned function name, with ` file:line` appended when the
/// lanes gave both.
pub open spec fn spec_table_sym(g: &Gopclntab, i: int, pc: int) -> Seq<char> {
    let nm = crate::names::spec_clean_full(crate::pclntab::spec_symbolize_name(g, i));
    let f = crate::pclntab::spec_symbolize_file(g, i, pc)->Some_0;
    let l = crate::pclntab::spec_symbolize_line(g, i, pc)->Some_0;
    if f.len() > 0 && l > 0 {
        nm + " "@ + f + ":"@ + spec_dec(l as u64)
    } else {
        nm
    }
}

/// The cleaned name the flat tables give a PC, if any: the cached name at
/// the record's entry, else the record's string-table name.
pub open spec fn spec_flat_name(r: &SymbolResolver, pc: u64) -> Option<Seq<char>> {
    match spec_find_func(r.func_table@, pc) {
        Some(f) => match spec_lookup_sym(r.symbol_cache@, f.entry) {
            Some(n) => Some(spec_clean_full(n)),
            None => match spec_name_of(r, f) {
                Some(nm) => Some(spec_clean_full(nm)),
                None => None,
            },
        },
        None => None,
    }
}

proof fn lemma_range_entry_witness(s: Seq<(u64, String)>, a: u64, i: int, dist: u64)
    requires
        spec_sorted_syms(s),
        0 <= i < s.len(),
        s[i].0 <= a,
        i + 1 == s.len() || s[i + 1].0 > a,
    ensures
        spec_range_entry(s, a, dist) == (if a - s[i].0 < dist {
            Some((s[i].0, s[i].1@))
        } else {
            None::<(u64, Seq<char>)>
        }),
{
    assert(exists|k: int| 0 <= k < s.len() && (#[trigger] s[k]).0 <= a);
    let w = choose|k: int|
        0 <= k < s.len() && (#[trigger] s[k]).0 <= a && (k + 1 == s.len() || s[k + 1].0 > a);
    if w < i {
        assert(s[w + 1].0 <= s[i].0) by {
            if w + 1 < i {
                assert(s[w + 1].0 < s[i].0);
            }
        }
    } else if i < w {
        assert(s[i + 1].0 <= s[w].0) by {
            if i + 1 < w {
                assert(s[i + 1].0 < s[w].0);
            }
        }
    }
    assert(w == i);
}

proof fn lemma_find_func_witness(t: Seq<FuncInfo>, pc: u64, i: int)
    requires
        spec_sorted_funcs(t),
        0 <= i < t.len(),
        t[i].entry <= pc,
        i + 1 == t.len() || pc < t[i + 1].entry,
    ensures
        spec_find_func(t, pc) == (if pc < t[i].entry + 0x10000 {
            Some(t[i])
        } else {
            None::<FuncInfo>
        }),
{
    assert(exists|k: int| 0 <= k < t.len() && (#[trigger] t[k]).entry <= pc);
    let w = choose|k: int|
        0 <= k < t.len() && (#[trigger] t[k]).entry <= pc && (k + 1 == t.len() || pc < t[k
            + 1].entry);
    if w < i {
        assert(t[w + 1].entry <= t[i].entry) by {
            if w + 1 < i {
                assert(t[w + 1].entry <= t[i].entry);
            }
        }
    } else if i < w {
        assert(t[i + 1].entry <= t[w].entry) by {
            if i + 1 < w {
                assert(t[i + 1].entry <= t[w].entry);
            }
        }
    }
    assert(w == i || t[w] == t[i]) by {
        if w != i {
            assert(t[w].entry <= pc && t[i].entry <= pc);
        }
    }
}

proof fn lemma_until_nul_range(d: Seq<u8>, off: int, end: int)
    requires
        0 <= off <= end <= d.len(),
        forall|k: int| off <= k < end ==> d[k] != 0,
        end == d.len() || d[end] == 0,
    ensures
        spec_until_nul(d, off) == d.subrange(off, end),
    decreases end - off,
{
    if off == end {
        assert(spec_until_nul(d, off) =~= d.subrange(off, end));
    } else {
        lemma_until_nul_range(d, off + 1, end);
        assert(spec_until_nul(d, off) == seq![d[off]] + spec_until_nul(d, off + 1));
        assert(seq![d[off]] + d.subrange(off + 1, end) =~= d.subrange(off, end));
    }
}

impl SymbolResolver {
    /// Binary-searches the flat table for the record whose half-open range
    /// would cover `pc`, capping a function's extent at 64 KiB.
    pub fn find_function_by_pc(&self, pc: u64) -> (r: Option<FuncInfo>)
        requires
            spec_resolver_wf(self),
        ensures
            r == spec_find_func(self.func_table@, pc),
    {
        let ghost t = self.func_table@;
        let mut left: usize = 0;
        let mut right: usize = self.func_table.len();
        while left < right
            invariant
                t == self.func_table@,
                spec_sorted_funcs(t),
                0 <= left <= right <= t.len(),
                forall|k: int| 0 <= k < left ==> (#[trigger] t[k]).entry <= pc,
                forall|k: int| right <= k < t.len() ==> (#[trigger] t[k]).entry > pc,
            decreases right - left,
        {
            let mid = left + (right - left) / 2;
            if self.func_table[mid].entry <= pc {
                left = mid + 1;
                proof {
                    assert forall|k: int| 0 <= k < left implies (#[trigger] t[k]).entry <= pc by {
                        if k < mid as int {
                            assert(t[k].entry <= t[mid as int].entry);
                        }
                    }
                }
            } else {
                right = mid;
            }
        }
        if left == 0 {
            proof {
                if exists|k: int| 0 <= k < t.len() && (#[trigger] t[k]).entry <= pc {
                    let k = choose|k: int| 0 <= k < t.len() && (#[trigger] t[k]).entry <= pc;
                    assert(t[k].entry > pc);
                }
            }
            return None;
        }
        let i = left - 1;
        proof {
            lemma_find_func_witness(t, pc, i as int);
        }
        let f = self.func_table[i];
        if pc - f.entry < 0x10000 {
            Some(f)
        } else {
            None
        }
    }

    /// The function name of a flat-table record: the cached name when the
    /// record marks one, else the string-table entry at its name offset.
    pub fn get_function_name(&self, func_info: &FuncInfo) -> (r: Option<String>)
        requires
            spec_sorted_syms(self.symbol_cache@),
        ensures
            spec_ascii_bytes(self.string_table@) ==> {
                &&& (r is Some <==> spec_name_of(self, *func_info) is Some)
                &&& (r is Some ==> r->Some_0@ == spec_name_of(self, *func_info)->Some_0)
            },
    {
        if func_info.name_off == 1 {
            if let Some(n) = lookup_sym(&self.symbol_cache, func_info.entry) {
                return Some(n.clone());
            }
        }
        let off = func_info.name_off as usize;
        self.string_at(off)
    }

    /// The file path of a flat-table record; a zero offset marks none.
    pub fn get_file_path(&self, func_info: &FuncInfo) -> (r: Option<String>)
        ensures
            spec_ascii_bytes(self.string_table@) ==> {
                &&& (r is Some <==> spec_file_of(self, *func_info) is Some)
                &&& (r is Some ==> r->Some_0@ == spec_file_of(self, *func_info)->Some_0)
            },
    {
        if func_info.file_off == 0 {
            return None;
        }
        self.string_at(func_info.file_off as usize)
    }

    /// Reads the string at `off` in the string table, up to its null
    /// terminator or the table's end; empty strings read as absent.
    fn string_at(&self, off: usize) -> (r: Option<String>)
        ensures
            (off as int) >= self.string_table@.len() ==> r is None,
            (off as int) < self.string_table@.len() ==> {
                let b = spec_until_nul(self.string_table@, off as int);
                &&& (b.len() == 0 ==> r is None)
                &&& (r is Some ==> r->Some_0@ == utf8_of(b))
                &&& (spec_ascii_bytes(self.string_table@) ==> (r is Some <==> b.len() > 0) && (r
                    is Some ==> r->Some_0@ == spec_bytes_as_chars(b)))
            },
    {
        let ghost st = self.string_table@;
        let n = self.string_table.len();
        if off >= n {
            return None;
        }
        let mut end: usize = off;
        while end < n && self.string_table[end] != 0
            invariant
                st == self.string_table@,
                n == st.len(),
                off <= end <= n,
                forall|k: int| off <= k < end ==> st[k] != 0,
            decreases n - end,
        {
            end = end + 1;
        }
        proof {
            lemma_until_nul_range(st, off as int, end as int);
        }
        if end > off {
            let mut bytes: Vec<u8> = Vec::new();
            let mut i: usize = off;
            while i < end
                invariant
                    st == self.string_table@,
                    off <= i <= end <= st.len(),
                    bytes@ =~= st.subrange(off as int, i as int),
                decreases end - i,
            {
                bytes.push(self.string_table[i]);
                proof {
                    assert(bytes@ =~= st.subrange(off as int, i + 1));
                }
                i = i + 1;
            }
            proof {
                assert(bytes@ == spec_until_nul(st, off as int));
                if spec_ascii_bytes(st) {
                    assert(spec_ascii_bytes(bytes@)) by {
                        assert forall|k: int| 0 <= k < bytes@.len() implies bytes@[k] < 128 by {
                            assert(bytes@[k] == st[off + k]);
                        }
                    }
                }
            }
            string_from_utf8(bytes)
        } else {
            None
        }
    }

    /// The line number recorded for a flat-table record; the table keeps
    /// only the record's base line.
    pub fn get_line_number(&self, func_info: &FuncInfo, _pc: u64) -> (r: Option<u32>)
        ensures
            r == (if func_info.line > 0 {
                Some(func_info.line)
            } else {
                None::<u32>
            }),
    {
        if func_info.line > 0 {
            Some(func_info.line)
        } else {
            None
        }
    }

    /// The full symbol string for a record: cleaned name, with file and
    /// line appended where known; absent when the record has no name.
    pub fn get_complete_function_info(&self, func_info: &FuncInfo, pc: u64) -> (r: Option<String>)
        requires
            spec_sorted_syms(self.symbol_cache@),
        ensures
            spec_ascii_bytes(self.string_table@) ==> {
                &&& (r is Some <==> spec_complete_of(self, *func_info, pc) is Some)
                &&& (r is Some ==> r->Some_0@ == spec_complete_of(self, *func_info, pc)->Some_0)
            },
    {
        let name = match self.get_function_name(func_info) {
            Some(n) => n,
            None => {
                return None;
            },
        };
        let cleaned = clean_go_function_name(name.as_str());
        let file = self.get_file_path(func_info);
        let line = self.get_line_number(func_info, pc);
        match (file, line) {
            (Some(fl), Some(l)) => {
                let mut out = cleaned;
                out.append(" ");
                out.append(fl.as_str());
                out.append(":");
                let ls = dec_string(l as u64);
                out.append(ls.as_str());
                Some(out)
            },
            (Some(fl), None) => {
                let mut out = cleaned;
                out.append(" ");
                out.append(fl.as_str());
                Some(out)
            },
            _ => Some(cleaned),
        }
    }

    /// Resolves a program counter to a symbol string.  Kernel-space PCs
    /// are resolved against the kernel symbol listing alone: its name on
    /// a hit, the bracketed address on a miss.  User-space resolution
    /// runs the fixed source priority: debug lines, the in-binary table,
    /// the flat tables, the bracketed address.  With only the flat tables
    /// loaded the result is exactly `spec_resolve_flat`, which reads
    /// nothing of the kernel listing.
    pub fn resolve_pc(&self, pc: u64) -> (r: String)
        requires
            spec_resolver_wf(self),
        ensures
            pc >= KERNEL_ADDR_BASE ==> r@ == (match spec_range_resolve(
                self.kernel_symbols@,
                pc,
                0x10000,
            ) {
                Some(n) => n,
                None => "[unknown:0x"@ + spec_hex(pc) + "]"@,
            }),
            (pc < KERNEL_ADDR_BASE && self.dwarf_parser is None && self.gopclntab is None
                && spec_ascii_bytes(self.string_table@)) ==> r@ == spec_resolve_flat(self, pc),
            ((pc < KERNEL_ADDR_BASE && self.dwarf_parser is Some) ==> {
                let near = spec_nearest_loc(self.dwarf_parser->Some_0.address_to_location@, pc);
                (near is Some && near->Some_0.function_name is Some) ==> r@ == spec_dwarf_sym(
                    near->Some_0,
                )
            }),
            ((pc < KERNEL_ADDR_BASE && self.dwarf_parser is Some && self.gopclntab is None
                && spec_ascii_bytes(self.string_table@)) ==> {
                let near = spec_nearest_loc(self.dwarf_parser->Some_0.address_to_location@, pc);
                (near is Some && near->Some_0.function_name is None) ==> r@
                    == spec_dwarf_merge_sym(self, near->Some_0, pc)
            }),
            ((pc < KERNEL_ADDR_BASE && (self.dwarf_parser is None || spec_nearest_loc(
                self.dwarf_parser->Some_0.address_to_location@,
                pc,
            ) is None) && self.gopclntab is Some && crate::pclntab::spec_consistent(
                &self.gopclntab->Some_0,
            ) && crate::pclntab::spec_wf_functab(&self.gopclntab->Some_0) && pc
                <= usize::MAX as u64) ==> {
                let g = &self.gopclntab->Some_0;
                &&& (forall|i: int|
                    #[trigger] crate::pclntab::spec_symbolize_covers(g, i, pc as int)
                        && crate::pclntab::spec_symbolize_name(g, i).len() > 0
                        && crate::pclntab::spec_symbolize_file(g, i, pc as int) is Some
                        && crate::pclntab::spec_symbolize_line(g, i, pc as int) is Some ==> r@
                        == spec_table_sym(g, i, pc as int))
                &&& (spec_ascii_bytes(self.string_table@) ==> {
                    &&& ((g.num_funcs == 0 || (pc as int) < crate::pclntab::spec_map_pc(g, 0))
                        ==> r@ == spec_resolve_flat(self, pc))
                    &&& (forall|i: int|
                        0 <= i < g.num_funcs && #[trigger] crate::pclntab::spec_map_pc(g, i)
                            <= pc && (i + 1 == g.num_funcs || pc < crate::pclntab::spec_map_pc(
                            g,
                            i + 1,
                        )) && pc >= crate::pclntab::spec_map_pc(g, i) + 0x10000 ==> r@
                            == spec_resolve_flat(self, pc))
                    &&& (forall|i: int|
                        #[trigger] crate::pclntab::spec_symbolize_covers(g, i, pc as int)
                            && crate::pclntab::spec_symbolize_name(g, i).len() == 0 ==> r@
                            == spec_resolve_flat(self, pc))
                })
            }),
    {
        if pc >= KERNEL_ADDR_BASE {
            if let Some(kernel_symbol) = self.resolve_kernel_symbol(pc) {
                return kernel_symbol;
            }
            let mut out = "[unknown:0x".to_owned();
            let hs = hex_string(pc);
            out.append(hs.as_str());
            out.append("]");
            return out;
        }
        if self.dwarf_parser.is_some() {
            if let Some(sym) = self.resolve_dwarf_pc(pc) {
                return sym;
            }
        }
        if self.gopclntab.is_some() {
            if let Some(sym) = self.resolve_table_pc(pc) {
                return sym;
            }
        }
        if let Some(name) = lookup_sym(&self.symbol_cache, pc) {
            return clean_go_function_name(name.as_str());
        }
        if let Some(func_info) = self.find_function_by_pc(pc) {
            if let Some(cached) = lookup_sym(&self.symbol_cache, func_info.entry) {
                return clean_go_function_name(cached.as_str());
            }
            if let Some(symbol_info) = self.get_complete_function_info(&func_info, pc) {
                return symbol_info;
            }
        }
        let ghost s = self.symbol_cache@;
        match greatest_le(&self.symbol_cache, pc) {
            Some(i) => {
                proof {
                    lemma_range_entry_witness(s, pc, i as int, 4096);
                }
                let (addr, nm) = (self.symbol_cache[i].0, &self.symbol_cache[i].1);
                if pc - addr < 4096 {
                    let mut out = clean_go_function_name(nm.as_str());
                    out.append(" +0x");
                    let hs = hex_string(pc - addr);
                    out.append(hs.as_str());
                    return out;
                }
            },
            None => {
                proof {
                    if exists|i: int| 0 <= i < s.len() && (#[trigger] s[i]).0 <= pc {
                        let i = choose|i: int| 0 <= i < s.len() && (#[trigger] s[i]).0 <= pc;
                        assert(s[0].0 <= s[i].0) by {
                            if 0 < i {
                                assert(s[0].0 < s[i].0);
                            }
                        }
                    }
                }
            },
        }
        let mut out = "[unknown:0x".to_owned();
        let hs = hex_string(pc);
        out.append(hs.as_str());
        out.append("]");
        out
    }

    /// The debug-line leg of resolution: the nearest recorded location,
    /// rendered as `name file:line`, with a placeholder name where the
    /// back-fill never reached the address.
    fn resolve_dwarf_pc(&self, pc: u64) -> (r: Option<String>)
        requires
            spec_resolver_wf(self),
            self.dwarf_parser is Some,
        ensures
            (r is Some <==> spec_nearest_loc(
                self.dwarf_parser->Some_0.address_to_location@,
                pc,
            ) is Some),
            ({
                let near = spec_nearest_loc(self.dwarf_parser->Some_0.address_to_location@, pc);
                (near is Some && near->Some_0.function_name is Some) ==> r is Some
                    && r->Some_0@ == spec_dwarf_sym(near->Some_0)
            }),
            ({
                let near = spec_nearest_loc(self.dwarf_parser->Some_0.address_to_location@, pc);
                (near is Some && near->Some_0.function_name is None && self.gopclntab is None
                    && spec_ascii_bytes(self.string_table@)) ==> r is Some && r->Some_0@
                    == spec_dwarf_merge_sym(self, near->Some_0, pc)
            }),
    {
        let dp = match &self.dwarf_parser {
            Some(dp) => dp,
            None => {
                return None;
            },
        };
        let loc = match dp.get_nearest_location(pc) {
            Some(l) => l,
            None => {
                return None;
            },
        };
        let mut symbol: String = match &loc.function_name {
            Some(f) => f.clone(),
            None => {
                // The back-fill never reached this address: merge in the
                // function table's name, which ranks next in priority.
                match self.table_name_for(pc) {
                    Some(n) => n,
                    None => {
                        if crate::names::ends_with_str(loc.file_path.as_str(), "main.go") {
                            "main.func".to_owned()
                        } else {
                            "<anonymous_function>".to_owned()
                        }
                    },
                }
            },
        };
        if !loc.file_path.as_str().is_empty() && loc.line > 0 {
            symbol.append(" ");
            symbol.append(loc.file_path.as_str());
            symbol.append(":");
            let ls = dec_string(loc.line as u64);
            symbol.append(ls.as_str());
        }
        Some(symbol)
    }

    /// The cleaned function name the tables give a PC, when any does.
    fn table_name_for(&self, pc: u64) -> (r: Option<String>)
        requires
            spec_resolver_wf(self),
        ensures
            (self.gopclntab is None && spec_ascii_bytes(self.string_table@)) ==> {
                &&& (r is Some <==> spec_flat_name(self, pc) is Some)
                &&& (r is Some ==> r->Some_0@ == spec_flat_name(self, pc)->Some_0)
            },
    {
        if self.gopclntab.is_some() {
            if let Some(g) = &self.gopclntab {
                if pc <= usize::MAX as u64 {
                    let (_, _, func_name) = g.symbolize(pc as usize);
                    if !func_name.as_str().is_empty() {
                        return Some(clean_go_function_name(func_name.as_str()));
                    }
                }
            }
        }
        if let Some(func_info) = self.find_function_by_pc(pc) {
            if let Some(cached) = lookup_sym(&self.symbol_cache, func_info.entry) {
                return Some(clean_go_function_name(cached.as_str()));
            }
            if let Some(name) = self.get_function_name(&func_info) {
                return Some(clean_go_function_name(name.as_str()));
            }
        }
        None
    }

    /// The in-binary-table leg of resolution: the cleaned function name,
    /// with the file and line appended when the lanes gave both.  On a
    /// usable table: `None` before the first entry, past an entry's 64 KiB
    /// cap, or where the record has no name; the rendered symbol where the
    /// covering entry names one.
    fn resolve_table_pc(&self, pc: u64) -> (r: Option<String>)
        requires
            self.gopclntab is Some,
        ensures
            ({
                let g = &self.gopclntab->Some_0;
                (crate::pclntab::spec_consistent(g) && crate::pclntab::spec_wf_functab(g) && pc
                    <= usize::MAX as u64) ==> {
                    &&& ((g.num_funcs == 0 || (pc as int) < crate::pclntab::spec_map_pc(g, 0))
                        ==> r is None)
                    &&& (forall|i: int|
                        0 <= i < g.num_funcs && #[trigger] crate::pclntab::spec_map_pc(g, i)
                            <= pc && (i + 1 == g.num_funcs || pc < crate::pclntab::spec_map_pc(
                            g,
                            i + 1,
                        )) && pc >= crate::pclntab::spec_map_pc(g, i) + 0x10000 ==> r is None)
                    &&& (forall|i: int|
                        #[trigger] crate::pclntab::spec_symbolize_covers(g, i, pc as int)
                            && crate::pclntab::spec_symbolize_name(g, i).len() == 0 ==> r is None)
                    &&& (forall|i: int|
                        #[trigger] crate::pclntab::spec_symbolize_covers(g, i, pc as int)
                            && crate::pclntab::spec_symbolize_name(g, i).len() > 0
                            && crate::pclntab::spec_symbolize_file(g, i, pc as int) is Some
                            && crate::pclntab::spec_symbolize_line(g, i, pc as int) is Some ==> r
                            is Some && r->Some_0@ == spec_table_sym(g, i, pc as int))
                }
            }),
            pc > usize::MAX as u64 ==> r is None,
    {
        let g = match &self.gopclntab {
            Some(g) => g,
            None => {
                return None;
            },
        };
        if pc > usize::MAX as u64 {
            return None;
        }
        let (source_file, line, func_name) = g.symbolize(pc as usize);
        if func_name.as_str().is_empty() {
            return None;
        }
        let mut symbol = clean_go_function_name(func_name.as_str());
        if !source_file.as_str().is_empty() && line > 0 {
            symbol.append(" ");
            symbol.append(source_file.as_str());
            symbol.append(":");
            let ls = dec_string(line as u64);
            symbol.append(ls.as_str());
        }
        Some(symbol)
    }

    /// Resolves a PC into an enriched record: from the debug lines when
    /// they cover it, else from the flat table, else a bracketed-unknown
    /// record.
    pub fn resolve_enhanced_pc(&self, pc: u64) -> (r: EnhancedFuncInfo)
        requires
            spec_resolver_wf(self),
        ensures
            (self.dwarf_parser is None && spec_find_func(self.func_table@, pc) is None) ==> (
            r.from_dwarf && r.function_name is Some && r.function_name->Some_0@ == "[unknown:0x"@
                + spec_hex(pc) + "]"@),
            (self.dwarf_parser is None && spec_find_func(self.func_table@, pc) is Some)
                ==> !r.from_dwarf && r.basic == spec_find_func(self.func_table@, pc)->Some_0,
            ((self.dwarf_parser is Some && spec_nearest_loc(
                self.dwarf_parser->Some_0.address_to_location@,
                pc,
            ) is Some) ==> {
                let loc = spec_nearest_loc(self.dwarf_parser->Some_0.address_to_location@, pc)->Some_0;
                &&& r.from_dwarf
                &&& r.basic.entry == pc
                &&& r.file_path is Some && r.file_path->Some_0@ == loc.file_path@
                &&& r.precise_line == Some(loc.line)
                &&& r.column == Some(loc.column)
                &&& (r.function_name is Some <==> loc.function_name is Some)
                &&& (loc.function_name is Some ==> r.function_name->Some_0@
                    == loc.function_name->Some_0@)
            }),
    {
        if let Some(dp) = &self.dwarf_parser {
            if let Some(loc) = dp.get_nearest_location(pc) {
                let function_name = match &loc.function_name {
                    Some(f) => Some(f.clone()),
                    None => None,
                };
                return EnhancedFuncInfo::from_dwarf(
                    pc,
                    function_name,
                    Some(loc.file_path.clone()),
                    Some(loc.line),
                    Some(loc.column),
                    None,
                );
            }
        }
        if let Some(func_info) = self.find_function_by_pc(pc) {
            let mut enhanced = EnhancedFuncInfo::from_basic(func_info);
            if let Some(name) = self.get_function_name(&func_info) {
                enhanced.function_name = Some(clean_go_function_name(name.as_str()));
            }
            if let Some(file_path) = self.get_file_path(&func_info) {
                enhanced.file_path = Some(file_path);
            }
            if let Some(line) = self.get_line_number(&func_info, pc) {
                enhanced.precise_line = Some(line);
            }
            return enhanced;
        }
        let mut unknown = "[unknown:0x".to_owned();
        let hs = hex_string(pc);
        unknown.append(hs.as_str());
        unknown.append("]");
        EnhancedFuncInfo::from_dwarf(pc, Some(unknown), None, None, None, None)
    }
}

/// Below the kernel-space threshold the kernel listing is never read: two
/// resolvers that differ only in their kernel symbols resolve every such
/// PC alike, whenever only the flat tables are loaded.
pub proof fn lemma_kernel_not_consulted_below(r1: &SymbolResolver, r2: &SymbolResolver, pc: u64)
    requires
        pc < KERNEL_ADDR_BASE,
        r1.symbol_cache == r2.symbol_cache,
        r1.func_table == r2.func_table,
        r1.string_table == r2.string_table,
        r1.dwarf_parser is None,
        r2.dwarf_parser is None,
        r1.gopclntab is None,
        r2.gopclntab is None,
    ensures
        spec_resolve_flat(r1, pc) == spec_resolve_flat(r2, pc),
{
    assert(spec_lookup_sym(r1.symbol_cache@, pc) == spec_lookup_sym(r2.symbol_cache@, pc));
    assert(spec_find_func(r1.func_table@, pc) == spec_find_func(r2.func_table@, pc));
    match spec_find_func(r1.func_table@, pc) {
        Some(f) => {
            assert(spec_name_of(r1, f) == spec_name_of(r2, f));
            assert(spec_file_of(r1, f) == spec_file_of(r2, f));
            assert(spec_complete_of(r1, f, pc) == spec_complete_of(r2, f, pc));
        },
        None => {},
    }
    assert(spec_range_entry(r1.symbol_cache@, pc, 4096) == spec_range_entry(
        r2.symbol_cache@,
        pc,
        4096,
    ));
    assert(spec_fallthrough(r1, pc) == spec_fallthrough(r2, pc));
}

} // verus!
