//! The runtime-descriptor parser: detects the managed runtime's version in
//! the target binary, fixes the per-version goroutine struct offsets, and
//! places the function table.
use vstd::prelude::*;

use crate::common::GoRuntimeInfo;
use crate::elf::{elf_section_data, elf_section_place, elf_sections_data, elf_symbols};
use crate::names::{contains_str, spec_at, starts_with_str};
use crate::strutil::{
    chars_to_string,
    parse_dec_u32,
    parse_hex,
    spec_all_dec,
    spec_dec_value,
    spec_fields,
    spec_hex_value,
    spec_is_space,
    spec_lines,
    spec_views,
    split_lines_chars,
    split_whitespace_chars,
    str_chars,
    string_from_utf8_lossy,
    utf8_of,
};

verus! {

/// Whether a token is a well-formed version string: the `go1.` prefix
/// followed by at least a dotted minor and patch, both plain decimal
/// numbers in 32-bit range.
pub open spec fn spec_is_valid_go_version(s: Seq<char>) -> bool {
    spec_at(s, 0, "go1."@) && {
        let rest = s.skip(4);
        exists|d: int|
            0 <= d < rest.len() && rest[d] == '.' && (forall|k: int|
                0 <= k < d ==> rest[k] != '.') && spec_version_part_ok(rest.take(d))
                && spec_version_part_ok(spec_second_part(rest, d))
    }
}

/// The second dotted component: from past the first dot to the next dot
/// or the end.
pub open spec fn spec_second_part(rest: Seq<char>, d: int) -> Seq<char> {
    let tail = rest.skip(d + 1);
    if exists|e: int| 0 <= e < tail.len() && tail[e] == '.' {
        let e = choose|e: int|
            0 <= e < tail.len() && tail[e] == '.' && (forall|k: int| 0 <= k < e ==> tail[k] != '.');
        tail.take(e)
    } else {
        tail
    }
}

/// A version component parses as a plain decimal number.
pub open spec fn spec_version_part_ok(p: Seq<char>) -> bool {
    p.len() > 0 && spec_all_dec(p) && spec_dec_value(p) <= u32::MAX
}

/// Whether the version marker stands at `m` in the line.
pub open spec fn spec_marker_at(line: Seq<char>, m: int) -> bool {
    spec_at(line, m, "go1."@)
}

/// The version token one line yields, if any: from the first marker to
/// the next whitespace, or the whole remainder when none follows within
/// ten characters; `None` when there is no marker, the unbounded
/// remainder runs long, or the token is malformed.
pub open spec fn spec_line_version(line: Seq<char>) -> Option<Seq<char>> {
    if exists|m: int| spec_marker_at(line, m) && (forall|k: int| 0 <= k < m ==> !spec_marker_at(line, k)) {
        let m = choose|m: int|
            spec_marker_at(line, m) && (forall|k: int| 0 <= k < m ==> !spec_marker_at(line, k));
        if exists|e: int|
            m <= e < line.len() && spec_is_space(line[e]) && (forall|k: int|
                m <= k < e ==> !spec_is_space(line[k])) {
            let e = choose|e: int|
                m <= e < line.len() && spec_is_space(line[e]) && (forall|k: int|
                    m <= k < e ==> !spec_is_space(line[k]));
            if spec_is_valid_go_version(line.subrange(m, e)) {
                Some(line.subrange(m, e))
            } else {
                None
            }
        } else if line.len() - m <= 10 {
            if spec_is_valid_go_version(line.skip(m)) {
                Some(line.skip(m))
            } else {
                None
            }
        } else {
            None
        }
    } else {
        None
    }
}

/// The first line's token, scanning in order.
pub open spec fn spec_scan_versions(lines: Seq<Seq<char>>) -> Option<Seq<char>>
    decreases lines.len(),
{
    if lines.len() == 0 {
        None
    } else {
        match spec_line_version(lines[0]) {
            Some(t) => Some(t),
            None => spec_scan_versions(lines.skip(1)),
        }
    }
}

/// What the version scanner finds in raw data: the first line token of
/// the replacement-lossy reading.
pub open spec fn spec_version_in(data: Seq<u8>) -> Option<Seq<char>> {
    spec_scan_versions(spec_lines(utf8_of(data)))
}

/// The first version token any section yields, scanning in order.
pub open spec fn spec_scan_section_versions(secs: Seq<Seq<u8>>) -> Option<Seq<char>>
    decreases secs.len(),
{
    if secs.len() == 0 {
        None
    } else {
        match spec_version_in(secs[0]) {
            Some(t) => Some(t),
            None => spec_scan_section_versions(secs.skip(1)),
        }
    }
}

/// The version token the build-information section yields: the scan of
/// its contents past the sixteen-byte preamble.
pub open spec fn spec_buildinfo_version(exe: Seq<u8>) -> Option<Seq<char>> {
    match crate::elf::elf_section_of(exe, ".go.buildinfo"@) {
        Some(d) => if d.len() >= 32 {
            spec_version_in(d.skip(16))
        } else {
            None
        },
        None => None,
    }
}

/// The version the detector settles on: the first section token, else the
/// build-information token, else the newest known minor as the default.
pub open spec fn spec_detected_version(exe: Seq<u8>) -> Seq<char> {
    match spec_scan_section_versions(crate::elf::elf_sections_of(exe)) {
        Some(t) => t,
        None => match spec_buildinfo_version(exe) {
            Some(t) => t,
            None => "go1.21"@,
        },
    }
}

/// The first symbol whose name references the function table, scanning in
/// order: its address and size.
pub open spec fn spec_sym_scan_pclntab(syms: Seq<(u64, u64, Seq<char>, bool)>) -> Option<
    (u64, u64),
>
    decreases syms.len(),
{
    if syms.len() == 0 {
        None
    } else if syms[0].2 == "runtime.pclntab"@ || crate::names::spec_contains(
        syms[0].2,
        "pclntab"@,
    ) {
        Some((syms[0].0, syms[0].1))
    } else {
        spec_sym_scan_pclntab(syms.skip(1))
    }
}

/// Where the function table lives: the table section's place, else the
/// first table-named symbol's.
pub open spec fn spec_func_table_place(exe: Seq<u8>) -> Option<(u64, u64)> {
    match crate::elf::elf_section_place_of(exe, ".gopclntab"@) {
        Some(p) => Some(p),
        None => spec_sym_scan_pclntab(crate::elf::elf_symbols_of(exe)),
    }
}

/// The head of an address-range token: the part before the first dash,
/// when a dash follows a nonempty hexadecimal numeral in 64-bit range.
pub open spec fn spec_range_start(tok: Seq<char>) -> Option<u64> {
    if exists|d: int|
        0 <= d < tok.len() && tok[d] == '-' && (forall|k: int| 0 <= k < d ==> tok[k] != '-') {
        let d = choose|d: int|
            0 <= d < tok.len() && tok[d] == '-' && (forall|k: int| 0 <= k < d ==> tok[k] != '-');
        let head = tok.take(d);
        if head.len() > 0 && crate::strutil::spec_all_hex(head) && spec_hex_value(head)
            <= u64::MAX {
            Some(spec_hex_value(head) as u64)
        } else {
            None
        }
    } else {
        None
    }
}

/// The bias one mapping line yields: its range start, when the line
/// references the target, has a permission field with read and execute,
/// and opens with a well-formed address range.
pub open spec fn spec_bias_line(line: Seq<char>) -> Option<u64> {
    if crate::names::spec_contains(line, "[heap]"@) || crate::names::spec_contains(
        line,
        "/go/"@,
    ) {
        let fs = spec_fields(line);
        if fs.len() >= 2 && crate::names::spec_contains(fs[1], "x"@) && crate::names::spec_contains(
            fs[1],
            "r"@,
        ) {
            spec_range_start(fs[0])
        } else {
            None
        }
    } else {
        None
    }
}

/// The first line's bias, scanning in order.
pub open spec fn spec_scan_bias(lines: Seq<Seq<char>>) -> Option<u64>
    decreases lines.len(),
{
    if lines.len() == 0 {
        None
    } else {
        match spec_bias_line(lines[0]) {
            Some(a) => Some(a),
            None => spec_scan_bias(lines.skip(1)),
        }
    }
}

/// Parser for the runtime descriptor of a target binary.
pub struct GoRuntimeParser {}

impl GoRuntimeParser {
    /// A new parser; it carries no state of its own.
    pub fn new() -> (r: Self)
        ensures
            r == (GoRuntimeParser {  }),
    {
        GoRuntimeParser {  }
    }

    /// Whether a token is a well-formed version string.
    pub fn is_valid_go_version(&self, version: &str) -> (r: bool)
        ensures
            r == spec_is_valid_go_version(version@),
    {
        if !starts_with_str(version, "go1.") {
            return false;
        }
        proof {
            reveal_strlit("go1.");
            assert(version@.len() >= 4);
        }
        let cs = str_chars(version);
        let ghost rest = version@.skip(4);
        let mut d: usize = 4;
        while d < cs.len() && cs[d] != '.'
            invariant
                cs@ == version@,
                rest == version@.skip(4),
                4 <= d <= cs@.len(),
                forall|k: int| 4 <= k < d ==> cs@[k] != '.',
            decreases cs@.len() - d,
        {
            d = d + 1;
        }
        if d >= cs.len() {
            // No dot after the prefix: fewer than two components.
            proof {
                if spec_is_valid_go_version(version@) {
                    let w = choose|w: int|
                        0 <= w < rest.len() && rest[w] == '.' && (forall|k: int|
                            0 <= k < w ==> rest[k] != '.') && spec_version_part_ok(rest.take(w))
                            && spec_version_part_ok(spec_second_part(rest, w));
                    assert(rest[w] == cs@[4 + w]);
                }
            }
            return false;
        }
        let mut part1: Vec<char> = Vec::new();
        let mut k: usize = 4;
        while k < d
            invariant
                cs@ == version@,
                4 <= k <= d < cs@.len(),
                part1@ =~= version@.subrange(4, k as int),
            decreases d - k,
        {
            part1.push(cs[k]);
            proof {
                assert(part1@ =~= version@.subrange(4, k + 1));
            }
            k = k + 1;
        }
        let mut e: usize = d + 1;
        while e < cs.len() && cs[e] != '.'
            invariant
                cs@ == version@,
                d + 1 <= e <= cs@.len(),
                forall|j: int| d + 1 <= j < e ==> cs@[j] != '.',
            decreases cs@.len() - e,
        {
            e = e + 1;
        }
        let mut part2: Vec<char> = Vec::new();
        let mut k2: usize = d + 1;
        while k2 < e
            invariant
                cs@ == version@,
                d + 1 <= k2 <= e <= cs@.len(),
                part2@ =~= version@.subrange(d + 1, k2 as int),
            decreases e - k2,
        {
            part2.push(cs[k2]);
            proof {
                assert(part2@ =~= version@.subrange(d + 1, k2 + 1));
            }
            k2 = k2 + 1;
        }
        let ok = parse_dec_u32(&part1).is_some() && parse_dec_u32(&part2).is_some();
        proof {
            let dd = d - 4;
            assert(rest.len() == version@.len() - 4);
            assert(forall|k: int| 0 <= k < rest.len() ==> rest[k] == version@[4 + k]);
            assert(rest[dd] == '.');
            assert(forall|k: int| 0 <= k < dd ==> rest[k] != '.');
            assert(part1@ =~= rest.take(dd));
            let tail = rest.skip(dd + 1);
            assert(forall|k: int| 0 <= k < tail.len() ==> tail[k] == version@[d + 1 + k]);
            if e < cs@.len() {
                assert(tail[e - d - 1] == '.');
                let w = choose|w: int|
                    0 <= w < tail.len() && tail[w] == '.' && (forall|k: int|
                        0 <= k < w ==> tail[k] != '.');
                assert(forall|k: int| 0 <= k < e - d - 1 ==> tail[k] != '.');
                assert(w == e - d - 1) by {
                    if w < e - d - 1 {
                        assert(tail[w] != '.');
                    } else if w > e - d - 1 {
                        assert(tail[e - d - 1] != '.');
                    }
                }
                assert(spec_second_part(rest, dd) == tail.take(e - d - 1));
                assert(part2@ =~= tail.take(e - d - 1));
            } else {
                assert(forall|k: int| 0 <= k < tail.len() ==> tail[k] != '.');
                if exists|w: int| 0 <= w < tail.len() && tail[w] == '.' {
                    let w = choose|w: int| 0 <= w < tail.len() && tail[w] == '.';
                    assert(tail[w] != '.');
                }
                assert(spec_second_part(rest, dd) == tail);
                assert(part2@ =~= tail);
            }
            if ok {
                assert(spec_version_part_ok(rest.take(dd)));
                assert(spec_version_part_ok(spec_second_part(rest, dd)));
                assert(spec_is_valid_go_version(version@));
            }
            if !ok && spec_is_valid_go_version(version@) {
                let w = choose|w: int|
                    0 <= w < rest.len() && rest[w] == '.' && (forall|k: int|
                        0 <= k < w ==> rest[k] != '.') && spec_version_part_ok(rest.take(w))
                        && spec_version_part_ok(spec_second_part(rest, w));
                assert(w == dd) by {
                    if w < dd {
                        assert(rest[w] != '.');
                    } else if w > dd {
                        assert(rest[dd] != '.');
                    }
                }
            }
        }
        ok
    }

    /// Scans raw data for a version token: in each line of the lossy
    /// decoding, the first `go1.` marker's run to the next whitespace (or
    /// the whole remainder when it stays within ten characters) is
    /// inspected; a malformed token rejects the line.  Returns exactly the
    /// first line's well-formed token.
    #[verifier::rlimit(100)]
    #[verifier::spinoff_prover]
    pub fn find_version_in_data(&self, data: &[u8]) -> (r: Option<String>)
        ensures
            r is Some <==> spec_version_in(data@) is Some,
            r is Some ==> r->Some_0@ == spec_version_in(data@)->Some_0,
            r is Some ==> spec_is_valid_go_version(r->Some_0@),
    {
        let mut bytes: Vec<u8> = Vec::new();
        let mut bi: usize = 0;
        while bi < data.len()
            invariant
                0 <= bi <= data@.len(),
                bytes@ =~= data@.take(bi as int),
            decreases data@.len() - bi,
        {
            bytes.push(data[bi]);
            proof {
                assert(bytes@ =~= data@.take(bi + 1));
            }
            bi = bi + 1;
        }
        proof {
            assert(data@.take(data@.len() as int) =~= data@);
        }
        let text = string_from_utf8_lossy(&bytes);
        let chars = str_chars(text.as_str());
        let lines = split_lines_chars(&chars);
        let ghost lns = spec_lines(utf8_of(data@));
        let mut li: usize = 0;
        proof {
            assert(lns.skip(0) =~= lns);
        }
        while li < lines.len()
            invariant
                lns == spec_lines(utf8_of(data@)),
                spec_views(lines@) == lns,
                0 <= li <= lines@.len(),
                spec_scan_versions(lns) == spec_scan_versions(lns.skip(li as int)),
            decreases lines@.len() - li,
        {
            let line = &lines[li];
            let ghost lv = lns[li as int];
            proof {
                assert(lines@[li as int]@ == spec_views(lines@)[li as int]);
                assert(lns.skip(li as int)[0] == lv);
                assert(lns.skip(li as int).skip(1) =~= lns.skip(li + 1));
            }
            let marker = find_marker(line);
            match marker {
                None => {
                    proof {
                        if exists|m: int|
                            spec_marker_at(lv, m) && (forall|k: int|
                                0 <= k < m ==> !spec_marker_at(lv, k)) {
                            let m = choose|m: int|
                                spec_marker_at(lv, m) && (forall|k: int|
                                    0 <= k < m ==> !spec_marker_at(lv, k));
                            assert(!spec_marker_at(lv, m));
                        }
                        assert(spec_line_version(lv) is None);
                    }
                },
                Some(start) => {
                    proof {
                        assert(exists|m: int|
                            spec_marker_at(lv, m) && (forall|k: int|
                                0 <= k < m ==> !spec_marker_at(lv, k))) by {
                            assert(spec_marker_at(lv, start as int) && (forall|k: int|
                                0 <= k < start ==> !spec_marker_at(lv, k)));
                        }
                        let m = choose|m: int|
                            spec_marker_at(lv, m) && (forall|k: int|
                                0 <= k < m ==> !spec_marker_at(lv, k));
                        assert(m == start as int) by {
                            if m < start as int {
                                assert(!spec_marker_at(lv, m));
                            } else if m > start as int {
                                assert(!spec_marker_at(lv, start as int));
                            }
                        }
                    }
                    let n = line.len();
                    let mut end: usize = start;
                    while end < n && !crate::strutil::is_space(line[end])
                        invariant
                            lv == line@,
                            n == line@.len(),
                            start <= end <= n,
                            forall|k: int| start <= k < end ==> !spec_is_space(#[trigger] lv[k]),
                        decreases n - end,
                    {
                        end = end + 1;
                    }
                    let cut = end < n;
                    proof {
                        if cut {
                            assert(exists|e: int|
                                start <= e < lv.len() && spec_is_space(lv[e]) && (forall|k: int|
                                    start <= k < e ==> !spec_is_space(lv[k]))) by {
                                assert(start <= (end as int) < lv.len() && spec_is_space(
                                    lv[end as int],
                                ) && (forall|k: int|
                                    start <= k < end ==> !spec_is_space(lv[k])));
                            }
                            let e = choose|e: int|
                                start <= e < lv.len() && spec_is_space(lv[e]) && (forall|k: int|
                                    start <= k < e ==> !spec_is_space(lv[k]));
                            assert(e == end as int) by {
                                if e < end as int {
                                    assert(!spec_is_space(lv[e]));
                                } else if e > end as int {
                                    assert(!spec_is_space(lv[end as int]));
                                }
                            }
                        } else {
                            if exists|e: int|
                                start <= e < lv.len() && spec_is_space(lv[e]) && (forall|k: int|
                                    start <= k < e ==> !spec_is_space(lv[k])) {
                                let e = choose|e: int|
                                    start <= e < lv.len() && spec_is_space(lv[e]) && (forall|
                                        k: int,
                                    |
                                        start <= k < e ==> !spec_is_space(lv[k]));
                                assert(!spec_is_space(lv[e]));
                            }
                        }
                    }
                    if cut || n - start <= 10 {
                        let mut tok: Vec<char> = Vec::new();
                        let mut k: usize = start;
                        while k < end
                            invariant
                                lv == line@,
                                start <= k <= end <= lv.len(),
                                tok@ =~= lv.subrange(start as int, k as int),
                            decreases end - k,
                        {
                            tok.push(line[k]);
                            proof {
                                assert(tok@ =~= lv.subrange(start as int, k + 1));
                            }
                            k = k + 1;
                        }
                        proof {
                            if !cut {
                                assert(lv.subrange(start as int, end as int) =~= lv.skip(
                                    start as int,
                                ));
                            }
                        }
                        let token = chars_to_string(&tok);
                        if self.is_valid_go_version(token.as_str()) {
                            proof {
                                assert(spec_line_version(lv) == Some(token@));
                                assert(spec_scan_versions(lns.skip(li as int)) == Some(token@));
                            }
                            return Some(token);
                        }
                        proof {
                            assert(spec_line_version(lv) is None);
                        }
                    } else {
                        proof {
                            assert(spec_line_version(lv) is None);
                        }
                    }
                },
            }
            li = li + 1;
        }
        proof {
            assert(lns.skip(lines@.len() as int) =~= Seq::<Seq<char>>::empty());
        }
        None
    }

    /// Detects the runtime version of a binary image: a token in any
    /// section, else the build-information section, else the newest known
    /// minor as the default.  Returns exactly `spec_detected_version`.
    pub fn extract_go_version(&self, exe: &[u8]) -> (r: Option<String>)
        ensures
            r is Some,
            r->Some_0@ == spec_detected_version(exe@),
    {
        let sections = elf_sections_data(exe);
        let ghost secs = crate::elf::elf_sections_of(exe@);
        let mut i: usize = 0;
        proof {
            assert(secs.skip(0) =~= secs);
        }
        while i < sections.len()
            invariant
                secs == crate::elf::elf_sections_of(exe@),
                sections@.len() == secs.len(),
                forall|k: int| 0 <= k < secs.len() ==> (#[trigger] sections@[k])@ == secs[k],
                0 <= i <= secs.len(),
                spec_scan_section_versions(secs) == spec_scan_section_versions(
                    secs.skip(i as int),
                ),
            decreases secs.len() - i,
        {
            proof {
                assert(secs.skip(i as int)[0] == secs[i as int]);
                assert(secs.skip(i as int).skip(1) =~= secs.skip(i + 1));
            }
            if let Some(v) = self.find_version_in_data(sections[i].as_slice()) {
                return Some(v);
            }
            i = i + 1;
        }
        proof {
            assert(secs.skip(secs.len() as int) =~= Seq::<Seq<u8>>::empty());
        }
        if let Some(v) = self.extract_build_info_version(exe) {
            return Some(v);
        }
        Some("go1.21".to_owned())
    }

    /// Reads the version from the build-information section, skipping its
    /// sixteen-byte preamble.
    pub fn extract_build_info_version(&self, exe: &[u8]) -> (r: Option<String>)
        ensures
            r is Some <==> spec_buildinfo_version(exe@) is Some,
            r is Some ==> r->Some_0@ == spec_buildinfo_version(exe@)->Some_0,
            r is Some ==> spec_is_valid_go_version(r->Some_0@),
    {
        let data = match elf_section_data(exe, ".go.buildinfo") {
            Some(d) => d,
            None => {
                return None;
            },
        };
        if data.len() >= 32 {
            let tail = crate::pclntab::tail_vec(data.as_slice(), 16);
            return self.find_version_in_data(tail.as_slice());
        }
        None
    }

    /// Places the function table: the table section's address and size,
    /// else the first table-named symbol's.  Returns exactly
    /// `spec_func_table_place`.
    pub fn find_func_table(&self, exe: &[u8]) -> (r: Option<(u64, u64)>)
        ensures
            r == spec_func_table_place(exe@),
    {
        if let Some(place) = elf_section_place(exe, ".gopclntab") {
            return Some(place);
        }
        let syms = elf_symbols(exe);
        let ghost sy = crate::elf::elf_symbols_of(exe@);
        let mut i: usize = 0;
        proof {
            assert(sy.skip(0) =~= sy);
        }
        while i < syms.len()
            invariant
                crate::elf::elf_section_place_of(exe@, ".gopclntab"@) is None,
                sy == crate::elf::elf_symbols_of(exe@),
                syms@.len() == sy.len(),
                forall|k: int|
                    0 <= k < sy.len() ==> {
                        let x = sy[k];
                        (#[trigger] syms@[k]).0 == x.0 && syms@[k].1 == x.1 && syms@[k].2@ == x.2
                            && syms@[k].3 == x.3
                    },
                0 <= i <= sy.len(),
                spec_sym_scan_pclntab(sy) == spec_sym_scan_pclntab(sy.skip(i as int)),
            decreases sy.len() - i,
        {
            proof {
                assert(sy.skip(i as int)[0] == sy[i as int]);
                assert(sy.skip(i as int).skip(1) =~= sy.skip(i + 1));
            }
            let name = &syms[i].2;
            if crate::strutil::str_eq(name.as_str(), "runtime.pclntab") || contains_str(
                name.as_str(),
                "pclntab",
            ) {
                proof {
                    assert(sy[i as int].2 == name@);
                    assert(spec_sym_scan_pclntab(sy.skip(i as int)) == Some(
                        (sy[i as int].0, sy[i as int].1),
                    ));
                }
                return Some((syms[i].0, syms[i].1));
            }
            i = i + 1;
        }
        proof {
            assert(sy.skip(sy.len() as int) =~= Seq::<(u64, u64, Seq<char>, bool)>::empty());
        }
        None
    }

    /// Fixes the goroutine struct offsets for a detected version.  All
    /// known versions share the 64-bit offsets; unknown versions fall back
    /// to the same defaults.
    pub fn parse_goroutine_offsets(&self, runtime_info: &mut GoRuntimeInfo, version: &str) -> (r:
        Result<(), String>)
        ensures
            r is Ok,
            final(runtime_info).g_offset == 0x30,
            final(runtime_info).stack_base_offset == 0x10,
            final(runtime_info).stack_size_offset == 0x18,
            final(runtime_info).pc_quantum == 1,
            final(runtime_info).version == old(runtime_info).version,
            final(runtime_info).func_tab_base == old(runtime_info).func_tab_base,
            final(runtime_info).func_tab_size == old(runtime_info).func_tab_size,
    {
        let known = starts_with_str(version, "go1.21") || starts_with_str(version, "go1.22")
            || starts_with_str(version, "go1.23") || starts_with_str(version, "go1.20");
        // The offsets are identical across the known versions; an unknown
        // version keeps them as documented defaults.
        let _ = known;
        runtime_info.g_offset = 0x30;
        runtime_info.stack_base_offset = 0x10;
        runtime_info.stack_size_offset = 0x18;
        runtime_info.pc_quantum = 1;
        Ok(())
    }

    /// Applies the load bias once: the range start of the first mapping
    /// line that references the target and is readable and executable is
    /// added to the function-table base, when one is set and the sum
    /// stays in range.
    pub fn update_runtime_addresses(&self, runtime_info: &mut GoRuntimeInfo, maps_text: &str) -> (r:
        Result<(), String>)
        ensures
            r is Ok,
            final(runtime_info).func_tab_base >= old(runtime_info).func_tab_base,
            old(runtime_info).func_tab_base == 0 ==> final(runtime_info).func_tab_base == 0,
            ({
                let base = old(runtime_info).func_tab_base;
                let bias = spec_scan_bias(spec_lines(maps_text@));
                base != 0 ==> final(runtime_info).func_tab_base == (match bias {
                    Some(a) => if base + a <= u64::MAX {
                        (base + a) as u64
                    } else {
                        base
                    },
                    None => base,
                })
            }),
            final(runtime_info).version == old(runtime_info).version,
            final(runtime_info).g_offset == old(runtime_info).g_offset,
            final(runtime_info).stack_base_offset == old(runtime_info).stack_base_offset,
            final(runtime_info).stack_size_offset == old(runtime_info).stack_size_offset,
            final(runtime_info).func_tab_size == old(runtime_info).func_tab_size,
            final(runtime_info).pc_quantum == old(runtime_info).pc_quantum,
    {
        if runtime_info.func_tab_base == 0 {
            return Ok(());
        }
        let chars = str_chars(maps_text);
        let lines = split_lines_chars(&chars);
        let ghost lns = spec_lines(maps_text@);
        let mut li: usize = 0;
        proof {
            assert(lns.skip(0) =~= lns);
        }
        while li < lines.len()
            invariant
                runtime_info == old(runtime_info),
                old(runtime_info).func_tab_base != 0,
                lns == spec_lines(maps_text@),
                spec_views(lines@) == lns,
                0 <= li <= lns.len(),
                spec_scan_bias(lns) == spec_scan_bias(lns.skip(li as int)),
            decreases lns.len() - li,
        {
            let line = &lines[li];
            let ghost lv = lns[li as int];
            proof {
                assert(lines@[li as int]@ == spec_views(lines@)[li as int]);
                assert(lns.skip(li as int)[0] == lv);
                assert(lns.skip(li as int).skip(1) =~= lns.skip(li + 1));
            }
            let line_str = chars_to_string(line);
            let interesting = contains_str(line_str.as_str(), "[heap]") || contains_str(
                line_str.as_str(),
                "/go/",
            );
            let mut line_bias: Option<u64> = None;
            if interesting {
                let parts = split_whitespace_chars(line);
                proof {
                    assert(spec_views(parts@) == spec_fields(lv));
                }
                if parts.len() >= 2 {
                    let perms = chars_to_string(&parts[1]);
                    proof {
                        assert(parts@[1]@ == spec_fields(lv)[1]);
                        assert(parts@[0]@ == spec_fields(lv)[0]);
                    }
                    let executable = contains_str(perms.as_str(), "x") && contains_str(
                        perms.as_str(),
                        "r",
                    );
                    if executable {
                        line_bias = first_hex_field(&parts[0]);
                    }
                }
            }
            proof {
                assert(spec_bias_line(lv) == line_bias);
            }
            match line_bias {
                Some(addr) => {
                    proof {
                        assert(spec_scan_bias(lns) == Some(addr));
                    }
                    match runtime_info.func_tab_base.checked_add(addr) {
                        Some(updated) => {
                            runtime_info.func_tab_base = updated;
                            return Ok(());
                        },
                        None => {
                            return Ok(());
                        },
                    }
                },
                None => {},
            }
            li = li + 1;
        }
        proof {
            assert(lns.skip(lns.len() as int) =~= Seq::<Seq<char>>::empty());
        }
        Ok(())
    }

    /// Builds the runtime descriptor from the executable image and the
    /// process mapping text: version detection, function-table placement,
    /// per-version offsets, and the one-time load bias.
    pub fn parse_binary(&self, exe: &[u8], maps_text: &str) -> (r: Result<GoRuntimeInfo, String>)
        ensures
            r is Ok,
            ({
                let info = r->Ok_0;
                let tok = spec_detected_version(exe@);
                let enc = vstd::utf8::encode_utf8(tok);
                &&& info.g_offset == 0x30
                &&& info.stack_base_offset == 0x10
                &&& info.stack_size_offset == 0x18
                &&& info.pc_quantum == 1
                &&& (forall|k: int|
                    0 <= k < enc.len() && k < 31 ==> info.version[k] == enc[k])
                &&& (spec_func_table_place(exe@) is None ==> info.func_tab_base == 0
                    && info.func_tab_size == 0)
                &&& (spec_func_table_place(exe@) is Some ==> {
                    let place = spec_func_table_place(exe@)->Some_0;
                    let bias = spec_scan_bias(spec_lines(maps_text@));
                    &&& info.func_tab_size == place.1
                    &&& info.func_tab_base == (if place.0 == 0 {
                        0u64
                    } else {
                        match bias {
                            Some(a) => if place.0 + a <= u64::MAX {
                                (place.0 + a) as u64
                            } else {
                                place.0
                            },
                            None => place.0,
                        }
                    })
                })
            }),
    {
        let mut runtime_info = GoRuntimeInfo {
            version: [0u8; 32],
            g_offset: 0,
            stack_base_offset: 0,
            stack_size_offset: 0,
            func_tab_base: 0,
            func_tab_size: 0,
            pc_quantum: 1,
        };
        let version: String = match self.extract_go_version(exe) {
            Some(v) => v,
            None => "go1.21".to_owned(),
        };
        copy_version_bytes(&mut runtime_info, version.as_str());
        if let Some((base, size)) = self.find_func_table(exe) {
            runtime_info.func_tab_base = base;
            runtime_info.func_tab_size = size;
        }
        match self.parse_goroutine_offsets(&mut runtime_info, version.as_str()) {
            Ok(()) => {},
            Err(e) => {
                return Err(e);
            },
        }
        match self.update_runtime_addresses(&mut runtime_info, maps_text) {
            Ok(()) => {},
            Err(e) => {
                return Err(e);
            },
        }
        Ok(runtime_info)
    }
}

/// The position of the first version marker `go1.` in the line, if any.
fn find_marker(line: &Vec<char>) -> (r: Option<usize>)
    ensures
        r is Some ==> spec_marker_at(line@, r->Some_0 as int) && (forall|k: int|
            0 <= k < r->Some_0 ==> !spec_marker_at(line@, k)),
        r is None ==> forall|k: int| !spec_marker_at(line@, k),
{
    proof {
        reveal_strlit("go1.");
    }
    let n = line.len();
    if n < 4 {
        proof {
            assert forall|k: int| !spec_marker_at(line@, k) by {
                if spec_marker_at(line@, k) {
                    assert(k + 4 <= line@.len());
                }
            }
        }
        return None;
    }
    let mut i: usize = 0;
    while i <= n - 4
        invariant
            n == line@.len(),
            n >= 4,
            0 <= i <= n - 4 + 1,
            forall|k: int| 0 <= k < i ==> !spec_marker_at(line@, k),
        decreases n - i,
    {
        if line[i] == 'g' && line[i + 1] == 'o' && line[i + 2] == '1' && line[i + 3] == '.' {
            proof {
                reveal_strlit("go1.");
                assert(line@.subrange(i as int, i + 4) =~= "go1."@);
            }
            return Some(i);
        }
        proof {
            reveal_strlit("go1.");
            if spec_marker_at(line@, i as int) {
                assert(line@.subrange(i as int, i + 4) == "go1."@);
                assert(line@[i as int] == "go1."@[0]);
                assert(line@[i + 1] == "go1."@[1]);
                assert(line@[i + 2] == "go1."@[2]);
                assert(line@[i + 3] == "go1."@[3]);
                assert(false);
            }
        }
        i = i + 1;
    }
    proof {
        reveal_strlit("go1.");
        assert forall|k: int| !spec_marker_at(line@, k) by {
            if spec_marker_at(line@, k) {
                assert(k + 4 <= line@.len());
                assert(0 <= k < i);
            }
        }
    }
    None
}

/// The leading hexadecimal field of an address range token, the part
/// before the first dash.
fn first_hex_field(token: &Vec<char>) -> (r: Option<u64>)
    ensures
        r == spec_range_start(token@),
{
    let ghost tv = token@;
    let mut dash: usize = 0;
    let n = token.len();
    while dash < n && token[dash] != '-'
        invariant
            tv == token@,
            0 <= dash <= n,
            n == tv.len(),
            forall|k: int| 0 <= k < dash ==> tv[k] != '-',
        decreases n - dash,
    {
        dash = dash + 1;
    }
    if dash >= n {
        proof {
            if exists|d: int|
                0 <= d < tv.len() && tv[d] == '-' && (forall|k: int| 0 <= k < d ==> tv[k] != '-') {
                let d = choose|d: int|
                    0 <= d < tv.len() && tv[d] == '-' && (forall|k: int|
                        0 <= k < d ==> tv[k] != '-');
                assert(tv[d] != '-');
            }
        }
        return None;
    }
    proof {
        assert(exists|d: int|
            0 <= d < tv.len() && tv[d] == '-' && (forall|k: int| 0 <= k < d ==> tv[k] != '-')) by {
            assert(0 <= (dash as int) < tv.len() && tv[dash as int] == '-' && (forall|k: int|
                0 <= k < dash ==> tv[k] != '-'));
        }
        let d = choose|d: int|
            0 <= d < tv.len() && tv[d] == '-' && (forall|k: int| 0 <= k < d ==> tv[k] != '-');
        assert(d == dash as int) by {
            if d < dash as int {
                assert(tv[d] != '-');
            } else if d > dash as int {
                assert(tv[dash as int] != '-');
            }
        }
    }
    if dash == 0 {
        return None;
    }
    let mut head: Vec<char> = Vec::new();
    let mut k: usize = 0;
    while k < dash
        invariant
            tv == token@,
            0 <= k <= dash <= n,
            n == tv.len(),
            head@ =~= tv.subrange(0, k as int),
        decreases dash - k,
    {
        head.push(token[k]);
        proof {
            assert(head@ =~= tv.subrange(0, k + 1));
        }
        k = k + 1;
    }
    proof {
        assert(head@ =~= tv.take(dash as int));
    }
    parse_hex(&head)
}

/// Copies the version token's UTF-8 bytes into the descriptor's
/// fixed-size field, truncating past thirty-one bytes.
fn copy_version_bytes(runtime_info: &mut GoRuntimeInfo, version: &str)
    ensures
        forall|k: int|
            0 <= k < vstd::utf8::encode_utf8(version@).len() && k < 31
                ==> final(runtime_info).version[k] == vstd::utf8::encode_utf8(version@)[k],
        final(runtime_info).g_offset == old(runtime_info).g_offset,
        final(runtime_info).stack_base_offset == old(runtime_info).stack_base_offset,
        final(runtime_info).stack_size_offset == old(runtime_info).stack_size_offset,
        final(runtime_info).func_tab_base == old(runtime_info).func_tab_base,
        final(runtime_info).func_tab_size == old(runtime_info).func_tab_size,
        final(runtime_info).pc_quantum == old(runtime_info).pc_quantum,
{
    let bytes = version.as_bytes();
    proof {
        assert(bytes@ == vstd::utf8::encode_utf8(version@));
    }
    let n: usize = if bytes.len() < 31 {
        bytes.len()
    } else {
        31
    };
    let mut i: usize = 0;
    while i < n
        invariant
            bytes@ == vstd::utf8::encode_utf8(version@),
            n <= 31,
            n == (if bytes@.len() < 31 {
                bytes@.len() as int
            } else {
                31int
            }),
            0 <= i <= n,
            forall|k: int| 0 <= k < i ==> runtime_info.version[k] == bytes@[k],
            runtime_info.g_offset == old(runtime_info).g_offset,
            runtime_info.stack_base_offset == old(runtime_info).stack_base_offset,
            runtime_info.stack_size_offset == old(runtime_info).stack_size_offset,
            runtime_info.func_tab_base == old(runtime_info).func_tab_base,
            runtime_info.func_tab_size == old(runtime_info).func_tab_size,
            runtime_info.pc_quantum == old(runtime_info).pc_quantum,
        decreases n - i,
    {
        runtime_info.version[i] = bytes[i];
        i = i + 1;
    }
}

} // verus!
