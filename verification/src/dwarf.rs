//! The debug-line store: an address-to-source-location map accumulated from
//! the line programs of all compilation units, back-filled with function
//! names from the subprogram entries' PC ranges.  The caller walks the debug
//! sections and hands records in; lookups are by exact address or by the
//! nearest earlier one.
use vstd::prelude::*;

verus! {

/// One resolved source position.
#[derive(Debug, Clone)]
pub struct SourceLocation {
    /// Path of the source file.
    pub file_path: String,
    /// Line number, one-based; zero when unknown.
    pub line: u32,
    /// Column number; zero for the left edge.
    pub column: u32,
    /// Containing function, filled in from the subprogram entries.
    pub function_name: Option<String>,
}

/// The accumulated debug-line data.
#[derive(Debug)]
pub struct DwarfParser {
    /// Source position of each known address, sorted by address, one entry
    /// per address.
    pub address_to_location: Vec<(u64, SourceLocation)>,
    /// PC ranges of each named function, one entry per name.
    pub function_ranges: Vec<(String, Vec<(u64, u64)>)>,
}

/// Addresses strictly increasing: sorted and free of duplicates.
pub open spec fn spec_sorted_addrs(s: Seq<(u64, SourceLocation)>) -> bool {
    forall|i: int, j: int| 0 <= i < j < s.len() ==> (#[trigger] s[i]).0 < (#[trigger] s[j]).0
}

/// Function names all distinct.
pub open spec fn spec_unique_names(s: Seq<(String, Vec<(u64, u64)>)>) -> bool {
    forall|i: int, j: int|
        0 <= i < j < s.len() ==> (#[trigger] s[i]).0@ != (#[trigger] s[j]).0@
}

/// The location recorded for `a`, if any.
pub open spec fn spec_find_loc(s: Seq<(u64, SourceLocation)>, a: u64) -> Option<SourceLocation>
    decreases s.len(),
{
    if s.len() == 0 {
        None
    } else if s[0].0 == a {
        Some(s[0].1)
    } else {
        spec_find_loc(s.skip(1), a)
    }
}

/// The ranges recorded for a function name, if any.
pub open spec fn spec_find_ranges(s: Seq<(String, Vec<(u64, u64)>)>, name: Seq<char>) -> Option<
    Seq<(u64, u64)>,
>
    decreases s.len(),
{
    if s.len() == 0 {
        None
    } else if s[0].0@ == name {
        Some(s[0].1@)
    } else {
        spec_find_ranges(s.skip(1), name)
    }
}

/// Whether `a` falls inside one of the half-open ranges.
pub open spec fn spec_in_ranges(a: u64, rs: Seq<(u64, u64)>) -> bool {
    exists|k: int| 0 <= k < rs.len() && (#[trigger] rs[k]).0 <= a < rs[k].1
}

/// The nearest recorded location for `a`: the exact entry when there is
/// one, else the entry with the greatest nonzero address not above `a`.
pub open spec fn spec_nearest_loc(s: Seq<(u64, SourceLocation)>, a: u64) -> Option<SourceLocation> {
    if exists|i: int| 0 <= i < s.len() && (#[trigger] s[i]).0 == a {
        spec_find_loc(s, a)
    } else if exists|i: int| 0 <= i < s.len() && 0 < (#[trigger] s[i]).0 <= a {
        let i = choose|i: int|
            0 <= i < s.len() && 0 < (#[trigger] s[i]).0 <= a && (i + 1 == s.len() || s[i + 1].0
                > a);
        Some(s[i].1)
    } else {
        None
    }
}

/// Well-formedness of the store.
pub open spec fn spec_dwarf_wf(d: &DwarfParser) -> bool {
    spec_sorted_addrs(d.address_to_location@) && spec_unique_names(d.function_ranges@)
}

impl DwarfParser {
    /// An empty store.
    pub fn new() -> (r: Self)
        ensures
            r.address_to_location@.len() == 0,
            r.function_ranges@.len() == 0,
            spec_dwarf_wf(&r),
    {
        DwarfParser { address_to_location: Vec::new(), function_ranges: Vec::new() }
    }

    /// Records the source position of one address, replacing any earlier
    /// record for the same address.
    pub fn insert_location(&mut self, address: u64, location: SourceLocation)
        requires
            spec_dwarf_wf(old(self)),
        ensures
            spec_dwarf_wf(final(self)),
            final(self).function_ranges@ == old(self).function_ranges@,
            spec_find_loc(final(self).address_to_location@, address) == Some(location),
            forall|a: u64|
                a != address ==> #[trigger] spec_find_loc(final(self).address_to_location@, a)
                    == spec_find_loc(old(self).address_to_location@, a),
    {
        let ghost olds = self.address_to_location@;
        let mut i: usize = 0;
        while i < self.address_to_location.len() && self.address_to_location[i].0 < address
            invariant
                0 <= i <= olds.len(),
                self.address_to_location@ == olds,
                self.function_ranges@ == old(self).function_ranges@,
                forall|k: int| 0 <= k < i ==> (#[trigger] olds[k]).0 < address,
            decreases olds.len() - i,
        {
            i = i + 1;
        }
        if i < self.address_to_location.len() && self.address_to_location[i].0 == address {
            self.address_to_location[i] = (address, location);
            proof {
                let news = self.address_to_location@;
                assert(spec_sorted_addrs(news)) by {
                    assert(forall|k: int|
                        0 <= k < news.len() && k != i ==> news[k] == olds[k]);
                }
                lemma_find_loc_at(news, i as int);
                assert forall|a: u64| a != address implies #[trigger] spec_find_loc(news, a)
                    == spec_find_loc(olds, a) by {
                    lemma_find_loc_update(olds, news, i as int, a);
                }
            }
        } else {
            proof {
                assert(forall|k: int|
                    i <= k < olds.len() ==> (#[trigger] olds[k]).0 > address) by {
                    assert forall|k: int|
                        i <= k < olds.len() implies (#[trigger] olds[k]).0 > address by {
                        if k > i {
                            assert(olds[i as int].0 < olds[k].0);
                        }
                    }
                }
            }
            self.address_to_location.insert(i, (address, location));
            proof {
                let news = self.address_to_location@;
                assert(spec_sorted_addrs(news)) by {
                    assert(forall|k: int| 0 <= k < i ==> news[k] == olds[k]);
                    assert(forall|k: int|
                        i < k < news.len() ==> news[k] == olds[k - 1]);
                    assert(news[i as int].0 == address);
                }
                lemma_find_loc_at(news, i as int);
                assert forall|a: u64| a != address implies #[trigger] spec_find_loc(news, a)
                    == spec_find_loc(olds, a) by {
                    lemma_find_loc_insert(olds, news, i as int, a);
                }
            }
        }
    }

    /// The exact record for `address`, if one exists.
    pub fn get_location(&self, address: u64) -> (r: Option<&SourceLocation>)
        ensures
            r is Some <==> spec_find_loc(self.address_to_location@, address) is Some,
            r is Some ==> *r->Some_0 == spec_find_loc(
                self.address_to_location@,
                address,
            )->Some_0,
    {
        let ghost s = self.address_to_location@;
        let mut i: usize = 0;
        while i < self.address_to_location.len()
            invariant
                0 <= i <= s.len(),
                s == self.address_to_location@,
                forall|k: int| 0 <= k < i ==> (#[trigger] s[k]).0 != address,
            decreases s.len() - i,
        {
            if self.address_to_location[i].0 == address {
                proof {
                    lemma_find_loc_at(s, i as int);
                }
                return Some(&self.address_to_location[i].1);
            }
            i = i + 1;
        }
        proof {
            lemma_find_loc_none(s, address);
        }
        None
    }

    /// The nearest record at or before `address`: the exact one when it
    /// exists, else the one with the greatest nonzero earlier address.
    pub fn get_nearest_location(&self, address: u64) -> (r: Option<&SourceLocation>)
        requires
            spec_dwarf_wf(self),
        ensures
            r is Some <==> spec_nearest_loc(self.address_to_location@, address) is Some,
            r is Some ==> *r->Some_0 == spec_nearest_loc(
                self.address_to_location@,
                address,
            )->Some_0,
    {
        let ghost s = self.address_to_location@;
        if let Some(loc) = self.get_location(address) {
            proof {
                lemma_find_loc_some_exists(s, address);
            }
            return Some(loc);
        }
        proof {
            lemma_find_loc_none_rev(s, address);
        }
        let mut best: Option<usize> = None;
        let mut i: usize = 0;
        while i < self.address_to_location.len()
            invariant
                0 <= i <= s.len(),
                s == self.address_to_location@,
                spec_sorted_addrs(s),
                best is Some ==> {
                    let b = best->Some_0 as int;
                    0 <= b < i && 0 < s[b].0 <= address && forall|k: int|
                        0 <= k < i && 0 < (#[trigger] s[k]).0 <= address ==> s[k].0 <= s[b].0
                },
                best is None ==> forall|k: int| 0 <= k < i ==> !(0 < (#[trigger] s[k]).0 <= address),
            decreases s.len() - i,
        {
            let a = self.address_to_location[i].0;
            if a > 0 && a <= address {
                match best {
                    Some(b) => {
                        if a > self.address_to_location[b].0 {
                            best = Some(i);
                        }
                    },
                    None => {
                        best = Some(i);
                    },
                }
            }
            i = i + 1;
        }
        match best {
            Some(b) => {
                proof {
                    let bi = b as int;
                    assert(bi + 1 == s.len() || s[bi + 1].0 > address) by {
                        if bi + 1 < s.len() && s[bi + 1].0 <= address {
                            assert(s[bi].0 < s[bi + 1].0);
                        }
                    }
                    let w = choose|i: int|
                        0 <= i < s.len() && 0 < (#[trigger] s[i]).0 <= address && (i + 1 == s.len()
                            || s[i + 1].0 > address);
                    assert(0 <= bi < s.len() && 0 < s[bi].0 <= address && (bi + 1 == s.len() || s[bi
                        + 1].0 > address));
                    if w != bi {
                        if w < bi {
                            assert(s[w + 1].0 <= s[bi].0) by {
                                if w + 1 < bi {
                                    assert(s[w + 1].0 < s[bi].0);
                                }
                            }
                        } else {
                            assert(s[bi + 1].0 <= s[w].0) by {
                                if bi + 1 < w {
                                    assert(s[bi + 1].0 < s[w].0);
                                }
                            }
                        }
                    }
                    assert(w == bi);
                }
                Some(&self.address_to_location[b].1)
            },
            None => None,
        }
    }

    /// Records a function's PC ranges and writes its name into every
    /// address record falling inside one of them.
    pub fn apply_function_ranges(&mut self, name: &str, ranges: &Vec<(u64, u64)>)
        requires
            spec_dwarf_wf(old(self)),
        ensures
            spec_dwarf_wf(final(self)),
            spec_find_ranges(final(self).function_ranges@, name@) == Some(ranges@),
            forall|other: Seq<char>|
                other != name@ ==> #[trigger] spec_find_ranges(
                    final(self).function_ranges@,
                    other,
                ) == spec_find_ranges(old(self).function_ranges@, other),
            final(self).address_to_location@.len() == old(self).address_to_location@.len(),
            forall|k: int|
                0 <= k < old(self).address_to_location@.len() ==> {
                    let o = old(self).address_to_location@[k];
                    let n = #[trigger] final(self).address_to_location@[k];
                    &&& n.0 == o.0
                    &&& n.1.file_path == o.1.file_path
                    &&& n.1.line == o.1.line
                    &&& n.1.column == o.1.column
                    &&& (spec_in_ranges(o.0, ranges@) ==> n.1.function_name is Some
                        && n.1.function_name->Some_0@ == name@)
                    &&& (!spec_in_ranges(o.0, ranges@) ==> n.1.function_name
                        == o.1.function_name)
                },
    {
        self.backfill_names(name, ranges);
        self.record_ranges(name, ranges);
    }

    /// Writes the function name into every address record inside one of
    /// the ranges.
    fn backfill_names(&mut self, name: &str, ranges: &Vec<(u64, u64)>)
        requires
            spec_dwarf_wf(old(self)),
        ensures
            spec_dwarf_wf(final(self)),
            final(self).function_ranges@ == old(self).function_ranges@,
            final(self).address_to_location@.len() == old(self).address_to_location@.len(),
            forall|k: int|
                0 <= k < old(self).address_to_location@.len() ==> {
                    let o = old(self).address_to_location@[k];
                    let n = #[trigger] final(self).address_to_location@[k];
                    &&& n.0 == o.0
                    &&& n.1.file_path == o.1.file_path
                    &&& n.1.line == o.1.line
                    &&& n.1.column == o.1.column
                    &&& (spec_in_ranges(o.0, ranges@) ==> n.1.function_name is Some
                        && n.1.function_name->Some_0@ == name@)
                    &&& (!spec_in_ranges(o.0, ranges@) ==> n.1.function_name
                        == o.1.function_name)
                },
    {
        let ghost olds = old(self).address_to_location@;
        let mut k: usize = 0;
        while k < self.address_to_location.len()
            invariant
                olds == old(self).address_to_location@,
                0 <= k <= olds.len(),
                self.address_to_location@.len() == olds.len(),
                self.function_ranges@ == old(self).function_ranges@,
                forall|j: int|
                    0 <= j < olds.len() ==> (#[trigger] self.address_to_location@[j]).0
                        == olds[j].0,
                forall|j: int|
                    k <= j < olds.len() ==> #[trigger] self.address_to_location@[j] == olds[j],
                forall|j: int|
                    0 <= j < k ==> {
                        let o = olds[j];
                        let n = #[trigger] self.address_to_location@[j];
                        &&& n.1.file_path == o.1.file_path
                        &&& n.1.line == o.1.line
                        &&& n.1.column == o.1.column
                        &&& (spec_in_ranges(o.0, ranges@) ==> n.1.function_name is Some
                            && n.1.function_name->Some_0@ == name@)
                        &&& (!spec_in_ranges(o.0, ranges@) ==> n.1.function_name
                            == o.1.function_name)
                    },
            decreases olds.len() - k,
        {
            let addr = self.address_to_location[k].0;
            if Self::in_ranges(addr, ranges) {
                let loc = &self.address_to_location[k].1;
                let updated = SourceLocation {
                    file_path: loc.file_path.clone(),
                    line: loc.line,
                    column: loc.column,
                    function_name: Some(name.to_owned()),
                };
                self.address_to_location[k] = (addr, updated);
            }
            k = k + 1;
        }
        proof {
            assert(spec_sorted_addrs(self.address_to_location@)) by {
                assert(forall|j: int|
                    0 <= j < olds.len() ==> (#[trigger] self.address_to_location@[j]).0
                        == olds[j].0);
            }
        }
    }

    /// Records the ranges under the function's name, replacing an earlier
    /// record for the same name.
    fn record_ranges(&mut self, name: &str, ranges: &Vec<(u64, u64)>)
        requires
            spec_dwarf_wf(old(self)),
        ensures
            spec_dwarf_wf(final(self)),
            final(self).address_to_location@ == old(self).address_to_location@,
            spec_find_ranges(final(self).function_ranges@, name@) == Some(ranges@),
            forall|other: Seq<char>|
                other != name@ ==> #[trigger] spec_find_ranges(
                    final(self).function_ranges@,
                    other,
                ) == spec_find_ranges(old(self).function_ranges@, other),
    {
        let ghost oldr = old(self).function_ranges@;
        let mut i: usize = 0;
        while i < self.function_ranges.len()
            invariant
                oldr == old(self).function_ranges@,
                0 <= i <= oldr.len(),
                self.function_ranges@ == oldr,
                self.address_to_location@ == old(self).address_to_location@,
                spec_dwarf_wf(self),
                forall|j: int| 0 <= j < i ==> (#[trigger] oldr[j]).0@ != name@,
            decreases oldr.len() - i,
        {
            if crate::strutil::str_eq(self.function_ranges[i].0.as_str(), name) {
                let copied = Self::copy_ranges(ranges);
                let owned = name.to_owned();
                proof {
                    assert(oldr[i as int].0@ == name@);
                }
                self.function_ranges[i] = (owned, copied);
                proof {
                    let news = self.function_ranges@;
                    assert(news[i as int].0@ == name@);
                    assert(news[i as int].1@ == ranges@);
                    assert(spec_unique_names(news)) by {
                        assert(forall|j: int|
                            0 <= j < news.len() && j != i ==> #[trigger] news[j] == oldr[j]);
                    }
                    assert(forall|k: int|
                        0 <= k < i ==> (#[trigger] news[k]).0@ != news[i as int].0@);
                    lemma_find_ranges_at(news, i as int);
                    assert forall|other: Seq<char>| other != name@ implies #[trigger] spec_find_ranges(
                        news,
                        other,
                    ) == spec_find_ranges(oldr, other) by {
                        lemma_find_ranges_update(oldr, news, i as int, other);
                    }
                }
                return ;
            }
            i = i + 1;
        }
        let copied = Self::copy_ranges(ranges);
        let owned = name.to_owned();
        self.function_ranges.push((owned, copied));
        proof {
            let news = self.function_ranges@;
            assert(news[oldr.len() as int].0@ == name@);
            assert(news[oldr.len() as int].1@ == ranges@);
            assert(spec_unique_names(news)) by {
                assert(forall|j: int|
                    0 <= j < oldr.len() ==> #[trigger] news[j] == oldr[j]);
            }
            lemma_find_ranges_push(oldr, name@, ranges@, news);
        }
    }

    fn copy_ranges(ranges: &Vec<(u64, u64)>) -> (r: Vec<(u64, u64)>)
        ensures
            r@ == ranges@,
    {
        let mut r: Vec<(u64, u64)> = Vec::new();
        let mut i: usize = 0;
        while i < ranges.len()
            invariant
                0 <= i <= ranges@.len(),
                r@ =~= ranges@.take(i as int),
            decreases ranges@.len() - i,
        {
            r.push(ranges[i]);
            proof {
                assert(r@ =~= ranges@.take(i + 1));
            }
            i = i + 1;
        }
        proof {
            assert(ranges@.take(ranges@.len() as int) =~= ranges@);
        }
        r
    }

    fn in_ranges(a: u64, rs: &Vec<(u64, u64)>) -> (r: bool)
        ensures
            r == spec_in_ranges(a, rs@),
    {
        let mut i: usize = 0;
        while i < rs.len()
            invariant
                0 <= i <= rs@.len(),
                forall|k: int| 0 <= k < i ==> !((#[trigger] rs@[k]).0 <= a < rs@[k].1),
            decreases rs@.len() - i,
        {
            let (lo, hi) = rs[i];
            if lo <= a && a < hi {
                return true;
            }
            i = i + 1;
        }
        false
    }

    /// The recorded PC ranges of a function.
    pub fn get_function_ranges(&self, function_name: &str) -> (r: Option<&Vec<(u64, u64)>>)
        ensures
            r is Some <==> spec_find_ranges(self.function_ranges@, function_name@) is Some,
            r is Some ==> r->Some_0@ == spec_find_ranges(
                self.function_ranges@,
                function_name@,
            )->Some_0,
    {
        let ghost s = self.function_ranges@;
        let mut i: usize = 0;
        while i < self.function_ranges.len()
            invariant
                0 <= i <= s.len(),
                s == self.function_ranges@,
                forall|k: int| 0 <= k < i ==> (#[trigger] s[k]).0@ != function_name@,
            decreases s.len() - i,
        {
            if crate::strutil::str_eq(self.function_ranges[i].0.as_str(), function_name) {
                proof {
                    lemma_find_ranges_at(s, i as int);
                }
                return Some(&self.function_ranges[i].1);
            }
            i = i + 1;
        }
        proof {
            lemma_find_ranges_none(s, function_name@);
        }
        None
    }

    /// Whether `address` lies inside one of the recorded ranges of the
    /// named function.
    pub fn is_address_in_function(&self, address: u64, function_name: &str) -> (r: bool)
        ensures
            r == {
                match spec_find_ranges(self.function_ranges@, function_name@) {
                    Some(rs) => spec_in_ranges(address, rs),
                    None => false,
                }
            },
    {
        match self.get_function_ranges(function_name) {
            Some(rs) => Self::in_ranges(address, rs),
            None => false,
        }
    }
}

impl Default for DwarfParser {
    /// The empty store.
    fn default() -> (r: Self)
        ensures
            r.address_to_location@.len() == 0,
            r.function_ranges@.len() == 0,
            spec_dwarf_wf(&r),
    {
        DwarfParser::new()
    }
}

proof fn lemma_find_loc_at(s: Seq<(u64, SourceLocation)>, i: int)
    requires
        0 <= i < s.len(),
        forall|k: int| 0 <= k < i ==> (#[trigger] s[k]).0 != s[i].0,
    ensures
        spec_find_loc(s, s[i].0) == Some(s[i].1),
    decreases i,
{
    if i == 0 {
    } else {
        assert(s.skip(1)[i - 1] == s[i]);
        assert(forall|k: int|
            0 <= k < i - 1 ==> (#[trigger] s.skip(1)[k]).0 == s[k + 1].0);
        lemma_find_loc_at(s.skip(1), i - 1);
    }
}

proof fn lemma_find_loc_none(s: Seq<(u64, SourceLocation)>, a: u64)
    requires
        forall|k: int| 0 <= k < s.len() ==> (#[trigger] s[k]).0 != a,
    ensures
        spec_find_loc(s, a) is None,
    decreases s.len(),
{
    if s.len() > 0 {
        assert(forall|k: int|
            0 <= k < s.skip(1).len() ==> (#[trigger] s.skip(1)[k]).0 == s[k + 1].0);
        lemma_find_loc_none(s.skip(1), a);
    }
}

proof fn lemma_find_loc_some_exists(s: Seq<(u64, SourceLocation)>, a: u64)
    requires
        spec_find_loc(s, a) is Some,
    ensures
        exists|i: int| 0 <= i < s.len() && (#[trigger] s[i]).0 == a,
    decreases s.len(),
{
    if s.len() > 0 {
        if s[0].0 == a {
        } else {
            lemma_find_loc_some_exists(s.skip(1), a);
            let i = choose|i: int| 0 <= i < s.skip(1).len() && (#[trigger] s.skip(1)[i]).0 == a;
            assert(s[i + 1].0 == a);
        }
    }
}

proof fn lemma_find_loc_none_rev(s: Seq<(u64, SourceLocation)>, a: u64)
    requires
        spec_find_loc(s, a) is None,
    ensures
        forall|i: int| 0 <= i < s.len() ==> (#[trigger] s[i]).0 != a,
    decreases s.len(),
{
    if s.len() > 0 {
        lemma_find_loc_none_rev(s.skip(1), a);
        assert forall|i: int| 0 <= i < s.len() implies (#[trigger] s[i]).0 != a by {
            if i > 0 {
                assert(s.skip(1)[i - 1] == s[i]);
            }
        }
    }
}

proof fn lemma_find_loc_update(
    olds: Seq<(u64, SourceLocation)>,
    news: Seq<(u64, SourceLocation)>,
    i: int,
    a: u64,
)
    requires
        0 <= i < olds.len(),
        news.len() == olds.len(),
        forall|k: int| 0 <= k < olds.len() && k != i ==> #[trigger] news[k] == olds[k],
        news[i].0 == olds[i].0,
        a != olds[i].0,
    ensures
        spec_find_loc(news, a) == spec_find_loc(olds, a),
    decreases i,
{
    if i == 0 {
        assert(news.skip(1) =~= olds.skip(1));
    } else {
        assert(news[0] == olds[0]);
        if olds[0].0 == a {
        } else {
            assert(forall|k: int|
                0 <= k < olds.skip(1).len() && k != i - 1 ==> #[trigger] news.skip(1)[k]
                    == olds.skip(1)[k]);
            assert(news.skip(1)[i - 1].0 == olds.skip(1)[i - 1].0);
            lemma_find_loc_update(olds.skip(1), news.skip(1), i - 1, a);
        }
    }
}

proof fn lemma_find_loc_insert(
    olds: Seq<(u64, SourceLocation)>,
    news: Seq<(u64, SourceLocation)>,
    i: int,
    a: u64,
)
    requires
        0 <= i <= olds.len(),
        news.len() == olds.len() + 1,
        forall|k: int| 0 <= k < i ==> #[trigger] news[k] == olds[k],
        forall|k: int| i < k < news.len() ==> #[trigger] news[k] == olds[k - 1],
        a != news[i].0,
    ensures
        spec_find_loc(news, a) == spec_find_loc(olds, a),
    decreases i,
{
    if i == 0 {
        assert(news.skip(1) =~= olds);
    } else {
        assert(news[0] == olds[0]);
        if olds[0].0 == a {
        } else {
            assert(forall|k: int|
                0 <= k < i - 1 ==> #[trigger] news.skip(1)[k] == olds.skip(1)[k]);
            assert(forall|k: int|
                i - 1 < k < news.skip(1).len() ==> #[trigger] news.skip(1)[k] == olds.skip(1)[k
                    - 1]);
            assert(news.skip(1)[i - 1] == news[i]);
            lemma_find_loc_insert(olds.skip(1), news.skip(1), i - 1, a);
        }
    }
}

proof fn lemma_find_ranges_at(s: Seq<(String, Vec<(u64, u64)>)>, i: int)
    requires
        0 <= i < s.len(),
        forall|k: int| 0 <= k < i ==> (#[trigger] s[k]).0@ != s[i].0@,
    ensures
        spec_find_ranges(s, s[i].0@) == Some(s[i].1@),
    decreases i,
{
    if i == 0 {
    } else {
        assert(s.skip(1)[i - 1] == s[i]);
        assert(forall|k: int|
            0 <= k < i - 1 ==> (#[trigger] s.skip(1)[k]).0@ == s[k + 1].0@);
        lemma_find_ranges_at(s.skip(1), i - 1);
    }
}

proof fn lemma_find_ranges_none(s: Seq<(String, Vec<(u64, u64)>)>, name: Seq<char>)
    requires
        forall|k: int| 0 <= k < s.len() ==> (#[trigger] s[k]).0@ != name,
    ensures
        spec_find_ranges(s, name) is None,
    decreases s.len(),
{
    if s.len() > 0 {
        assert(forall|k: int|
            0 <= k < s.skip(1).len() ==> (#[trigger] s.skip(1)[k]).0@ == s[k + 1].0@);
        lemma_find_ranges_none(s.skip(1), name);
    }
}

proof fn lemma_find_ranges_update(
    olds: Seq<(String, Vec<(u64, u64)>)>,
    news: Seq<(String, Vec<(u64, u64)>)>,
    i: int,
    other: Seq<char>,
)
    requires
        0 <= i < olds.len(),
        news.len() == olds.len(),
        forall|k: int| 0 <= k < olds.len() && k != i ==> #[trigger] news[k] == olds[k],
        news[i].0@ == olds[i].0@,
        other != olds[i].0@,
    ensures
        spec_find_ranges(news, other) == spec_find_ranges(olds, other),
    decreases i,
{
    if i == 0 {
        assert(news.skip(1) =~= olds.skip(1));
    } else {
        assert(news[0] == olds[0]);
        if olds[0].0@ == other {
        } else {
            assert(forall|k: int|
                0 <= k < olds.skip(1).len() && k != i - 1 ==> #[trigger] news.skip(1)[k]
                    == olds.skip(1)[k]);
            assert(news.skip(1)[i - 1].0@ == olds.skip(1)[i - 1].0@);
            lemma_find_ranges_update(olds.skip(1), news.skip(1), i - 1, other);
        }
    }
}

proof fn lemma_find_ranges_push(
    olds: Seq<(String, Vec<(u64, u64)>)>,
    name: Seq<char>,
    ranges: Seq<(u64, u64)>,
    news: Seq<(String, Vec<(u64, u64)>)>,
)
    requires
        news.len() == olds.len() + 1,
        forall|k: int| 0 <= k < olds.len() ==> #[trigger] news[k] == olds[k],
        news[olds.len() as int].0@ == name,
        news[olds.len() as int].1@ == ranges,
        forall|k: int| 0 <= k < olds.len() ==> (#[trigger] olds[k]).0@ != name,
    ensures
        spec_find_ranges(news, name) == Some(ranges),
        forall|other: Seq<char>|
            other != name ==> #[trigger] spec_find_ranges(news, other) == spec_find_ranges(
                olds,
                other,
            ),
    decreases olds.len(),
{
    if olds.len() == 0 {
        assert(news[0].0@ == name);
        assert forall|other: Seq<char>| other != name implies #[trigger] spec_find_ranges(
            news,
            other,
        ) == spec_find_ranges(olds, other) by {
            assert(news[0].0@ != other);
            assert(news.skip(1) =~= Seq::<(String, Vec<(u64, u64)>)>::empty());
            assert(spec_find_ranges(news.skip(1), other) is None);
            assert(spec_find_ranges(olds, other) is None);
        }
    } else {
        assert(news[0] == olds[0]);
        assert(forall|k: int|
            0 <= k < olds.skip(1).len() ==> #[trigger] news.skip(1)[k] == olds.skip(1)[k]);
        assert(news.skip(1)[olds.len() - 1] == news[olds.len() as int]);
        assert(forall|k: int|
            0 <= k < olds.skip(1).len() ==> (#[trigger] olds.skip(1)[k]).0@ == olds[k + 1].0@);
        lemma_find_ranges_push(olds.skip(1), name, ranges, news.skip(1));
        assert(olds[0].0@ != name);
        assert forall|other: Seq<char>| other != name implies #[trigger] spec_find_ranges(
            news,
            other,
        ) == spec_find_ranges(olds, other) by {
            assert(spec_find_ranges(news.skip(1), other) == spec_find_ranges(olds.skip(1), other));
        }
    }
}

} // verus!
