//! Verified helpers for building and reading the small textual forms the
//! profiler emits: hexadecimal and decimal renderings of counters and
//! addresses, and hexadecimal parsing for the kernel symbol listing.
use vstd::prelude::*;

verus! {

/// The character standing for one hexadecimal digit value below 16.
pub open spec fn spec_hex_digit(d: u64) -> char {
    if d == 0 {
        '0'
    } else if d == 1 {
        '1'
    } else if d == 2 {
        '2'
    } else if d == 3 {
        '3'
    } else if d == 4 {
        '4'
    } else if d == 5 {
        '5'
    } else if d == 6 {
        '6'
    } else if d == 7 {
        '7'
    } else if d == 8 {
        '8'
    } else if d == 9 {
        '9'
    } else if d == 10 {
        'a'
    } else if d == 11 {
        'b'
    } else if d == 12 {
        'c'
    } else if d == 13 {
        'd'
    } else if d == 14 {
        'e'
    } else {
        'f'
    }
}

/// Lower-case hexadecimal rendering of `n`, without a prefix and without
/// leading zeros (a single `0` for zero itself).
pub open spec fn spec_hex(n: u64) -> Seq<char>
    decreases n,
{
    if n < 16 {
        seq![spec_hex_digit(n)]
    } else {
        spec_hex(n / 16).push(spec_hex_digit(n % 16))
    }
}

/// Decimal rendering of `n` without leading zeros.
pub open spec fn spec_dec(n: u64) -> Seq<char>
    decreases n,
{
    if n < 10 {
        seq![spec_hex_digit(n)]
    } else {
        spec_dec(n / 10).push(spec_hex_digit(n % 10))
    }
}

fn digit_str(d: u64) -> (r: &'static str)
    requires
        d < 16,
    ensures
        r@ =~= seq![spec_hex_digit(d)],
{
    proof {
        reveal_strlit("0");
        reveal_strlit("1");
        reveal_strlit("2");
        reveal_strlit("3");
        reveal_strlit("4");
        reveal_strlit("5");
        reveal_strlit("6");
        reveal_strlit("7");
        reveal_strlit("8");
        reveal_strlit("9");
        reveal_strlit("a");
        reveal_strlit("b");
        reveal_strlit("c");
        reveal_strlit("d");
        reveal_strlit("e");
        reveal_strlit("f");
    }
    if d == 0 {
        "0"
    } else if d == 1 {
        "1"
    } else if d == 2 {
        "2"
    } else if d == 3 {
        "3"
    } else if d == 4 {
        "4"
    } else if d == 5 {
        "5"
    } else if d == 6 {
        "6"
    } else if d == 7 {
        "7"
    } else if d == 8 {
        "8"
    } else if d == 9 {
        "9"
    } else if d == 10 {
        "a"
    } else if d == 11 {
        "b"
    } else if d == 12 {
        "c"
    } else if d == 13 {
        "d"
    } else if d == 14 {
        "e"
    } else {
        "f"
    }
}

/// Renders `n` in lower-case hexadecimal, as `format!("{:x}", n)` would.
pub fn hex_string(n: u64) -> (r: String)
    ensures
        r@ == spec_hex(n),
    decreases n,
{
    if n < 16 {
        digit_str(n).to_owned()
    } else {
        let prefix = hex_string(n / 16);
        prefix.concat(digit_str(n % 16))
    }
}

/// Renders `n` in decimal, as `format!("{}", n)` would.
pub fn dec_string(n: u64) -> (r: String)
    ensures
        r@ == spec_dec(n),
    decreases n,
{
    if n < 10 {
        digit_str(n).to_owned()
    } else {
        let prefix = dec_string(n / 10);
        prefix.concat(digit_str(n % 10))
    }
}

/// The numeric value of a hexadecimal digit character, or 16 when the
/// character is not one.
pub open spec fn spec_hex_val(c: char) -> u64 {
    if c == '0' {
        0
    } else if c == '1' {
        1
    } else if c == '2' {
        2
    } else if c == '3' {
        3
    } else if c == '4' {
        4
    } else if c == '5' {
        5
    } else if c == '6' {
        6
    } else if c == '7' {
        7
    } else if c == '8' {
        8
    } else if c == '9' {
        9
    } else if c == 'a' || c == 'A' {
        10
    } else if c == 'b' || c == 'B' {
        11
    } else if c == 'c' || c == 'C' {
        12
    } else if c == 'd' || c == 'D' {
        13
    } else if c == 'e' || c == 'E' {
        14
    } else if c == 'f' || c == 'F' {
        15
    } else {
        16
    }
}

fn hex_val(c: char) -> (r: u64)
    ensures
        r == spec_hex_val(c),
{
    if c == '0' {
        0
    } else if c == '1' {
        1
    } else if c == '2' {
        2
    } else if c == '3' {
        3
    } else if c == '4' {
        4
    } else if c == '5' {
        5
    } else if c == '6' {
        6
    } else if c == '7' {
        7
    } else if c == '8' {
        8
    } else if c == '9' {
        9
    } else if c == 'a' || c == 'A' {
        10
    } else if c == 'b' || c == 'B' {
        11
    } else if c == 'c' || c == 'C' {
        12
    } else if c == 'd' || c == 'D' {
        13
    } else if c == 'e' || c == 'E' {
        14
    } else if c == 'f' || c == 'F' {
        15
    } else {
        16
    }
}

/// Whether every character of `s` is a hexadecimal digit.
pub open spec fn spec_all_hex(s: Seq<char>) -> bool {
    forall|i: int| 0 <= i < s.len() ==> spec_hex_val(s[i]) < 16
}

/// The value of the hexadecimal numeral `s`, as an unbounded integer.
/// Characters that are not hexadecimal digits contribute the out-of-range
/// digit value 16; `spec_all_hex` rules them out where it matters.
pub open spec fn spec_hex_value(s: Seq<char>) -> int
    decreases s.len(),
{
    if s.len() == 0 {
        0
    } else {
        spec_hex_value(s.drop_last()) * 16 + spec_hex_val(s.last())
    }
}

pub proof fn lemma_hex_value_nonneg(s: Seq<char>)
    ensures
        spec_hex_value(s) >= 0,
    decreases s.len(),
{
    if s.len() > 0 {
        lemma_hex_value_nonneg(s.drop_last());
    }
}

/// The value of a numeral is at least the value of any of its prefixes.
pub proof fn lemma_hex_value_take_mono(s: Seq<char>, i: int)
    requires
        0 <= i <= s.len(),
    ensures
        spec_hex_value(s) >= spec_hex_value(s.take(i)),
    decreases s.len() - i,
{
    if i < s.len() {
        lemma_hex_value_take_mono(s, i + 1);
        lemma_hex_value_nonneg(s.take(i));
        assert(s.take(i + 1).drop_last() =~= s.take(i));
        assert(s.take(i + 1).last() == s[i]);
        assert(spec_hex_value(s.take(i + 1)) >= spec_hex_value(s.take(i)));
    } else {
        assert(s.take(i) =~= s);
    }
}

/// Parses a sequence of characters as a hexadecimal numeral, as
/// `u64::from_str_radix(s, 16)` does: `None` iff `s` is empty, holds a
/// character that is no hexadecimal digit, or names a value above `u64::MAX`.
pub fn parse_hex(s: &Vec<char>) -> (r: Option<u64>)
    ensures
        r is Some <==> s@.len() > 0 && spec_all_hex(s@) && spec_hex_value(s@) <= u64::MAX,
        r is Some ==> r->Some_0 == spec_hex_value(s@),
{
    if s.len() == 0 {
        return None;
    }
    let mut acc: u64 = 0;
    let mut i: usize = 0;
    while i < s.len()
        invariant
            0 <= i <= s@.len(),
            forall|j: int| 0 <= j < i ==> spec_hex_val(s@[j]) < 16,
            acc == spec_hex_value(s@.take(i as int)),
        decreases s@.len() - i,
    {
        let v = hex_val(s[i]);
        if v >= 16 {
            assert(!spec_all_hex(s@));
            return None;
        }
        proof {
            assert(s@.take(i + 1).drop_last() =~= s@.take(i as int));
            assert(s@.take(i + 1).last() == s@[i as int]);
        }
        let next = match acc.checked_mul(16) {
            Some(m) => m.checked_add(v),
            None => None,
        };
        match next {
            Some(n) => {
                acc = n;
            },
            None => {
                proof {
                    lemma_hex_value_take_mono(s@, i + 1);
                }
                return None;
            },
        }
        i = i + 1;
    }
    proof {
        assert(s@.take(i as int) =~= s@);
    }
    Some(acc)
}

/// Splits `s` into its maximal runs of non-whitespace characters, in order,
/// treating only space, tab, newline and carriage return as whitespace.
pub open spec fn spec_is_space(c: char) -> bool {
    c == ' ' || c == '\t' || c == '\n' || c == '\r'
}

pub fn is_space(c: char) -> (r: bool)
    ensures
        r == spec_is_space(c),
{
    c == ' ' || c == '\t' || c == '\n' || c == '\r'
}

/// Collects the characters of `s` into a vector, so that verified code can
/// index them freely.
pub fn str_chars(s: &str) -> (r: Vec<char>)
    ensures
        r@ == s@,
{
    let n = s.unicode_len();
    let mut r: Vec<char> = Vec::new();
    let mut i: usize = 0;
    while i < n
        invariant
            n == s@.len(),
            0 <= i <= n,
            r@ =~= s@.take(i as int),
        decreases n - i,
    {
        let c = s.get_char(i);
        r.push(c);
        proof {
            assert(r@ =~= s@.take(i as int + 1));
        }
        i = i + 1;
    }
    proof {
        assert(s@.take(n as int) =~= s@);
    }
    r
}

/// The character sequences a vector of character vectors holds.
pub open spec fn spec_views(r: Seq<Vec<char>>) -> Seq<Seq<char>> {
    Seq::new(r.len(), |i: int| r[i]@)
}

/// Splits the characters of `s` at whitespace: exactly the maximal
/// nonempty runs of non-whitespace characters, in order.
#[verifier::rlimit(100)]
#[verifier::spinoff_prover]
pub fn split_whitespace_chars(s: &Vec<char>) -> (r: Vec<Vec<char>>)
    ensures
        spec_views(r@) == spec_fields(s@),
        forall|k: int|
            0 <= k < r@.len() ==> (#[trigger] r@[k]@.len()) > 0 && forall|j: int|
                0 <= j < r@[k]@.len() ==> !spec_is_space(#[trigger] r@[k]@[j]),
{
    let ghost full = s@;
    let mut r: Vec<Vec<char>> = Vec::new();
    let mut cur: Vec<char> = Vec::new();
    let mut i: usize = 0;
    proof {
        assert(cur@ + full.skip(0) =~= full);
        assert(spec_views(r@) + spec_fields(full) =~= spec_fields(full));
    }
    while i < s.len()
        invariant
            full == s@,
            0 <= i <= full.len(),
            spec_no_space(cur@),
            spec_views(r@) + spec_fields(cur@ + full.skip(i as int)) =~= spec_fields(full),
            forall|k: int|
                0 <= k < r@.len() ==> (#[trigger] r@[k]@.len()) > 0 && forall|j: int|
                    0 <= j < r@[k]@.len() ==> !spec_is_space(#[trigger] r@[k]@[j]),
        decreases full.len() - i,
    {
        let ghost u = cur@ + full.skip(i as int);
        proof {
            assert(u[cur@.len() as int] == full[i as int]);
        }
        let c = s[i];
        if is_space(c) {
            if cur.len() > 0 {
                proof {
                    assert(u[0] == cur@[0]);
                    assert(u.take(cur@.len() as int) =~= cur@);
                    lemma_fields_unfold(u, cur@.len() as int);
                    assert(u.skip(cur@.len() as int) =~= full.skip(i as int));
                    assert(full.skip(i as int)[0] == full[i as int]);
                    assert(full.skip(i as int).skip(1) =~= full.skip(i + 1));
                }
                r.push(cur);
                cur = Vec::new();
                proof {
                    assert(spec_views(r@) =~= spec_views(r@.drop_last()) + seq![
                        r@[r@.len() - 1]@,
                    ]);
                    assert(cur@ + full.skip(i + 1) =~= full.skip(i + 1));
                    assert(spec_views(r@) + spec_fields(cur@ + full.skip(i + 1)) =~= spec_fields(
                        full,
                    ));
                }
            } else {
                proof {
                    assert(u =~= full.skip(i as int));
                    assert(full.skip(i as int)[0] == full[i as int]);
                    assert(full.skip(i as int).skip(1) =~= full.skip(i + 1));
                    assert(cur@ + full.skip(i + 1) =~= full.skip(i + 1));
                }
            }
        } else {
            cur.push(c);
            proof {
                assert(cur@ + full.skip(i + 1) =~= u);
            }
        }
        i = i + 1;
    }
    proof {
        assert(cur@ + full.skip(full.len() as int) =~= cur@);
    }
    if cur.len() > 0 {
        proof {
            lemma_fields_single(cur@);
        }
        r.push(cur);
        proof {
            assert(spec_views(r@) =~= spec_views(r@.drop_last()) + seq![r@[r@.len() - 1]@]);
        }
    }
    proof {
        assert(spec_views(r@) =~= spec_views(r@) + spec_fields(Seq::<char>::empty()));
    }
    r
}

/// Splits the characters of `s` at newline characters: exactly the lines
/// of `spec_lines`, empty lines kept, a final (possibly empty) line after
/// the last newline.
#[verifier::rlimit(100)]
#[verifier::spinoff_prover]
pub fn split_lines_chars(s: &Vec<char>) -> (r: Vec<Vec<char>>)
    ensures
        spec_views(r@) == spec_lines(s@),
        forall|k: int, j: int|
            0 <= k < r@.len() && 0 <= j < r@[k]@.len() ==> (#[trigger] r@[k]@[j]) != '\n',
{
    let ghost full = s@;
    let mut r: Vec<Vec<char>> = Vec::new();
    let mut cur: Vec<char> = Vec::new();
    let mut i: usize = 0;
    proof {
        assert(cur@ + full.skip(0) =~= full);
        assert(spec_views(r@) + spec_lines(full) =~= spec_lines(full));
    }
    while i < s.len()
        invariant
            full == s@,
            0 <= i <= full.len(),
            forall|j: int| 0 <= j < cur@.len() ==> (#[trigger] cur@[j]) != '\n',
            spec_views(r@) + spec_lines(cur@ + full.skip(i as int)) =~= spec_lines(full),
            forall|k: int, j: int|
                0 <= k < r@.len() && 0 <= j < r@[k]@.len() ==> (#[trigger] r@[k]@[j]) != '\n',
        decreases full.len() - i,
    {
        let ghost u = cur@ + full.skip(i as int);
        proof {
            assert(u[cur@.len() as int] == full[i as int]);
        }
        let c = s[i];
        if c == '\n' {
            proof {
                assert(forall|k: int| 0 <= k < cur@.len() ==> u[k] == (#[trigger] cur@[k]));
                lemma_lines_unfold(u, cur@.len() as int);
                assert(u.take(cur@.len() as int) =~= cur@);
                assert(u.skip(cur@.len() as int + 1) =~= full.skip(i + 1));
            }
            r.push(cur);
            cur = Vec::new();
            proof {
                assert(spec_views(r@) =~= spec_views(r@.drop_last()) + seq![r@[r@.len() - 1]@]);
                assert(cur@ + full.skip(i + 1) =~= full.skip(i + 1));
                assert(spec_views(r@) + spec_lines(cur@ + full.skip(i + 1)) =~= spec_lines(full));
            }
        } else {
            cur.push(c);
            proof {
                assert(cur@ + full.skip(i + 1) =~= u);
            }
        }
        i = i + 1;
    }
    proof {
        assert(cur@ + full.skip(full.len() as int) =~= cur@);
        if exists|p: int|
            0 <= p < cur@.len() && cur@[p] == '\n' && (forall|k: int|
                0 <= k < p ==> cur@[k] != '\n') {
            let p = choose|p: int|
                0 <= p < cur@.len() && cur@[p] == '\n' && (forall|k: int|
                    0 <= k < p ==> cur@[k] != '\n');
            assert(cur@[p] != '\n');
        }
        assert(spec_lines(cur@) == seq![cur@]);
    }
    r.push(cur);
    proof {
        assert(spec_views(r@) =~= spec_views(r@.drop_last()) + seq![r@[r@.len() - 1]@]);
    }
    r
}

/// Builds a `String` back out of a vector of characters.
pub fn chars_to_string(s: &Vec<char>) -> (r: String)
    ensures
        r@ == s@,
{
    let ghost full = s@;
    let mut r = String::new();
    let mut i: usize = 0;
    while i < s.len()
        invariant
            s@ == full,
            0 <= i <= s@.len(),
            r@ =~= s@.take(i as int),
        decreases s@.len() - i,
    {
        let one = char_to_string(s[i]);
        r.append(one.as_str());
        proof {
            assert(r@ =~= s@.take(i as int + 1));
        }
        i = i + 1;
    }
    proof {
        assert(s@.take(s@.len() as int) =~= s@);
    }
    r
}

/// Relies on `String::from` for `char`: the returned string holds exactly
/// the one given character.
#[verifier::external_body]
pub fn char_to_string(c: char) -> (r: String)
    ensures
        r@ =~= seq![c],
{
    String::from(c)
}

/// What the replacement-lossy UTF-8 decoding of a byte sequence reads as.
pub uninterp spec fn utf8_of(b: Seq<u8>) -> Seq<char>;

/// Whether every byte is in the seven-bit range.
pub open spec fn spec_ascii_bytes(b: Seq<u8>) -> bool {
    forall|i: int| 0 <= i < b.len() ==> b[i] < 128
}

/// The characters a seven-bit byte sequence reads as.
pub open spec fn spec_bytes_as_chars(b: Seq<u8>) -> Seq<char> {
    Seq::new(b.len(), |i: int| b[i] as char)
}

/// Relies on `String::from_utf8_lossy`: the result is a function of the
/// bytes alone; an empty input gives an empty string; seven-bit bytes are
/// valid UTF-8 and decode to themselves.
#[verifier::external_body]
pub fn string_from_utf8_lossy(b: &Vec<u8>) -> (r: String)
    ensures
        r@ == utf8_of(b@),
        b@.len() == 0 ==> r@.len() == 0,
        spec_ascii_bytes(b@) ==> r@ == spec_bytes_as_chars(b@),
{
    String::from_utf8_lossy(b).into_owned()
}

/// Relies on `String::from_utf8`: on success the result is the UTF-8
/// reading of the bytes, which agrees with the replacement-lossy reading;
/// seven-bit bytes are always valid UTF-8.
#[verifier::external_body]
pub fn string_from_utf8(b: Vec<u8>) -> (r: Option<String>)
    ensures
        r is Some ==> r->Some_0@ == utf8_of(b@),
        spec_ascii_bytes(b@) ==> r is Some && r->Some_0@ == spec_bytes_as_chars(b@),
        b@.len() == 0 ==> r is Some && r->Some_0@.len() == 0,
{
    String::from_utf8(b).ok()
}

/// Compares two string slices character by character.
pub fn str_eq(a: &str, b: &str) -> (r: bool)
    ensures
        r == (a@ == b@),
{
    let na = a.unicode_len();
    let nb = b.unicode_len();
    if na != nb {
        return false;
    }
    let mut i: usize = 0;
    while i < na
        invariant
            na == a@.len(),
            nb == b@.len(),
            na == nb,
            0 <= i <= na,
            forall|j: int| 0 <= j < i ==> a@[j] == b@[j],
        decreases na - i,
    {
        if a.get_char(i) != b.get_char(i) {
            return false;
        }
        i = i + 1;
    }
    proof {
        assert(a@ =~= b@);
    }
    true
}

/// The numeric value of a decimal digit character, or 10 when the
/// character is not one.
pub open spec fn spec_dec_val(c: char) -> u64 {
    if spec_hex_val(c) < 10 {
        spec_hex_val(c)
    } else {
        10
    }
}

/// Whether every character of `s` is a decimal digit.
pub open spec fn spec_all_dec(s: Seq<char>) -> bool {
    forall|i: int| 0 <= i < s.len() ==> spec_dec_val(s[i]) < 10
}

/// The value of the decimal numeral `s`, as an unbounded integer.
pub open spec fn spec_dec_value(s: Seq<char>) -> int
    decreases s.len(),
{
    if s.len() == 0 {
        0
    } else {
        spec_dec_value(s.drop_last()) * 10 + spec_dec_val(s.last())
    }
}

proof fn lemma_dec_value_nonneg(s: Seq<char>)
    ensures
        spec_dec_value(s) >= 0,
    decreases s.len(),
{
    if s.len() > 0 {
        lemma_dec_value_nonneg(s.drop_last());
    }
}

proof fn lemma_dec_value_take_mono(s: Seq<char>, i: int)
    requires
        0 <= i <= s.len(),
    ensures
        spec_dec_value(s) >= spec_dec_value(s.take(i)),
    decreases s.len() - i,
{
    if i < s.len() {
        lemma_dec_value_take_mono(s, i + 1);
        lemma_dec_value_nonneg(s.take(i));
        assert(s.take(i + 1).drop_last() =~= s.take(i));
        assert(s.take(i + 1).last() == s[i]);
    } else {
        assert(s.take(i) =~= s);
    }
}

/// Parses a sequence of characters as a decimal numeral, as
/// `u32::from_str` does for plain digit strings: `None` iff `s` is empty,
/// holds a non-digit, or names a value above `u32::MAX`.
pub fn parse_dec_u32(s: &Vec<char>) -> (r: Option<u32>)
    ensures
        r is Some <==> s@.len() > 0 && spec_all_dec(s@) && spec_dec_value(s@) <= u32::MAX,
        r is Some ==> r->Some_0 == spec_dec_value(s@),
{
    if s.len() == 0 {
        return None;
    }
    let mut acc: u32 = 0;
    let mut i: usize = 0;
    while i < s.len()
        invariant
            0 <= i <= s@.len(),
            forall|j: int| 0 <= j < i ==> spec_dec_val(s@[j]) < 10,
            acc == spec_dec_value(s@.take(i as int)),
        decreases s@.len() - i,
    {
        let v = hex_val(s[i]);
        if v >= 10 {
            assert(!spec_all_dec(s@));
            return None;
        }
        proof {
            assert(s@.take(i + 1).drop_last() =~= s@.take(i as int));
            assert(s@.take(i + 1).last() == s@[i as int]);
        }
        let next = match acc.checked_mul(10) {
            Some(m) => m.checked_add(v as u32),
            None => None,
        };
        match next {
            Some(n) => {
                acc = n;
            },
            None => {
                proof {
                    lemma_dec_value_take_mono(s@, i + 1);
                }
                return None;
            },
        }
        i = i + 1;
    }
    proof {
        assert(s@.take(i as int) =~= s@);
    }
    Some(acc)
}

/// The lines of `s`: maximal runs between newline characters, empty runs
/// kept, one final (possibly empty) line after the last newline.
pub open spec fn spec_lines(s: Seq<char>) -> Seq<Seq<char>>
    decreases s.len(),
{
    if exists|p: int|
        0 <= p < s.len() && s[p] == '\n' && (forall|k: int| 0 <= k < p ==> s[k] != '\n') {
        let p = choose|p: int|
            0 <= p < s.len() && s[p] == '\n' && (forall|k: int| 0 <= k < p ==> s[k] != '\n');
        seq![s.take(p)] + spec_lines(s.skip(p + 1))
    } else {
        seq![s]
    }
}

/// The split really happens at the first newline.
proof fn lemma_lines_unfold(s: Seq<char>, p: int)
    requires
        0 <= p < s.len(),
        s[p] == '\n',
        forall|k: int| 0 <= k < p ==> s[k] != '\n',
    ensures
        spec_lines(s) == seq![s.take(p)] + spec_lines(s.skip(p + 1)),
{
    assert(exists|q: int|
        0 <= q < s.len() && s[q] == '\n' && (forall|k: int| 0 <= k < q ==> s[k] != '\n')) by {
        assert(0 <= p < s.len() && s[p] == '\n' && (forall|k: int| 0 <= k < p ==> s[k] != '\n'));
    }
    let q = choose|q: int|
        0 <= q < s.len() && s[q] == '\n' && (forall|k: int| 0 <= k < q ==> s[k] != '\n');
    if q < p {
        assert(s[q] != '\n');
    } else if p < q {
        assert(s[p] != '\n');
    }
    assert(q == p);
}

/// Whether a sequence holds no whitespace.
pub open spec fn spec_no_space(s: Seq<char>) -> bool {
    forall|j: int| 0 <= j < s.len() ==> !spec_is_space(#[trigger] s[j])
}

/// The whitespace-separated fields of `s`: its maximal nonempty runs of
/// non-whitespace characters, in order.
pub open spec fn spec_fields(s: Seq<char>) -> Seq<Seq<char>>
    decreases s.len(),
{
    if s.len() == 0 {
        Seq::empty()
    } else if spec_is_space(s[0]) {
        spec_fields(s.skip(1))
    } else if exists|e: int| 0 < e < s.len() && spec_is_space(s[e]) && spec_no_space(s.take(e)) {
        let e = choose|e: int|
            0 < e < s.len() && spec_is_space(s[e]) && spec_no_space(s.take(e));
        seq![s.take(e)] + spec_fields(s.skip(e))
    } else {
        seq![s]
    }
}

/// The field split really happens at the first whitespace character.
proof fn lemma_fields_unfold(s: Seq<char>, e: int)
    requires
        0 < e < s.len(),
        !spec_is_space(s[0]),
        spec_is_space(s[e]),
        spec_no_space(s.take(e)),
    ensures
        spec_fields(s) == seq![s.take(e)] + spec_fields(s.skip(e)),
{
    assert(exists|e2: int| 0 < e2 < s.len() && spec_is_space(s[e2]) && spec_no_space(s.take(e2)));
    let e2 = choose|e2: int|
        0 < e2 < s.len() && spec_is_space(s[e2]) && spec_no_space(s.take(e2));
    if e2 < e {
        assert(s.take(e)[e2] == s[e2]);
        assert(!spec_is_space(s[e2]));
    } else if e < e2 {
        assert(s.take(e2)[e] == s[e]);
        assert(!spec_is_space(s[e]));
    }
    assert(e2 == e);
}

/// A run with no whitespace is one whole field.
proof fn lemma_fields_single(s: Seq<char>)
    requires
        s.len() > 0,
        spec_no_space(s),
    ensures
        spec_fields(s) == seq![s],
{
    assert(!spec_is_space(s[0]));
    if exists|e: int| 0 < e < s.len() && spec_is_space(s[e]) && spec_no_space(s.take(e)) {
        let e = choose|e: int| 0 < e < s.len() && spec_is_space(s[e]) && spec_no_space(s.take(e));
        assert(!spec_is_space(s[e]));
    }
}

} // verus!
