//! Cleaning of managed-runtime function names for display: the canonical
//! replacements, and the proof that cleaning twice changes nothing more.
use vstd::prelude::*;

verus! {

/// Whether pattern `p` stands at position `i` of `s`.
pub open spec fn spec_at(s: Seq<char>, i: int, p: Seq<char>) -> bool {
    0 <= i && i + p.len() <= s.len() && s.subrange(i, i + p.len()) == p
}

/// The runtime prefix that cleaning removes.
pub open spec fn pat_runtime() -> Seq<char> {
    seq!['r', 'u', 'n', 't', 'i', 'm', 'e', '.']
}

/// The main-package prefix and what it becomes.
pub open spec fn pat_main() -> Seq<char> {
    seq!['m', 'a', 'i', 'n', '.']
}

pub open spec fn rep_main() -> Seq<char> {
    seq!['m', 'a', 'i', 'n', ':', ':']
}

/// The closure-name marker and what it becomes.
pub open spec fn pat_func() -> Seq<char> {
    seq!['.', 'f', 'u', 'n', 'c']
}

pub open spec fn rep_func() -> Seq<char> {
    seq![':', ':', 'f', 'u', 'n', 'c']
}

/// The middle-dot separator.
pub open spec fn pat_dot() -> Seq<char> {
    seq!['\u{b7}']
}

/// The path separator.
pub open spec fn pat_slash() -> Seq<char> {
    seq!['/']
}

pub open spec fn rep_colons() -> Seq<char> {
    seq![':', ':']
}

/// Whether any of the five replacement patterns stands at position `i`.
pub open spec fn spec_pat_at(s: Seq<char>, i: int) -> bool {
    spec_at(s, i, pat_runtime()) || spec_at(s, i, pat_main()) || spec_at(s, i, pat_func())
        || spec_at(s, i, pat_dot()) || spec_at(s, i, pat_slash())
}

/// Whether no replacement pattern stands anywhere in `s`.
pub open spec fn spec_pattern_free(s: Seq<char>) -> bool {
    forall|i: int| !spec_pat_at(s, i)
}

/// Whether `s` holds `p` anywhere.
pub open spec fn spec_contains(s: Seq<char>, p: Seq<char>) -> bool {
    exists|i: int| spec_at(s, i, p)
}

/// One cleaning pass: at each position the first applicable replacement is
/// taken, in the canonical order; other characters are copied.
pub open spec fn spec_clean(s: Seq<char>) -> Seq<char>
    decreases s.len(),
{
    if s.len() == 0 {
        Seq::empty()
    } else if spec_at(s, 0, pat_runtime()) {
        spec_clean(s.skip(8))
    } else if spec_at(s, 0, pat_main()) {
        rep_main() + spec_clean(s.skip(5))
    } else if spec_at(s, 0, pat_func()) {
        rep_func() + spec_clean(s.skip(5))
    } else if s[0] == '\u{b7}' || s[0] == '/' {
        rep_colons() + spec_clean(s.skip(1))
    } else {
        seq![s[0]] + spec_clean(s.skip(1))
    }
}

/// The bracketed form a leftover hexadecimal address is rewritten to.
pub open spec fn unknown_prefix() -> Seq<char> {
    seq!['[', 'u', 'n', 'k', 'n', 'o', 'w', 'n', ':']
}

/// The whole cleaning: one pass, then the rewrite of a result that still
/// reads as a hexadecimal address.
pub open spec fn spec_clean_full(s: Seq<char>) -> Seq<char> {
    let c = spec_clean(s);
    if c.len() >= 2 && c[0] == '0' && c[1] == 'x' {
        let cut = if c.len() < 10 {
            c.len() as int
        } else {
            10
        };
        unknown_prefix() + c.subrange(2, cut) + seq![']']
    } else {
        c
    }
}

/// Whether `q` holds no colon; replacements emit colons, so a colon-free
/// prefix of a cleaned string must have been copied from the input.
pub open spec fn spec_colon_free(q: Seq<char>) -> bool {
    forall|j: int| 0 <= j < q.len() ==> q[j] != ':'
}

proof fn lemma_at_shift(s: Seq<char>, a: int, i: int, p: Seq<char>)
    requires
        0 <= a <= s.len(),
        0 <= i,
    ensures
        spec_at(s.skip(a), i, p) == spec_at(s, a + i, p),
{
    if spec_at(s.skip(a), i, p) {
        assert(s.skip(a).subrange(i, i + p.len()) =~= s.subrange(a + i, a + i + p.len()));
    }
    if spec_at(s, a + i, p) {
        assert(s.subrange(a + i, a + i + p.len()) =~= s.skip(a).subrange(i, i + p.len()));
    }
}

proof fn lemma_contains_skip(s: Seq<char>, a: int, p: Seq<char>)
    requires
        0 <= a <= s.len(),
        !spec_contains(s, p),
    ensures
        !spec_contains(s.skip(a), p),
{
    assert forall|i: int| !spec_at(s.skip(a), i, p) by {
        if 0 <= i {
            lemma_at_shift(s, a, i, p);
        }
    }
}

/// Copying is all one pass does to a pattern-free string.
pub proof fn lemma_clean_pattern_free_id(s: Seq<char>)
    requires
        spec_pattern_free(s),
    ensures
        spec_clean(s) == s,
    decreases s.len(),
{
    if s.len() == 0 {
        assert(spec_clean(s) =~= s);
    } else {
        assert(!spec_pat_at(s, 0));
        assert(s.subrange(0, 1) =~= seq![s[0]]);
        assert forall|i: int| !spec_pat_at(s.skip(1), i) by {
            if 0 <= i {
                lemma_at_shift(s, 1, i, pat_runtime());
                lemma_at_shift(s, 1, i, pat_main());
                lemma_at_shift(s, 1, i, pat_func());
                lemma_at_shift(s, 1, i, pat_dot());
                lemma_at_shift(s, 1, i, pat_slash());
                assert(!spec_pat_at(s, 1 + i));
            }
        }
        lemma_clean_pattern_free_id(s.skip(1));
        assert(spec_clean(s) =~= s);
    }
}

/// A colon-free prefix of a cleaned string is a prefix of the input: every
/// replacement emits a colon within its first six characters, so `q` must
/// have been copied.
proof fn lemma_prefix_reflect(t: Seq<char>, q: Seq<char>)
    requires
        !spec_contains(t, pat_runtime()),
        spec_colon_free(q),
        spec_at(spec_clean(t), 0, q),
    ensures
        spec_at(t, 0, q),
    decreases t.len(),
{
    let c = spec_clean(t);
    assert(c.subrange(0, q.len() as int) == q);
    if q.len() == 0 {
        assert(t.subrange(0, 0) =~= q);
    } else if t.len() == 0 {
        assert(false);
    } else if spec_at(t, 0, pat_runtime()) {
        assert(spec_contains(t, pat_runtime()));
        assert(false);
    } else if spec_at(t, 0, pat_main()) {
        // The output starts "main::"; a colon-free q fits inside "main",
        // which the input starts with as well.
        assert(c == rep_main() + spec_clean(t.skip(5)));
        if q.len() >= 5 {
            assert(q[4] == c[4]);
            assert(c[4] == ':');
            assert(false);
        }
        assert forall|j: int| 0 <= j < q.len() implies t[j] == q[j] by {
            assert(q[j] == c[j]);
            assert(c[j] == rep_main()[j]);
            assert(t.subrange(0, 5) == pat_main());
            assert(t[j] == pat_main()[j]);
        }
        assert(t.subrange(0, q.len() as int) =~= q);
    } else if spec_at(t, 0, pat_func()) {
        assert(c == rep_func() + spec_clean(t.skip(5)));
        assert(q[0] == c[0]);
        assert(c[0] == ':');
        assert(false);
    } else if t[0] == '\u{b7}' || t[0] == '/' {
        assert(c == rep_colons() + spec_clean(t.skip(1)));
        assert(q[0] == c[0]);
        assert(c[0] == ':');
        assert(false);
    } else {
        assert(c == seq![t[0]] + spec_clean(t.skip(1)));
        assert(q[0] == c[0]);
        assert(c[0] == t[0]);
        lemma_contains_skip(t, 1, pat_runtime());
        let q2 = q.skip(1);
        assert(spec_colon_free(q2));
        assert(spec_at(spec_clean(t.skip(1)), 0, q2)) by {
            assert(spec_clean(t.skip(1)).subrange(0, q2.len() as int) =~= q2) by {
                assert forall|j: int| 0 <= j < q2.len() implies spec_clean(t.skip(1))[j] == q2[j] by {
                    assert(q2[j] == q[j + 1]);
                    assert(q[j + 1] == c[j + 1]);
                    assert(c[j + 1] == spec_clean(t.skip(1))[j]);
                }
            }
        }
        lemma_prefix_reflect(t.skip(1), q2);
        assert(t.skip(1).subrange(0, q2.len() as int) == q2);
        assert(t.subrange(0, q.len() as int) =~= q) by {
            assert forall|j: int| 0 <= j < q.len() implies t[j] == q[j] by {
                if j == 0 {
                } else {
                    assert(t.skip(1).subrange(0, q2.len() as int)[j - 1] == q2[j - 1]);
                    assert(t.skip(1)[j - 1] == t[j]);
                    assert(q2[j - 1] == q[j]);
                }
            }
        }
    }
}

/// After shifting past an emitted block of `b` characters, patterns in the
/// concatenation live in the tail.
proof fn lemma_pat_at_concat(b: Seq<char>, c: Seq<char>, i: int, p: Seq<char>)
    requires
        b.len() <= i,
    ensures
        spec_at(b + c, i, p) == spec_at(c, i - b.len(), p),
{
    if spec_at(b + c, i, p) {
        assert((b + c).subrange(i, i + p.len()) =~= c.subrange(i - b.len(), i - b.len() + p.len()));
    }
    if spec_at(c, i - b.len(), p) {
        assert(c.subrange(i - b.len(), i - b.len() + p.len()) =~= (b + c).subrange(i, i + p.len()));
    }
}

proof fn lemma_pat_shift_tail(b: Seq<char>, c: Seq<char>, i: int)
    requires
        b.len() <= i,
    ensures
        spec_pat_at(b + c, i) == spec_pat_at(c, i - b.len()),
{
    lemma_pat_at_concat(b, c, i, pat_runtime());
    lemma_pat_at_concat(b, c, i, pat_main());
    lemma_pat_at_concat(b, c, i, pat_func());
    lemma_pat_at_concat(b, c, i, pat_dot());
    lemma_pat_at_concat(b, c, i, pat_slash());
}

/// A cleaned string holds no pattern, as long as the input never held the
/// runtime prefix (whose removal could otherwise fuse the surrounding text
/// into a new pattern).
pub proof fn lemma_clean_pattern_free(s: Seq<char>)
    requires
        !spec_contains(s, pat_runtime()),
    ensures
        spec_pattern_free(spec_clean(s)),
    decreases s.len(),
{
    let c = spec_clean(s);
    if s.len() == 0 {
    } else if spec_at(s, 0, pat_runtime()) {
        assert(spec_contains(s, pat_runtime()));
    } else if spec_at(s, 0, pat_main()) {
        lemma_contains_skip(s, 5, pat_runtime());
        lemma_clean_pattern_free(s.skip(5));
        let c2 = spec_clean(s.skip(5));
        assert(c == rep_main() + c2);
        assert forall|i: int| !spec_pat_at(c, i) by {
            if 0 <= i < c.len() {
                if i >= 6 {
                    lemma_pat_shift_tail(rep_main(), c2, i);
                    assert(!spec_pat_at(c2, i - 6));
                } else {
                    // Within "main::": no pattern starts on these characters;
                    // the one candidate, the main prefix at zero, meets a
                    // colon where it needs its dot.
                    assert(c[0] == 'm' && c[1] == 'a' && c[2] == 'i' && c[3] == 'n' && c[4] == ':'
                        && c[5] == ':');
                    if spec_at(c, i, pat_runtime()) {
                        assert(c.subrange(i, i + 8)[0] == c[i]);
                        assert(c[i] == 'r');
                        assert(false);
                    }
                    if spec_at(c, i, pat_main()) {
                        assert(c.subrange(i, i + 5)[0] == c[i]);
                        assert(c[i] == 'm');
                        assert(i == 0);
                        assert(c.subrange(0, 5)[4] == c[4]);
                        assert(c[4] == '.');
                        assert(false);
                    }
                    if spec_at(c, i, pat_func()) {
                        assert(c.subrange(i, i + 5)[0] == c[i]);
                        assert(c[i] == '.');
                        assert(false);
                    }
                    if spec_at(c, i, pat_dot()) {
                        assert(c.subrange(i, i + 1)[0] == c[i]);
                        assert(c[i] == '\u{b7}');
                        assert(false);
                    }
                    if spec_at(c, i, pat_slash()) {
                        assert(c.subrange(i, i + 1)[0] == c[i]);
                        assert(c[i] == '/');
                        assert(false);
                    }
                }
            }
        }
    } else if spec_at(s, 0, pat_func()) {
        lemma_contains_skip(s, 5, pat_runtime());
        lemma_clean_pattern_free(s.skip(5));
        let c2 = spec_clean(s.skip(5));
        assert(c == rep_func() + c2);
        assert forall|i: int| !spec_pat_at(c, i) by {
            if 0 <= i < c.len() {
                if i >= 6 {
                    lemma_pat_shift_tail(rep_func(), c2, i);
                    assert(!spec_pat_at(c2, i - 6));
                } else {
                    assert(c[0] == ':' && c[1] == ':' && c[2] == 'f' && c[3] == 'u' && c[4] == 'n'
                        && c[5] == 'c');
                    if spec_at(c, i, pat_runtime()) {
                        assert(c.subrange(i, i + 8)[0] == c[i]);
                        assert(c[i] == 'r');
                        assert(false);
                    }
                    if spec_at(c, i, pat_main()) {
                        assert(c.subrange(i, i + 5)[0] == c[i]);
                        assert(c[i] == 'm');
                        assert(false);
                    }
                    if spec_at(c, i, pat_func()) {
                        assert(c.subrange(i, i + 5)[0] == c[i]);
                        assert(c[i] == '.');
                        assert(false);
                    }
                    if spec_at(c, i, pat_dot()) {
                        assert(c.subrange(i, i + 1)[0] == c[i]);
                        assert(c[i] == '\u{b7}');
                        assert(false);
                    }
                    if spec_at(c, i, pat_slash()) {
                        assert(c.subrange(i, i + 1)[0] == c[i]);
                        assert(c[i] == '/');
                        assert(false);
                    }
                }
            }
        }
    } else if s[0] == '\u{b7}' || s[0] == '/' {
        lemma_contains_skip(s, 1, pat_runtime());
        lemma_clean_pattern_free(s.skip(1));
        let c2 = spec_clean(s.skip(1));
        assert(c == rep_colons() + c2);
        assert forall|i: int| !spec_pat_at(c, i) by {
            if 0 <= i < c.len() {
                if i >= 2 {
                    lemma_pat_shift_tail(rep_colons(), c2, i);
                    assert(!spec_pat_at(c2, i - 2));
                } else {
                    assert(c[0] == ':' && c[1] == ':');
                    if spec_at(c, i, pat_runtime()) {
                        assert(c.subrange(i, i + 8)[0] == c[i]);
                        assert(c[i] == 'r');
                        assert(false);
                    }
                    if spec_at(c, i, pat_main()) {
                        assert(c.subrange(i, i + 5)[0] == c[i]);
                        assert(c[i] == 'm');
                        assert(false);
                    }
                    if spec_at(c, i, pat_func()) {
                        assert(c.subrange(i, i + 5)[0] == c[i]);
                        assert(c[i] == '.');
                        assert(false);
                    }
                    if spec_at(c, i, pat_dot()) {
                        assert(c.subrange(i, i + 1)[0] == c[i]);
                        assert(c[i] == '\u{b7}');
                        assert(false);
                    }
                    if spec_at(c, i, pat_slash()) {
                        assert(c.subrange(i, i + 1)[0] == c[i]);
                        assert(c[i] == '/');
                        assert(false);
                    }
                }
            }
        }
    } else {
        lemma_contains_skip(s, 1, pat_runtime());
        lemma_clean_pattern_free(s.skip(1));
        let c2 = spec_clean(s.skip(1));
        assert(c == seq![s[0]] + c2);
        assert forall|i: int| !spec_pat_at(c, i) by {
            if 0 <= i < c.len() {
                if i >= 1 {
                    lemma_pat_shift_tail(seq![s[0]], c2, i);
                    assert(!spec_pat_at(c2, i - 1));
                } else {
                    // A pattern opening on the copied character would have
                    // been copied in full: its colon-free remainder reflects
                    // back into the input, where it would have matched.
                    assert(c[0] == s[0]);
                    if spec_at(c, 0, pat_runtime()) {
                        pattern_reflect_contra(s, c, c2, pat_runtime());
                        assert(spec_contains(s, pat_runtime()));
                        assert(false);
                    }
                    if spec_at(c, 0, pat_main()) {
                        pattern_reflect_contra(s, c, c2, pat_main());
                        assert(spec_at(s, 0, pat_main()));
                        assert(false);
                    }
                    if spec_at(c, 0, pat_func()) {
                        pattern_reflect_contra(s, c, c2, pat_func());
                        assert(spec_at(s, 0, pat_func()));
                        assert(false);
                    }
                    if spec_at(c, 0, pat_dot()) {
                        assert(c.subrange(0, 1)[0] == c[0]);
                        assert(s[0] == '\u{b7}');
                        assert(false);
                    }
                    if spec_at(c, 0, pat_slash()) {
                        assert(c.subrange(0, 1)[0] == c[0]);
                        assert(s[0] == '/');
                        assert(false);
                    }
                }
            }
        }
    }
}

/// In the copying branch, a pattern at the head of the output reflects to
/// the head of the input.
proof fn pattern_reflect_contra(s: Seq<char>, c: Seq<char>, c2: Seq<char>, p: Seq<char>)
    requires
        s.len() > 0,
        !spec_contains(s, pat_runtime()),
        c2 == spec_clean(s.skip(1)),
        c == seq![s[0]] + c2,
        spec_at(c, 0, p),
        spec_colon_free(p),
        p.len() >= 1,
    ensures
        spec_at(s, 0, p),
{
    assert(c.subrange(0, p.len() as int)[0] == c[0]);
    assert(s[0] == p[0]);
    let p2 = p.skip(1);
    assert(spec_colon_free(p2));
    lemma_contains_skip(s, 1, pat_runtime());
    assert(spec_at(c2, 0, p2)) by {
        assert(c2.subrange(0, p2.len() as int) =~= p2) by {
            assert forall|j: int| 0 <= j < p2.len() implies c2[j] == p2[j] by {
                assert(c.subrange(0, p.len() as int)[j + 1] == c[j + 1]);
                assert(c[j + 1] == c2[j]);
                assert(p[j + 1] == p2[j]);
            }
        }
    }
    lemma_prefix_reflect(s.skip(1), p2);
    assert(s.skip(1).subrange(0, p2.len() as int) == p2);
    assert(s.subrange(0, p.len() as int) =~= p) by {
        assert forall|j: int| 0 <= j < p.len() implies s[j] == p[j] by {
            if j > 0 {
                assert(s.skip(1).subrange(0, p2.len() as int)[j - 1] == p2[j - 1]);
                assert(s.skip(1)[j - 1] == s[j]);
            }
        }
    }
}

/// Cleaning is idempotent on names that do not hold the runtime prefix:
/// one pass leaves no pattern behind, and the second pass then only copies.
/// (Removal of the runtime prefix can fuse its surroundings into a new
/// pattern, which a second pass would then rewrite.)
pub proof fn lemma_clean_idempotent(s: Seq<char>)
    requires
        !spec_contains(s, pat_runtime()),
    ensures
        spec_clean_full(spec_clean_full(s)) == spec_clean_full(s),
{
    let c = spec_clean(s);
    lemma_clean_pattern_free(s);
    if c.len() >= 2 && c[0] == '0' && c[1] == 'x' {
        let cut = if c.len() < 10 {
            c.len() as int
        } else {
            10
        };
        let t = unknown_prefix() + c.subrange(2, cut) + seq![']'];
        assert(spec_clean_full(s) == t);
        assert(spec_pattern_free(t)) by {
            let mid = c.subrange(2, cut);
            assert forall|i: int| !spec_pat_at(t, i) by {
                if 0 <= i < t.len() {
                    assert(t.len() == 10 + mid.len());
                    if i < 9 {
                        // Inside "[unknown:" no pattern can open.
                        assert(t[0] == '[' && t[1] == 'u' && t[2] == 'n' && t[3] == 'k' && t[4]
                            == 'n' && t[5] == 'o' && t[6] == 'w' && t[7] == 'n' && t[8] == ':');
                        if spec_at(t, i, pat_runtime()) {
                            assert(t.subrange(i, i + 8)[0] == t[i]);
                            assert(t[i] == 'r');
                            assert(false);
                        }
                        if spec_at(t, i, pat_main()) {
                            assert(t.subrange(i, i + 5)[0] == t[i]);
                            assert(t[i] == 'm');
                            assert(false);
                        }
                        if spec_at(t, i, pat_func()) {
                            assert(t.subrange(i, i + 5)[0] == t[i]);
                            assert(t[i] == '.');
                            assert(false);
                        }
                        if spec_at(t, i, pat_dot()) {
                            assert(t.subrange(i, i + 1)[0] == t[i]);
                            assert(t[i] == '\u{b7}');
                            assert(false);
                        }
                        if spec_at(t, i, pat_slash()) {
                            assert(t.subrange(i, i + 1)[0] == t[i]);
                            assert(t[i] == '/');
                            assert(false);
                        }
                    } else {
                        // A pattern here would lie inside the copied middle
                        // (patterns hold no closing bracket), so it stood in
                        // the cleaned string already.
                        if spec_pat_at(t, i) {
                            pat_in_bracketed_middle(t, c, mid, i);
                            assert(spec_pat_at(c, i - 7));
                            assert(false);
                        }
                    }
                }
            }
        }
        assert(t.len() >= 2 && t[0] == '[');
        lemma_clean_pattern_free_id(t);
        assert(spec_clean_full(t) == t);
    } else {
        lemma_clean_pattern_free_id(c);
        assert(spec_clean_full(c) == c);
    }
}

/// A pattern in the bracketed rewrite, past the prefix, reflects into the
/// cleaned string.
proof fn pat_in_bracketed_middle(t: Seq<char>, c: Seq<char>, mid: Seq<char>, i: int)
    requires
        c.len() >= 2,
        mid == c.subrange(2, if c.len() < 10 {
            c.len() as int
        } else {
            10
        }),
        t == unknown_prefix() + mid + seq![']'],
        9 <= i < t.len(),
        spec_pat_at(t, i),
    ensures
        spec_pat_at(c, i - 7),
{
    let cut = if c.len() < 10 {
        c.len() as int
    } else {
        10
    };
    assert forall|p: Seq<char>|
        (p == pat_runtime() || p == pat_main() || p == pat_func() || p == pat_dot() || p
            == pat_slash()) && spec_at(t, i, p) implies spec_pat_at(c, i - 7) by {
        // No pattern holds a closing bracket, so the match stays within the
        // copied middle and maps back into the cleaned string.
        assert(forall|j: int| 0 <= j < p.len() ==> p[j] != ']');
        assert(i + p.len() <= t.len());
        if i + p.len() == t.len() {
            assert(t.subrange(i, i + p.len())[p.len() - 1] == t[t.len() - 1]);
            assert(t[t.len() - 1] == ']');
            assert(p[p.len() - 1] == ']');
            assert(false);
        }
        assert(i + p.len() <= 9 + mid.len());
        assert(spec_at(c, i - 9 + 2, p)) by {
            assert(c.subrange(i - 7, i - 7 + p.len()) =~= p) by {
                assert forall|j: int| 0 <= j < p.len() implies c[i - 7 + j] == p[j] by {
                    assert(t.subrange(i, i + p.len())[j] == t[i + j]);
                    assert(t[i + j] == mid[i + j - 9]);
                    assert(mid[i + j - 9] == c[i + j - 7]);
                }
            }
        }
        assert(spec_pat_at(c, i - 7));
    }
}

fn is_pat_at(cs: &Vec<char>, i: usize, p0: char, p1: char, p2: char, p3: char, p4: char) -> (r:
    bool)
    requires
        i <= cs@.len(),
    ensures
        r == spec_at(cs@, i as int, seq![p0, p1, p2, p3, p4]),
{
    let ghost p = seq![p0, p1, p2, p3, p4];
    if cs.len() - i >= 5 && cs[i] == p0 && cs[i + 1] == p1 && cs[i + 2] == p2 && cs[i + 3] == p3
        && cs[i + 4] == p4 {
        proof {
            assert(cs@.subrange(i as int, i + 5) =~= p);
        }
        true
    } else {
        proof {
            if spec_at(cs@, i as int, p) {
                assert(forall|j: int|
                    0 <= j < 5 ==> #[trigger] cs@.subrange(i as int, i + 5)[j] == cs@[i + j]);
                assert(cs@[i as int] == p0 && cs@[i + 1] == p1 && cs@[i + 2] == p2 && cs@[i + 3]
                    == p3 && cs@[i + 4] == p4);
            }
        }
        false
    }
}

fn is_runtime_at(cs: &Vec<char>, i: usize) -> (r: bool)
    requires
        i <= cs@.len(),
    ensures
        r == spec_at(cs@, i as int, pat_runtime()),
{
    if cs.len() - i >= 8 && cs[i] == 'r' && cs[i + 1] == 'u' && cs[i + 2] == 'n' && cs[i + 3]
        == 't' && cs[i + 4] == 'i' && cs[i + 5] == 'm' && cs[i + 6] == 'e' && cs[i + 7] == '.' {
        proof {
            assert(cs@.subrange(i as int, i + 8) =~= pat_runtime());
        }
        true
    } else {
        proof {
            if spec_at(cs@, i as int, pat_runtime()) {
                assert(forall|j: int|
                    0 <= j < 8 ==> #[trigger] cs@.subrange(i as int, i + 8)[j] == cs@[i + j]);
                assert(cs@[i as int] == 'r' && cs@[i + 1] == 'u' && cs@[i + 2] == 'n' && cs@[i + 3]
                    == 't' && cs@[i + 4] == 'i' && cs@[i + 5] == 'm' && cs@[i + 6] == 'e' && cs@[i
                    + 7] == '.');
            }
        }
        false
    }
}

/// Applies the canonical replacements to a managed-runtime function name:
/// the runtime prefix is dropped, the main-package and closure markers and
/// the separators become double colons; a result that still reads as a
/// hexadecimal address is rewritten to its bracketed unknown form.
pub fn clean_go_function_name(name: &str) -> (r: String)
    ensures
        r@ == spec_clean_full(name@),
{
    let cs = crate::strutil::str_chars(name);
    let ghost full = cs@;
    let mut out: Vec<char> = Vec::new();
    let mut i: usize = 0;
    proof {
        assert(full.skip(0) =~= full);
        assert(out@ + spec_clean(full) =~= spec_clean(full));
    }
    while i < cs.len()
        invariant
            cs@ == full,
            full == name@,
            0 <= i <= full.len(),
            spec_clean(full) == out@ + spec_clean(full.skip(i as int)),
        decreases full.len() - i,
    {
        let ghost rest = full.skip(i as int);
        proof {
            assert(rest.len() > 0);
            assert(rest[0] == full[i as int]);
        }
        if is_runtime_at(&cs, i) {
            proof {
                lemma_at_shift(full, i as int, 0, pat_runtime());
                assert(spec_at(rest, 0, pat_runtime()));
                assert(spec_clean(rest) == spec_clean(rest.skip(8)));
                assert(rest.skip(8) =~= full.skip(i + 8));
            }
            i = i + 8;
        } else if is_pat_at(&cs, i, 'm', 'a', 'i', 'n', '.') {
            proof {
                lemma_at_shift(full, i as int, 0, pat_main());
                lemma_at_shift(full, i as int, 0, pat_runtime());
                assert(spec_at(rest, 0, pat_main()));
                assert(!spec_at(rest, 0, pat_runtime()));
                assert(spec_clean(rest) == rep_main() + spec_clean(rest.skip(5)));
                assert(rest.skip(5) =~= full.skip(i + 5));
            }
            let ghost out0 = out@;
            out.push('m');
            out.push('a');
            out.push('i');
            out.push('n');
            out.push(':');
            out.push(':');
            proof {
                assert(out@ =~= out0 + rep_main());
                assert((out0 + rep_main()) + spec_clean(full.skip(i + 5)) =~= out0 + (rep_main()
                    + spec_clean(full.skip(i + 5))));
            }
            i = i + 5;
        } else if is_pat_at(&cs, i, '.', 'f', 'u', 'n', 'c') {
            proof {
                lemma_at_shift(full, i as int, 0, pat_func());
                lemma_at_shift(full, i as int, 0, pat_runtime());
                lemma_at_shift(full, i as int, 0, pat_main());
                assert(spec_at(rest, 0, pat_func()));
                assert(!spec_at(rest, 0, pat_runtime()));
                assert(!spec_at(rest, 0, pat_main()));
                assert(spec_clean(rest) == rep_func() + spec_clean(rest.skip(5)));
                assert(rest.skip(5) =~= full.skip(i + 5));
            }
            let ghost out0 = out@;
            out.push(':');
            out.push(':');
            out.push('f');
            out.push('u');
            out.push('n');
            out.push('c');
            proof {
                assert(out@ =~= out0 + rep_func());
                assert((out0 + rep_func()) + spec_clean(full.skip(i + 5)) =~= out0 + (rep_func()
                    + spec_clean(full.skip(i + 5))));
            }
            i = i + 5;
        } else {
            let c = cs[i];
            proof {
                lemma_at_shift(full, i as int, 0, pat_runtime());
                lemma_at_shift(full, i as int, 0, pat_main());
                lemma_at_shift(full, i as int, 0, pat_func());
                assert(!spec_at(rest, 0, pat_runtime()));
                assert(!spec_at(rest, 0, pat_main()));
                assert(!spec_at(rest, 0, pat_func()));
                assert(rest.skip(1) =~= full.skip(i + 1));
            }
            let ghost out0 = out@;
            if c == '\u{b7}' || c == '/' {
                out.push(':');
                out.push(':');
                proof {
                    assert(spec_clean(rest) == rep_colons() + spec_clean(rest.skip(1)));
                    assert(out@ =~= out0 + rep_colons());
                    assert((out0 + rep_colons()) + spec_clean(full.skip(i + 1)) =~= out0 + (
                    rep_colons() + spec_clean(full.skip(i + 1))));
                }
            } else {
                out.push(c);
                proof {
                    assert(spec_clean(rest) == seq![rest[0]] + spec_clean(rest.skip(1)));
                    assert(out@ =~= out0 + seq![rest[0]]);
                    assert((out0 + seq![rest[0]]) + spec_clean(full.skip(i + 1)) =~= out0 + (
                    seq![rest[0]] + spec_clean(full.skip(i + 1))));
                }
            }
            i = i + 1;
        }
    }
    proof {
        assert(full.skip(full.len() as int) =~= Seq::<char>::empty());
        assert(out@ + Seq::<char>::empty() =~= out@);
        assert(out@ == spec_clean(full));
    }
    if out.len() >= 2 && out[0] == '0' && out[1] == 'x' {
        let cut: usize = if out.len() < 10 {
            out.len()
        } else {
            10
        };
        let mut fixed: Vec<char> = Vec::new();
        fixed.push('[');
        fixed.push('u');
        fixed.push('n');
        fixed.push('k');
        fixed.push('n');
        fixed.push('o');
        fixed.push('w');
        fixed.push('n');
        fixed.push(':');
        proof {
            assert(fixed@ =~= unknown_prefix());
        }
        let mut j: usize = 2;
        while j < cut
            invariant
                2 <= j <= cut <= out@.len(),
                cut == (if out@.len() < 10 {
                    out@.len() as int
                } else {
                    10
                }),
                fixed@ =~= unknown_prefix() + out@.subrange(2, j as int),
            decreases cut - j,
        {
            fixed.push(out[j]);
            proof {
                assert(fixed@ =~= unknown_prefix() + out@.subrange(2, j + 1));
            }
            j = j + 1;
        }
        fixed.push(']');
        proof {
            assert(fixed@ =~= unknown_prefix() + out@.subrange(2, cut as int) + seq![']']);
        }
        crate::strutil::chars_to_string(&fixed)
    } else {
        crate::strutil::chars_to_string(&out)
    }
}

/// Whether `hay` holds `needle` anywhere, by character comparison.
pub fn contains_str(hay: &str, needle: &str) -> (r: bool)
    ensures
        r == spec_contains(hay@, needle@),
{
    let h = crate::strutil::str_chars(hay);
    let n = crate::strutil::str_chars(needle);
    if n.len() > h.len() {
        proof {
            if spec_contains(hay@, needle@) {
                let i = choose|i: int| spec_at(hay@, i, needle@);
            }
        }
        return false;
    }
    let mut i: usize = 0;
    while i <= h.len() - n.len()
        invariant
            h@ == hay@,
            n@ == needle@,
            n@.len() <= h@.len(),
            0 <= i <= h@.len() - n@.len() + 1,
            forall|k: int| 0 <= k < i ==> !spec_at(hay@, k, needle@),
        decreases h@.len() - n@.len() + 1 - i,
    {
        let mut j: usize = 0;
        let mut all: bool = true;
        while j < n.len()
            invariant
                h@ == hay@,
                n@ == needle@,
                h@.len() <= usize::MAX,
                0 <= i <= h@.len() - n@.len(),
                0 <= j <= n@.len(),
                all <==> forall|k: int| 0 <= k < j ==> h@[i + k] == n@[k],
            decreases n@.len() - j,
        {
            if h[i + j] != n[j] {
                all = false;
                proof {
                    assert(h@[i + j as int] != n@[j as int]);
                }
                j = n.len();
            } else {
                proof {
                    if all {
                        assert(forall|k: int| 0 <= k < j + 1 ==> h@[i + k] == n@[k]);
                    }
                }
                j = j + 1;
            }
        }
        if all {
            proof {
                assert(hay@.subrange(i as int, i + n@.len()) =~= needle@);
                assert(spec_at(hay@, i as int, needle@));
            }
            return true;
        }
        proof {
            if spec_at(hay@, i as int, needle@) {
                assert(forall|k: int|
                    0 <= k < needle@.len() ==> #[trigger] hay@.subrange(
                        i as int,
                        i + needle@.len(),
                    )[k] == hay@[i + k]);
                assert(forall|k: int| 0 <= k < needle@.len() ==> hay@[i + k] == needle@[k]);
                assert(false);
            }
        }
        i = i + 1;
    }
    proof {
        if spec_contains(hay@, needle@) {
            let w = choose|w: int| spec_at(hay@, w, needle@);
            assert(!spec_at(hay@, w, needle@));
        }
    }
    false
}

/// Whether `hay` ends with `needle`, by character comparison.
pub fn ends_with_str(hay: &str, needle: &str) -> (r: bool)
    ensures
        r == (needle@.len() <= hay@.len() && hay@.subrange(
            hay@.len() - needle@.len(),
            hay@.len() as int,
        ) == needle@),
{
    let h = crate::strutil::str_chars(hay);
    let n = crate::strutil::str_chars(needle);
    if n.len() > h.len() {
        return false;
    }
    let base = h.len() - n.len();
    let mut j: usize = 0;
    while j < n.len()
        invariant
            h@ == hay@,
            n@ == needle@,
            n@.len() <= h@.len(),
            h@.len() <= usize::MAX,
            base == h@.len() - n@.len(),
            0 <= j <= n@.len(),
            forall|k: int| 0 <= k < j ==> h@[base + k] == n@[k],
        decreases n@.len() - j,
    {
        if h[base + j] != n[j] {
            proof {
                if hay@.subrange(hay@.len() - needle@.len(), hay@.len() as int) == needle@ {
                    assert(hay@.subrange(hay@.len() - needle@.len(), hay@.len() as int)[j as int]
                        == hay@[base + j]);
                }
            }
            return false;
        }
        j = j + 1;
    }
    proof {
        assert(hay@.subrange(hay@.len() - needle@.len(), hay@.len() as int) =~= needle@);
    }
    true
}

/// Whether `hay` starts with `needle`, by character comparison.
pub fn starts_with_str(hay: &str, needle: &str) -> (r: bool)
    ensures
        r == spec_at(hay@, 0, needle@),
{
    let h = crate::strutil::str_chars(hay);
    let n = crate::strutil::str_chars(needle);
    if n.len() > h.len() {
        return false;
    }
    let mut j: usize = 0;
    while j < n.len()
        invariant
            h@ == hay@,
            n@ == needle@,
            n@.len() <= h@.len(),
            0 <= j <= n@.len(),
            forall|k: int| 0 <= k < j ==> h@[k] == n@[k],
        decreases n@.len() - j,
    {
        if h[j] != n[j] {
            proof {
                if spec_at(hay@, 0, needle@) {
                    assert(hay@.subrange(0, needle@.len() as int)[j as int] == hay@[j as int]);
                }
            }
            return false;
        }
        j = j + 1;
    }
    proof {
        assert(hay@.subrange(0, needle@.len() as int) =~= needle@);
    }
    true
}

/// Joins a directory and a file name with exactly one separating slash:
/// the separator is added unless the directory already ends with one.
pub fn join_dir_file(dir: &str, file: &str) -> (r: String)
    ensures
        r@ == dir@ + (if dir@.len() > 0 && dir@.last() == '/' {
            Seq::<char>::empty()
        } else {
            "/"@
        }) + file@,
{
    let mut path = dir.to_owned();
    if !ends_with_str(dir, "/") {
        proof {
            reveal_strlit("/");
            if dir@.len() > 0 && dir@.last() == '/' {
                assert(dir@.subrange(dir@.len() - 1, dir@.len() as int) =~= "/"@);
            }
        }
        path.append("/");
    } else {
        proof {
            reveal_strlit("/");
            assert(dir@.subrange(dir@.len() - 1, dir@.len() as int)[0] == dir@[dir@.len() - 1]);
            assert(dir@ + Seq::<char>::empty() =~= dir@);
        }
    }
    path.append(file);
    path
}

} // verus!
