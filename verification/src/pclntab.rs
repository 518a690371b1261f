//! Parser for the versioned in-binary function table ("gopclntab"): the four
//! on-wire layouts, the delta-compressed PC-to-value lanes, and the
//! signature scan that recovers the table from raw read-only data.
use vstd::prelude::*;

use std::collections::HashMap;

use crate::strutil::string_from_utf8_lossy;
use crate::strutil::utf8_of;

verus! {

/// Names of runtime functions past which stack unwinding should not go.
pub fn get_go_functions_stop_delta() -> HashMap<String, bool> {
    let mut map: HashMap<String, bool> = HashMap::new();
    map.insert("runtime.mstart".to_owned(), true);
    map.insert("runtime.goexit".to_owned(), true);
    map.insert("runtime.mcall".to_owned(), true);
    map.insert("runtime.systemstack".to_owned(), true);
    map.insert("runtime.sigreturn".to_owned(), true);
    map.insert("runtime.sigreturn__sigaction".to_owned(), true);
    map
}

/// Table layout generations, named by the minor runtime version that
/// introduced each. Zero marks an unrecognized magic word.
pub const GO_INVALID: u8 = 0;

pub const GO1_2: u8 = 2;

pub const GO1_16: u8 = 16;

pub const GO1_18: u8 = 18;

pub const GO1_20: u8 = 20;

/// The layout generation named by a magic word, or `GO_INVALID` for an
/// unknown word.
pub open spec fn spec_go_magic_to_version(magic: u32) -> u8 {
    if magic == 0xfffffffb {
        GO1_2
    } else if magic == 0xfffffffa {
        GO1_16
    } else if magic == 0xfffffff0 {
        GO1_18
    } else if magic == 0xfffffff1 {
        GO1_20
    } else {
        GO_INVALID
    }
}

/// Maps a function-table magic word to the layout generation it marks.
pub fn go_magic_to_version(magic: u32) -> (v: u8)
    ensures
        v == spec_go_magic_to_version(magic),
{
    if magic == 0xfffffffb {
        GO1_2
    } else if magic == 0xfffffffa {
        GO1_16
    } else if magic == 0xfffffff0 {
        GO1_18
    } else if magic == 0xfffffff1 {
        GO1_20
    } else {
        GO_INVALID
    }
}

/// The little-endian 16-bit value at `off` in `d`.
pub open spec fn spec_u16_le(d: Seq<u8>, off: int) -> u16 {
    (d[off] + d[off + 1] * 0x100) as u16
}

/// The little-endian 32-bit value at `off` in `d`.
pub open spec fn spec_u32_le(d: Seq<u8>, off: int) -> u32 {
    (d[off] + d[off + 1] * 0x100 + d[off + 2] * 0x10000 + d[off + 3] * 0x1000000) as u32
}

/// The little-endian 64-bit value at `off` in `d`.
pub open spec fn spec_u64_le(d: Seq<u8>, off: int) -> u64 {
    (spec_u32_le(d, off) + spec_u32_le(d, off + 4) * 0x100000000) as u64
}

/// The 32-bit two's-complement reading of `v`.
pub open spec fn spec_as_i32(v: u32) -> i32 {
    if v < 0x80000000 {
        v as i32
    } else {
        (v - 0x100000000) as i32
    }
}

/// The unsigned reading of a 32-bit two's-complement value.
pub open spec fn spec_as_u32(v: i32) -> u32 {
    if v >= 0 {
        v as u32
    } else {
        (v + 0x100000000) as u32
    }
}

pub(crate) fn read_u16_le(data: &[u8], off: usize) -> (r: Option<u16>)
    ensures
        r is Some <==> off + 2 <= data@.len(),
        r is Some ==> r->Some_0 == spec_u16_le(data@, off as int),
{
    let n: usize = data.len();
    if off <= usize::MAX - 2 && off + 2 <= n {
        Some((data[off] as u16) + (data[off + 1] as u16) * 0x100)
    } else {
        None
    }
}

pub(crate) fn read_u32_le(data: &[u8], off: usize) -> (r: Option<u32>)
    ensures
        r is Some <==> off + 4 <= data@.len(),
        r is Some ==> r->Some_0 == spec_u32_le(data@, off as int),
{
    let n: usize = data.len();
    if off <= usize::MAX - 4 && off + 4 <= n {
        Some(
            (data[off] as u32) + (data[off + 1] as u32) * 0x100 + (data[off + 2] as u32) * 0x10000
                + (data[off + 3] as u32) * 0x1000000,
        )
    } else {
        None
    }
}

pub(crate) fn read_u64_le(data: &[u8], off: usize) -> (r: Option<u64>)
    ensures
        r is Some <==> off + 8 <= data@.len(),
        r is Some ==> r->Some_0 == spec_u64_le(data@, off as int),
{
    let n: usize = data.len();
    if off <= usize::MAX - 8 && off + 8 <= n {
        let lo = read_u32_le(data, off).unwrap();
        let hi = read_u32_le(data, off + 4).unwrap();
        Some((lo as u64) + (hi as u64) * 0x100000000)
    } else {
        None
    }
}

fn as_i32(v: u32) -> (r: i32)
    ensures
        r == spec_as_i32(v),
{
    if v < 0x80000000 {
        v as i32
    } else {
        ((v - 0x80000000) as i32) - 0x7fffffff - 1
    }
}

/// Reads the 32-bit two's-complement value at `offset`, with bounds
/// checking: `None` iff fewer than four bytes remain.
pub fn get_int32(data: &[u8], offset: usize) -> (r: Option<i32>)
    ensures
        r is Some <==> offset + 4 <= data@.len(),
        r is Some ==> r->Some_0 == spec_as_i32(spec_u32_le(data@, offset as int)),
{
    match read_u32_le(data, offset) {
        Some(v) => Some(as_i32(v)),
        None => None,
    }
}

/// The bytes of the null-terminated string at `offset`, empty when the
/// offset is out of range or no null terminator follows it.
pub open spec fn spec_nt_bytes(d: Seq<u8>, offset: int) -> Seq<u8> {
    if 0 <= offset < d.len() && (exists|j: int| offset <= j < d.len() && d[j] == 0) {
        let end = choose|j: int|
            offset <= j < d.len() && d[j] == 0 && (forall|k: int| offset <= k < j ==> d[k] != 0);
        d.subrange(offset, end)
    } else {
        Seq::empty()
    }
}

proof fn lemma_nt_bytes_end(d: Seq<u8>, offset: int, end: int)
    requires
        0 <= offset <= end < d.len(),
        d[end] == 0,
        forall|k: int| offset <= k < end ==> d[k] != 0,
    ensures
        spec_nt_bytes(d, offset) == d.subrange(offset, end),
{
    assert(exists|j: int|
        offset <= j < d.len() && d[j] == 0 && (forall|k: int| offset <= k < j ==> d[k] != 0)) by {
        assert(offset <= end < d.len() && d[end] == 0 && (forall|k: int|
            offset <= k < end ==> d[k] != 0));
    }
    let e2 = choose|j: int|
        offset <= j < d.len() && d[j] == 0 && (forall|k: int| offset <= k < j ==> d[k] != 0);
    if e2 < end {
        assert(d[e2] != 0);
    } else if end < e2 {
        assert(d[end] != 0);
    }
}

/// Decodes the null-terminated string at `offset` in `data`, as the
/// replacement-lossy reading of its bytes.  Returns the empty string when
/// the offset is out of range or no null terminator follows it.
pub fn get_string(data: &[u8], offset: usize) -> (r: String)
    ensures
        spec_nt_bytes(data@, offset as int).len() > 0 ==> r@ == utf8_of(
            spec_nt_bytes(data@, offset as int),
        ),
        spec_nt_bytes(data@, offset as int).len() == 0 ==> r@.len() == 0,
{
    let ghost d = data@;
    if offset >= data.len() {
        return String::new();
    }
    let mut end: usize = offset;
    while end < data.len() && data[end] != 0
        invariant
            d == data@,
            offset <= end <= d.len(),
            forall|k: int| offset <= k < end ==> d[k] != 0,
        decreases d.len() - end,
    {
        end = end + 1;
    }
    if end >= data.len() {
        // No terminator anywhere after the offset: the string is absent.
        proof {
            if exists|j: int| offset <= j < d.len() && d[j] == 0 {
                let j = choose|j: int| offset <= j < d.len() && d[j] == 0;
                assert(d[j] != 0);
            }
        }
        return String::new();
    }
    proof {
        lemma_nt_bytes_end(d, offset as int, end as int);
    }
    let mut bytes: Vec<u8> = Vec::new();
    let mut i: usize = offset;
    while i < end
        invariant
            d == data@,
            offset <= i <= end < d.len(),
            bytes@ =~= d.subrange(offset as int, i as int),
        decreases end - i,
    {
        bytes.push(data[i]);
        proof {
            assert(bytes@ =~= d.subrange(offset as int, i + 1));
        }
        i = i + 1;
    }
    string_from_utf8_lossy(&bytes)
}

/// Whether a LEB128 group starting at the head of `s` terminates (some byte
/// without the continuation bit follows).
pub open spec fn spec_leb_ok(s: Seq<u8>) -> bool
    decreases s.len(),
{
    s.len() > 0 && (s[0] < 128 || spec_leb_ok(s.skip(1)))
}

/// How many bytes the LEB128 group at the head of `s` occupies; all of `s`
/// when the group never terminates.
pub open spec fn spec_leb_len(s: Seq<u8>) -> int
    decreases s.len(),
{
    if s.len() == 0 {
        0
    } else if s[0] < 128 {
        1
    } else {
        1 + spec_leb_len(s.skip(1))
    }
}

/// The unbounded value of the LEB128 group at the head of `s`.
pub open spec fn spec_leb_int(s: Seq<u8>) -> int
    decreases s.len(),
{
    if s.len() == 0 {
        0
    } else if s[0] < 128 {
        s[0] as int
    } else {
        (s[0] - 128) + 128 * spec_leb_int(s.skip(1))
    }
}

/// 128 raised to `k`.
pub open spec fn spec_pow128(k: nat) -> int
    decreases k,
{
    if k == 0 {
        1
    } else {
        128 * spec_pow128((k - 1) as nat)
    }
}

pub proof fn lemma_leb_int_nonneg(s: Seq<u8>)
    ensures
        spec_leb_int(s) >= 0,
    decreases s.len(),
{
    if s.len() > 0 && s[0] >= 128 {
        lemma_leb_int_nonneg(s.skip(1));
    }
}

pub proof fn lemma_pow128_pos(k: nat)
    ensures
        spec_pow128(k) >= 1,
    decreases k,
{
    if k > 0 {
        lemma_pow128_pos((k - 1) as nat);
    }
}

/// Splits a LEB128 group after its first `k` continuation bytes: the value,
/// length and termination of the whole group are those of the remainder,
/// shifted and offset by the consumed prefix.
pub proof fn lemma_leb_decompose(s: Seq<u8>, k: int)
    requires
        0 <= k <= s.len(),
        forall|j: int| 0 <= j < k ==> s[j] >= 128,
    ensures
        spec_leb_int(s) == spec_leb_int(s.take(k)) + spec_pow128(k as nat) * spec_leb_int(
            s.skip(k),
        ),
        spec_leb_len(s) == k + spec_leb_len(s.skip(k)),
        spec_leb_ok(s) == spec_leb_ok(s.skip(k)),
        k < s.len() ==> spec_leb_int(s.take(k)) + spec_pow128(k as nat) * (s[k] % 128) <= spec_leb_int(s),
    decreases k,
{
    if k == 0 {
        assert(s.take(0) =~= Seq::<u8>::empty());
        assert(s.skip(0) =~= s);
        if k < s.len() {
            lemma_leb_int_nonneg(s.skip(1));
            if s[0] < 128 {
                assert(spec_leb_int(s) == s[0]);
            } else {
                assert(s[0] % 128 == s[0] - 128);
            }
        }
    } else {
        let t = s.skip(1);
        lemma_leb_decompose(t, k - 1);
        assert(t.take(k - 1) =~= s.take(k).skip(1));
        assert(t.skip(k - 1) =~= s.skip(k));
        assert(s[0] >= 128);
        assert(spec_leb_int(s) == (s[0] - 128) + 128 * spec_leb_int(t));
        assert(spec_leb_int(s.take(k)) == (s[0] - 128) + 128 * spec_leb_int(s.take(k).skip(1)));
        assert(spec_leb_int(t) == spec_leb_int(t.take(k - 1)) + spec_pow128((k - 1) as nat)
            * spec_leb_int(t.skip(k - 1)));
        assert(128 * (spec_leb_int(t.take(k - 1)) + spec_pow128((k - 1) as nat) * spec_leb_int(
            t.skip(k - 1),
        )) == 128 * spec_leb_int(t.take(k - 1)) + (128 * spec_pow128((k - 1) as nat))
            * spec_leb_int(t.skip(k - 1))) by (nonlinear_arith);
        assert(spec_pow128(k as nat) == 128 * spec_pow128((k - 1) as nat));
        if k < s.len() {
            assert(t[k - 1] == s[k]);
            assert(spec_leb_int(t.take(k - 1)) + spec_pow128((k - 1) as nat) * (t[k - 1] % 128)
                <= spec_leb_int(t));
            assert(128 * (spec_leb_int(t.take(k - 1)) + spec_pow128((k - 1) as nat) * (t[k - 1]
                % 128)) <= 128 * spec_leb_int(t)) by (nonlinear_arith)
                requires
                    spec_leb_int(t.take(k - 1)) + spec_pow128((k - 1) as nat) * (t[k - 1] % 128)
                        <= spec_leb_int(t),
            ;
            assert(128 * (spec_pow128((k - 1) as nat) * (s[k] % 128)) == spec_pow128(k as nat) * (
            s[k] % 128)) by (nonlinear_arith)
                requires
                    spec_pow128(k as nat) == 128 * spec_pow128((k - 1) as nat),
            ;
        }
    }
}

/// The multiplier the decoder carries after `k` continuation bytes:
/// `128^k` while that fits in 32 bits, zero afterwards (higher groups can
/// no longer pieceute to a 32-bit value).
pub open spec fn spec_mult(k: int) -> u32 {
    if k == 0 {
        1
    } else if k == 1 {
        0x80
    } else if k == 2 {
        0x4000
    } else if k == 3 {
        0x200000
    } else if k == 4 {
        0x10000000
    } else {
        0
    }
}

/// A delta-lane decoding state: the remaining program bytes, the PC range
/// the current value covers, the value itself, and the instruction quantum.
pub struct Pcval {
    pub ptr: Vec<u8>,
    pub pc_start: u64,
    pub pc_end: u64,
    pub val: i32,
    pub quantum: u8,
}

/// The signed delta a zig-zag-encoded word names.
pub open spec fn spec_zigzag(d: u32) -> int {
    if d % 2 == 1 {
        -((d + 1) / 2)
    } else {
        (d / 2) as int
    }
}

/// `x` reduced into the 32-bit signed range by one wrap.
pub open spec fn spec_wrap_i32(x: int) -> i32 {
    if x > i32::MAX {
        (x - 0x100000000) as i32
    } else if x < i32::MIN {
        (x + 0x100000000) as i32
    } else {
        x as i32
    }
}

/// `x` reduced into the 64-bit unsigned range by one wrap.
pub open spec fn spec_wrap_u64(x: int) -> u64 {
    if x > u64::MAX {
        (x - 0x10000000000000000) as u64
    } else {
        x as u64
    }
}

/// Whether one lane step from program bytes `ptr` stays within the range
/// the decoder can represent: both of its LEB128 groups either terminate
/// with a value below 2^32 or run off the end of the program.
pub open spec fn spec_step_defined(ptr: Seq<u8>) -> bool {
    let rest = ptr.skip(spec_leb_len(ptr));
    spec_leb_ok(ptr) && spec_leb_int(ptr) < 0x100000000 && (!spec_leb_ok(rest) || spec_leb_int(
        rest,
    ) < 0x100000000)
}

/// The value-delta word of the step at `ptr`.
pub open spec fn spec_step_d(ptr: Seq<u8>) -> u32 {
    spec_leb_int(ptr) as u32
}

/// The PC-delta word of the step at `ptr`: zero when its group runs off
/// the end of the program.
pub open spec fn spec_step_d2(ptr: Seq<u8>) -> u32 {
    let rest = ptr.skip(spec_leb_len(ptr));
    if spec_leb_ok(rest) {
        spec_leb_int(rest) as u32
    } else {
        0
    }
}

/// The program bytes remaining after one step at `ptr`.
pub open spec fn spec_step_rest(ptr: Seq<u8>) -> Seq<u8> {
    let rest = ptr.skip(spec_leb_len(ptr));
    rest.skip(spec_leb_len(rest))
}

impl Pcval {
    /// Starts a lane decoding over `data` with the value-before-any-step
    /// convention (`val == -1`, `pc_end` at the function entry), then takes
    /// the first step.
    pub fn new(data: Vec<u8>, pc: u64, quantum: u8) -> (r: Pcval)
        ensures
            r.quantum == quantum,
            (data@.len() == 0 || data@[0] == 0) ==> (r.ptr@ == data@ && r.pc_start == 0
                && r.pc_end == pc && r.val == -1),
            (data@.len() > 0 && data@[0] != 0) ==> r.pc_start == pc,
            (data@.len() > 0 && data@[0] != 0) ==> r.ptr@ == spec_step_rest(data@),
            (data@.len() > 0 && data@[0] != 0 && spec_step_defined(data@)) ==> (r.val == spec_wrap_i32(
                -1 + spec_zigzag(spec_step_d(data@)),
            ) && r.pc_end == spec_wrap_u64(
                pc + spec_step_d2(data@) * quantum,
            )),
    {
        let mut p = Pcval { ptr: data, pc_start: 0, pc_end: pc, val: -1, quantum };
        p.step();
        p
    }

    /// Reads one LEB128 word off the front of the program.  A group that
    /// runs off the end of the program reads as zero, as the step loop is
    /// about to fail anyway; a value that exceeds 32 bits is reduced in an
    /// unspecified way.
    pub fn get_int(&mut self) -> (r: u32)
        ensures
            final(self).pc_start == old(self).pc_start,
            final(self).pc_end == old(self).pc_end,
            final(self).val == old(self).val,
            final(self).quantum == old(self).quantum,
            final(self).ptr@ == old(self).ptr@.skip(spec_leb_len(old(self).ptr@)),
            !spec_leb_ok(old(self).ptr@) ==> r == 0,
            (spec_leb_ok(old(self).ptr@) && spec_leb_int(old(self).ptr@) < 0x100000000) ==> r
                == spec_leb_int(old(self).ptr@),
    {
        let ghost orig = old(self).ptr@;
        let mut v: u32 = 0;
        let mut mult: u32 = 1;
        let ghost mut k: int = 0;
        loop
            invariant
                orig == old(self).ptr@,
                self.pc_start == old(self).pc_start,
                self.pc_end == old(self).pc_end,
                self.val == old(self).val,
                self.quantum == old(self).quantum,
                0 <= k <= orig.len(),
                self.ptr@ == orig.skip(k),
                forall|j: int| 0 <= j < k ==> orig[j] >= 128,
                mult == spec_mult(k),
                spec_leb_int(orig) < 0x100000000 ==> v == spec_leb_int(orig.take(k)),
            decreases orig.len() - k,
        {
            if self.ptr.len() == 0 {
                proof {
                    lemma_leb_decompose(orig, k);
                    assert(orig.skip(k).len() == 0);
                    assert(spec_leb_len(orig.skip(k)) == 0);
                    assert(spec_leb_len(orig) == k);
                    assert(self.ptr@ =~= orig.skip(spec_leb_len(orig)));
                    assert(!spec_leb_ok(orig.skip(k)));
                }
                return 0;
            }
            let ghost kpre = k;
            let b = self.ptr.remove(0);
            proof {
                assert(orig.skip(kpre)[0] == orig[kpre]);
                assert(self.ptr@ =~= orig.skip(kpre).skip(1));
                assert(orig.skip(kpre).skip(1) =~= orig.skip(kpre + 1));
                lemma_leb_decompose(orig, kpre);
                lemma_leb_int_nonneg(orig.skip(kpre));
                lemma_leb_int_nonneg(orig.take(kpre));
                lemma_pow128_pos(kpre as nat);
            }
            let c64: u64 = ((b % 128) as u64) * (mult as u64);
            let piece: u32 = (c64 % 0x100000000) as u32;
            let ghost vpre = v;
            v = v.wrapping_add(piece);
            proof {
                k = kpre + 1;
                assert(self.ptr@ == orig.skip(k));
                if spec_leb_int(orig) < 0x100000000 {
                    // The true weight of this byte is 128^kpre; past the
                    // fourth continuation byte a nonzero digit would push the
                    // value over 32 bits, so the zero multiplier is exact.
                    assert(spec_leb_int(orig.take(kpre)) + spec_pow128(kpre as nat) * (orig[kpre]
                        % 128) <= spec_leb_int(orig));
                    assert(orig.take(k) =~= orig.take(kpre).push(orig[kpre]));
                    lemma_leb_int_snoc(orig.take(kpre), orig[kpre], kpre);
                    if kpre <= 4 {
                        assert(spec_mult(kpre) == spec_pow128(kpre as nat)) by {
                            reveal_with_fuel(spec_pow128, 6);
                        }
                        assert((c64 as int) == spec_pow128(kpre as nat) * ((b % 128) as int))
                            by (nonlinear_arith)
                            requires
                                (c64 as int) == ((b % 128) as int) * (spec_mult(kpre) as int),
                                spec_mult(kpre) as int == spec_pow128(kpre as nat),
                        ;
                        assert(c64 < 0x100000000);
                        assert(piece == c64);
                        assert(vpre + piece < 0x100000000);
                        assert(v == spec_leb_int(orig.take(k)));
                    } else {
                        assert(spec_pow128(kpre as nat) >= spec_pow128(5)) by {
                            lemma_pow128_mono(5, kpre as nat);
                        }
                        assert(spec_pow128(5) == 0x800000000) by {
                            reveal_with_fuel(spec_pow128, 6);
                        }
                        if orig[kpre] % 128 != 0 {
                            assert(spec_pow128(kpre as nat) * (orig[kpre] % 128) >= spec_pow128(
                                kpre as nat,
                            )) by (nonlinear_arith)
                                requires
                                    spec_pow128(kpre as nat) >= 1,
                                    orig[kpre] % 128 >= 1,
                            ;
                            assert(false);
                        }
                        assert(mult == 0);
                        assert(piece == 0);
                        assert(v == vpre);
                        assert(orig[kpre] % 128 == 0);
                        assert(spec_pow128(kpre as nat) * (orig[kpre] % 128) == 0)
                            by (nonlinear_arith)
                            requires
                                orig[kpre] % 128 == 0,
                        ;
                        assert(spec_leb_int(orig.take(k)) == spec_leb_int(orig.take(kpre))
                            + spec_pow128(kpre as nat) * (orig[kpre] % 128));
                        assert(spec_leb_int(orig.take(k)) == spec_leb_int(orig.take(kpre)));
                    }
                }
            }
            if b < 128 {
                proof {
                    lemma_leb_decompose(orig, k - 1);
                    assert(orig.skip(k - 1)[0] == orig[k - 1]);
                    assert(orig[k - 1] < 128);
                    assert(spec_leb_ok(orig.skip(k - 1)));
                    assert(spec_leb_ok(orig));
                    assert(spec_leb_len(orig.skip(k - 1)) == 1);
                    assert(spec_leb_len(orig) == k);
                    assert(orig.skip(k - 1).skip(1) =~= orig.skip(k));
                    assert(self.ptr@ =~= orig.skip(spec_leb_len(orig)));
                    if spec_leb_int(orig) < 0x100000000 {
                        assert(spec_leb_int(orig.skip(k - 1)) == orig[k - 1] as int);
                        assert(spec_leb_int(orig) == spec_leb_int(orig.take(k - 1)) + spec_pow128(
                            (k - 1) as nat,
                        ) * orig[k - 1]);
                        assert(orig.take(k) =~= orig.take(k - 1).push(orig[k - 1]));
                        lemma_leb_int_snoc(orig.take(k - 1), orig[k - 1], k - 1);
                        assert(spec_leb_int(orig) == spec_leb_int(orig.take(k)));
                        assert(v == spec_leb_int(orig));
                    }
                }
                return v;
            }
            mult = if mult == 0x10000000 {
                0
            } else {
                mult.wrapping_mul(128)
            };
        }
    }

    /// Executes one line of the lane program: shifts the covered PC range
    /// forward and folds the zig-zag value delta into `val`.  Returns false,
    /// changing nothing, when the program is exhausted or at its zero
    /// terminator.
    pub fn step(&mut self) -> (r: bool)
        ensures
            r == (old(self).ptr@.len() > 0 && old(self).ptr@[0] != 0),
            !r ==> *final(self) == *old(self),
            r ==> final(self).pc_start == old(self).pc_end && final(self).quantum == old(
                self,
            ).quantum,
            r ==> final(self).ptr@ == spec_step_rest(old(self).ptr@),
            (r && spec_step_defined(old(self).ptr@)) ==> (final(self).val == spec_wrap_i32(
                old(self).val + spec_zigzag(spec_step_d(old(self).ptr@)),
            ) && final(self).pc_end == spec_wrap_u64(
                old(self).pc_end + spec_step_d2(old(self).ptr@) * old(self).quantum,
            )),
    {
        if self.ptr.len() == 0 || self.ptr[0] == 0 {
            return false;
        }
        self.pc_start = self.pc_end;
        let d = self.get_int();
        if d % 2 == 1 {
            let m = (d - 1) / 2;
            let neg: i32 = if m == 0x7fffffff {
                -0x7fffffff - 1
            } else {
                -((m + 1) as i32)
            };
            self.val = self.val.wrapping_add(neg);
        } else {
            self.val = self.val.wrapping_add((d / 2) as i32);
        }
        let d2 = self.get_int();
        let q64: u64 = self.quantum as u64;
        proof {
            assert((d2 as int) * (q64 as int) <= 0xffffffff * 255) by (nonlinear_arith)
                requires
                    d2 as int <= 0xffffffff,
                    0 <= q64 as int <= 255,
            ;
        }
        let step64: u64 = (d2 as u64) * q64;
        self.pc_end = self.pc_end.wrapping_add(step64);
        true
    }
}

pub proof fn lemma_pow128_mono(a: nat, b: nat)
    requires
        a <= b,
    ensures
        spec_pow128(a) <= spec_pow128(b),
    decreases b,
{
    if a < b {
        lemma_pow128_mono(a, (b - 1) as nat);
        lemma_pow128_pos((b - 1) as nat);
    }
}

/// Appending one more byte to an all-continuation prefix adds its digit at
/// weight `128^k`.
pub proof fn lemma_leb_int_snoc(s: Seq<u8>, b: u8, k: int)
    requires
        k == s.len(),
        forall|j: int| 0 <= j < k ==> s[j] >= 128,
    ensures
        spec_leb_int(s.push(b)) == spec_leb_int(s) + spec_pow128(k as nat) * (b % 128),
    decreases k,
{
    if k == 0 {
        assert(s.push(b)[0] == b);
        assert(s.len() == 0);
        assert(spec_leb_int(s) == 0);
        assert(spec_pow128(0) == 1);
        if b < 128 {
            assert(spec_leb_int(s.push(b)) == b as int);
            assert(b % 128 == b as int);
        } else {
            assert(s.push(b).skip(1) =~= Seq::<u8>::empty());
            assert(spec_leb_int(Seq::<u8>::empty()) == 0);
            assert(spec_leb_int(s.push(b)) == (b - 128) as int);
            assert(b % 128 == b - 128);
        }
    } else {
        let t = s.skip(1);
        assert(s.push(b).skip(1) =~= t.push(b));
        lemma_leb_int_snoc(t, b, k - 1);
        assert(s.push(b)[0] == s[0]);
        assert(s[0] >= 128);
        assert(spec_leb_int(s.push(b)) == (s[0] - 128) + 128 * spec_leb_int(t.push(b)));
        assert(spec_pow128(k as nat) == 128 * spec_pow128((k - 1) as nat));
        assert(spec_leb_int(s.push(b)) == spec_leb_int(s) + spec_pow128(k as nat) * (b % 128))
            by (nonlinear_arith)
            requires
                spec_leb_int(s.push(b)) == (s[0] - 128) + 128 * spec_leb_int(t.push(b)),
                spec_leb_int(t.push(b)) == spec_leb_int(t) + spec_pow128((k - 1) as nat) * (b
                    % 128),
                spec_leb_int(s) == (s[0] - 128) + 128 * spec_leb_int(t),
                spec_pow128(k as nat) == 128 * spec_pow128((k - 1) as nat),
        ;
    }
}

/// The fixed header every table layout opens with.
#[derive(Debug, Clone, Copy, PartialEq, Eq, Structural)]
pub struct PclntabHeader {
    /// One of the four known magic words.
    pub magic: u32,
    /// Two padding bytes, zero in a well-formed header.
    pub pad: u16,
    /// Instruction-alignment quantum.
    pub quantum: u8,
    /// Pointer size in bytes.
    pub ptr_size: u8,
    /// Number of function entries that follow.
    pub num_funcs: u64,
}

impl PclntabHeader {
    /// Reads the common header from the start of a table section; the
    /// function count is read at the width the pointer-size byte declares
    /// (a byte other than four reads as the 64-bit form).
    pub fn read(data: &[u8]) -> (r: Option<PclntabHeader>)
        ensures
            r is Some <==> data@.len() >= 16,
            r is Some ==> r->Some_0 == (PclntabHeader {
                magic: spec_u32_le(data@, 0),
                pad: spec_u16_le(data@, 4),
                quantum: data@[6],
                ptr_size: data@[7],
                num_funcs: spec_ptr_le(data@, 8, spec_hdr_w(data@)),
            }),
    {
        if data.len() < 16 {
            return None;
        }
        let w: u8 = if data[7] == 4 {
            4
        } else {
            8
        };
        Some(
            PclntabHeader {
                magic: read_u32_le(data, 0).unwrap(),
                pad: read_u16_le(data, 4).unwrap(),
                quantum: data[6],
                ptr_size: data[7],
                num_funcs: read_ptr_le(data, 8, w).unwrap(),
            },
        )
    }
}

/// The header extension of the second layout generation, in its
/// 64-bit-pointer form: absolute offsets of the string and lane tables
/// within the section.
#[derive(Debug, Clone, Copy, PartialEq, Eq, Structural)]
pub struct PclntabHeader116 {
    pub header: PclntabHeader,
    pub nfiles: u64,
    pub funcname_offset: u64,
    pub cu_offset: u64,
    pub filetab_offset: u64,
    pub pctab_offset: u64,
    pub pcln_offset: u64,
}

impl PclntabHeader116 {
    /// Reads the extended header from the start of a table section.
    pub fn read(data: &[u8]) -> (r: Option<PclntabHeader116>)
        ensures
            r is Some <==> data@.len() >= 64,
            r is Some ==> r->Some_0 == (PclntabHeader116 {
                header: PclntabHeader {
                    magic: spec_u32_le(data@, 0),
                    pad: spec_u16_le(data@, 4),
                    quantum: data@[6],
                    ptr_size: data@[7],
                    num_funcs: spec_ptr_le(data@, 8, spec_hdr_w(data@)),
                },
                nfiles: spec_u64_le(data@, 16),
                funcname_offset: spec_u64_le(data@, 24),
                cu_offset: spec_u64_le(data@, 32),
                filetab_offset: spec_u64_le(data@, 40),
                pctab_offset: spec_u64_le(data@, 48),
                pcln_offset: spec_u64_le(data@, 56),
            }),
    {
        if data.len() < 64 {
            return None;
        }
        let header = PclntabHeader::read(data).unwrap();
        Some(
            PclntabHeader116 {
                header,
                nfiles: read_u64_le(data, 16).unwrap(),
                funcname_offset: read_u64_le(data, 24).unwrap(),
                cu_offset: read_u64_le(data, 32).unwrap(),
                filetab_offset: read_u64_le(data, 40).unwrap(),
                pctab_offset: read_u64_le(data, 48).unwrap(),
                pcln_offset: read_u64_le(data, 56).unwrap(),
            },
        )
    }
}

/// The header extension of the third and fourth layout generations, in
/// its 64-bit-pointer form; these add the linked text-segment start used
/// to relocate 32-bit PC offsets.
#[derive(Debug, Clone, Copy, PartialEq, Eq, Structural)]
pub struct PclntabHeader118 {
    pub header: PclntabHeader,
    pub nfiles: u64,
    pub text_start: u64,
    pub funcname_offset: u64,
    pub cu_offset: u64,
    pub filetab_offset: u64,
    pub pctab_offset: u64,
    pub pcln_offset: u64,
}

impl PclntabHeader118 {
    /// Reads the extended header from the start of a table section.
    pub fn read(data: &[u8]) -> (r: Option<PclntabHeader118>)
        ensures
            r is Some <==> data@.len() >= 72,
            r is Some ==> r->Some_0 == (PclntabHeader118 {
                header: PclntabHeader {
                    magic: spec_u32_le(data@, 0),
                    pad: spec_u16_le(data@, 4),
                    quantum: data@[6],
                    ptr_size: data@[7],
                    num_funcs: spec_ptr_le(data@, 8, spec_hdr_w(data@)),
                },
                nfiles: spec_u64_le(data@, 16),
                text_start: spec_u64_le(data@, 24),
                funcname_offset: spec_u64_le(data@, 32),
                cu_offset: spec_u64_le(data@, 40),
                filetab_offset: spec_u64_le(data@, 48),
                pctab_offset: spec_u64_le(data@, 56),
                pcln_offset: spec_u64_le(data@, 64),
            }),
    {
        if data.len() < 72 {
            return None;
        }
        let header = PclntabHeader::read(data).unwrap();
        Some(
            PclntabHeader118 {
                header,
                nfiles: read_u64_le(data, 16).unwrap(),
                text_start: read_u64_le(data, 24).unwrap(),
                funcname_offset: read_u64_le(data, 32).unwrap(),
                cu_offset: read_u64_le(data, 40).unwrap(),
                filetab_offset: read_u64_le(data, 48).unwrap(),
                pctab_offset: read_u64_le(data, 56).unwrap(),
                pcln_offset: read_u64_le(data, 64).unwrap(),
            },
        )
    }
}

/// One function-lookup entry of the first two layouts: an absolute PC and
/// the byte offset of the function record.
#[derive(Debug, Clone, Copy, PartialEq, Eq, Structural)]
pub struct PclntabFuncMap {
    pub pc: u64,
    pub func_off: u64,
}

/// One function-lookup entry of the later layouts: both fields are 32-bit,
/// with the PC stored relative to the text-segment start.
#[derive(Debug, Clone, Copy, PartialEq, Eq, Structural)]
pub struct PclntabFuncMap118 {
    pub pc: u32,
    pub func_off: u32,
}

/// The common portion of a function record, after the layout-specific
/// entry-PC field.
#[derive(Debug, Clone, Copy, PartialEq, Eq, Structural)]
pub struct PclntabFunc {
    pub name_off: i32,
    pub args_size: i32,
    pub frame_size: i32,
    pub pcsp_off: i32,
    pub pcfile_off: i32,
    pub pcln_off: i32,
    pub nfunc_data: i32,
    pub npc_data: i32,
}

/// Copies the tail of `data` from `off` on.
pub(crate) fn tail_vec(data: &[u8], off: usize) -> (r: Vec<u8>)
    requires
        off <= data@.len(),
    ensures
        r@ == data@.skip(off as int),
{
    let mut r: Vec<u8> = Vec::new();
    let mut i: usize = off;
    while i < data.len()
        invariant
            off <= i <= data@.len(),
            r@ =~= data@.subrange(off as int, i as int),
        decreases data@.len() - i,
    {
        r.push(data[i]);
        proof {
            assert(r@ =~= data@.subrange(off as int, i + 1));
        }
        i = i + 1;
    }
    proof {
        assert(data@.subrange(off as int, data@.len() as int) =~= data@.skip(off as int));
    }
    r
}

/// Copies `data[a..b]`.
fn range_vec(data: &Vec<u8>, a: usize, b: usize) -> (r: Vec<u8>)
    requires
        a <= b <= data@.len(),
    ensures
        r@ == data@.subrange(a as int, b as int),
{
    let mut r: Vec<u8> = Vec::new();
    let mut i: usize = a;
    while i < b
        invariant
            a <= i <= b <= data@.len(),
            r@ =~= data@.subrange(a as int, i as int),
        decreases b - i,
    {
        r.push(data[i]);
        proof {
            assert(r@ =~= data@.subrange(a as int, i + 1));
        }
        i = i + 1;
    }
    r
}

/// Carves the byte tables of one table section, per its layout generation.
pub struct Gopclntab {
    /// The whole section.
    pub data: Vec<u8>,
    /// Linked start of the text segment (third and fourth layouts).
    pub text_start: usize,
    /// Number of function entries.
    pub num_funcs: usize,
    /// Layout generation.
    pub version: u8,
    /// Instruction-alignment quantum.
    pub quantum: u8,
    /// Pointer size in bytes.
    pub ptr_size: u8,
    /// Size of one function record, entry-PC field included.
    pub fun_size: u8,
    /// Size of one function-lookup entry.
    pub func_map_size: u8,
    /// The function-lookup table.
    pub functab: Vec<u8>,
    /// The area function records are read from.
    pub funcdata: Vec<u8>,
    /// The function-name string table.
    pub funcnametab: Vec<u8>,
    /// The file-name string table.
    pub filetab: Vec<u8>,
    /// The delta-lane programs.
    pub pctab: Vec<u8>,
    /// The per-compilation-unit file-index table.
    pub cutab: Vec<u8>,
}

/// Whether the sizing fields of a table agree with its layout generation,
/// as the constructor establishes them.
pub open spec fn spec_consistent(g: &Gopclntab) -> bool {
    (g.version == GO1_2 || g.version == GO1_16 || g.version == GO1_18 || g.version == GO1_20) && (
    g.ptr_size == 4 || g.ptr_size == 8) && (if g.version >= GO1_18 {
        g.func_map_size == 8 && g.fun_size == 36
    } else {
        g.func_map_size == 2 * g.ptr_size && g.fun_size == g.ptr_size + 32
    })
}

/// The little-endian pointer-sized value at `off`: four bytes when the
/// width is four, eight otherwise.
pub open spec fn spec_ptr_le(d: Seq<u8>, off: int, w: int) -> u64 {
    if w == 4 {
        spec_u32_le(d, off) as u64
    } else {
        spec_u64_le(d, off)
    }
}

/// The pointer width a header's size byte declares; meaningful only where
/// that byte is four or eight.
pub open spec fn spec_hdr_w(data: Seq<u8>) -> int {
    if data[7] == 4 {
        4int
    } else {
        8int
    }
}

pub(crate) fn read_ptr_le(data: &[u8], off: usize, w: u8) -> (r: Option<u64>)
    requires
        w == 4 || w == 8,
    ensures
        r is Some <==> off + w <= data@.len(),
        r is Some ==> r->Some_0 == spec_ptr_le(data@, off as int, w as int),
{
    if w == 4 {
        match read_u32_le(data, off) {
            Some(v) => Some(v as u64),
            None => None,
        }
    } else {
        read_u64_le(data, off)
    }
}

/// Whether a whole section parses: the magic is known, the padding zero,
/// the pointer size four or eight, the function count representable, and
/// the layout's table offsets within the section.
pub open spec fn spec_gopclntab_valid(data: Seq<u8>) -> bool {
    data.len() >= 16 && {
        let ver = spec_go_magic_to_version(spec_u32_le(data, 0));
        let w = spec_hdr_w(data);
        let num_funcs = spec_ptr_le(data, 8, w);
        ver != GO_INVALID && spec_u16_le(data, 4) == 0 && (data[7] == 4 || data[7] == 8)
            && num_funcs <= usize::MAX as u64 && if ver == GO1_2 {
            let functab_end = 8 + w + (num_funcs as int) * (2 * w) + w;
            functab_end + 4 <= data.len() && {
                let filetab_offset = spec_as_i32(spec_u32_le(data, functab_end));
                8 + w <= filetab_offset && filetab_offset + 4 <= data.len() && spec_as_i32(
                    spec_u32_le(data, filetab_offset as int),
                ) != 0
            }
        } else if ver == GO1_16 {
            data.len() >= 8 + 7 * w && spec_ptr_le(data, 8 + 2 * w, w) <= data.len()
                && spec_ptr_le(data, 8 + 3 * w, w) <= data.len() && spec_ptr_le(data, 8 + 4 * w, w)
                <= data.len() && spec_ptr_le(data, 8 + 5 * w, w) <= data.len() && spec_ptr_le(
                data,
                8 + 6 * w,
                w,
            ) <= data.len()
        } else {
            data.len() >= 8 + 8 * w && spec_ptr_le(data, 8 + 2 * w, w) <= usize::MAX as u64
                && spec_ptr_le(data, 8 + 3 * w, w) <= data.len() && spec_ptr_le(data, 8 + 4 * w, w)
                <= data.len() && spec_ptr_le(data, 8 + 5 * w, w) <= data.len() && spec_ptr_le(
                data,
                8 + 6 * w,
                w,
            ) <= data.len() && spec_ptr_le(data, 8 + 7 * w, w) <= data.len()
        }
    }
}

impl Gopclntab {
    /// Parses a table section and carves its byte tables.  Succeeds exactly
    /// on the sections `spec_gopclntab_valid` describes.
    ///
    /// In the oldest layout the name, file and lane offsets held by
    /// function records are relative to the section start, so the whole
    /// section serves as each of those tables.
    pub fn new(data: Vec<u8>) -> (r: Result<Gopclntab, String>)
        ensures
            r is Ok <==> spec_gopclntab_valid(data@),
            r is Ok ==> {
                let g = r->Ok_0;
                let ver = spec_go_magic_to_version(spec_u32_le(data@, 0));
                let w = spec_hdr_w(data@);
                &&& spec_consistent(&g)
                &&& g.data@ == data@
                &&& g.version == ver
                &&& g.quantum == data@[6]
                &&& g.ptr_size == data@[7]
                &&& g.num_funcs == spec_ptr_le(data@, 8, w)
                &&& (ver == GO1_2 ==> {
                    let functab_end = 8 + w + (g.num_funcs as int) * (2 * w) + w;
                    let filetab_offset = spec_as_i32(spec_u32_le(data@, functab_end));
                    &&& g.text_start == 0
                    &&& g.functab@ == data@.subrange(8 + w, filetab_offset as int)
                    &&& g.cutab@ == data@.skip(filetab_offset as int)
                    &&& g.pctab@ == data@
                    &&& g.funcnametab@ == data@
                    &&& g.funcdata@ == data@
                    &&& g.filetab@ == data@
                })
                &&& (ver == GO1_16 ==> {
                    &&& g.text_start == 0
                    &&& g.funcnametab@ == data@.skip(spec_ptr_le(data@, 8 + 2 * w, w) as int)
                    &&& g.cutab@ == data@.skip(spec_ptr_le(data@, 8 + 3 * w, w) as int)
                    &&& g.filetab@ == data@.skip(spec_ptr_le(data@, 8 + 4 * w, w) as int)
                    &&& g.pctab@ == data@.skip(spec_ptr_le(data@, 8 + 5 * w, w) as int)
                    &&& g.functab@ == data@.skip(spec_ptr_le(data@, 8 + 6 * w, w) as int)
                    &&& g.funcdata@ == g.functab@
                })
                &&& (ver >= GO1_18 ==> {
                    &&& g.text_start == spec_ptr_le(data@, 8 + 2 * w, w)
                    &&& g.funcnametab@ == data@.skip(spec_ptr_le(data@, 8 + 3 * w, w) as int)
                    &&& g.cutab@ == data@.skip(spec_ptr_le(data@, 8 + 4 * w, w) as int)
                    &&& g.filetab@ == data@.skip(spec_ptr_le(data@, 8 + 5 * w, w) as int)
                    &&& g.pctab@ == data@.skip(spec_ptr_le(data@, 8 + 6 * w, w) as int)
                    &&& g.functab@ == data@.skip(spec_ptr_le(data@, 8 + 7 * w, w) as int)
                    &&& g.funcdata@ == g.functab@
                })
            },
    {
        let hdr = match PclntabHeader::read(data.as_slice()) {
            Some(h) => h,
            None => {
                return Err("table section is too short".to_owned());
            },
        };
        let version = go_magic_to_version(hdr.magic);
        if version == GO_INVALID || hdr.pad != 0 || (hdr.ptr_size != 4 && hdr.ptr_size != 8) {
            return Err("table header is malformed".to_owned());
        }
        if hdr.num_funcs > usize::MAX as u64 {
            return Err("function count does not fit".to_owned());
        }
        let num_funcs = hdr.num_funcs as usize;
        let w: usize = hdr.ptr_size as usize;
        let mut g = Gopclntab {
            data: Vec::new(),
            text_start: 0,
            num_funcs,
            version,
            quantum: hdr.quantum,
            ptr_size: hdr.ptr_size,
            fun_size: hdr.ptr_size + 32,
            func_map_size: 2 * hdr.ptr_size,
            functab: Vec::new(),
            funcdata: Vec::new(),
            funcnametab: Vec::new(),
            filetab: Vec::new(),
            pctab: Vec::new(),
            cutab: Vec::new(),
        };
        if version == GO1_2 {
            let dlen: usize = data.len();
            let functab_end = match num_funcs.checked_mul(2 * w) {
                Some(m) => match m.checked_add(8 + w + w) {
                    Some(e) => e,
                    None => {
                        proof {
                            assert(data@.len() <= usize::MAX);
                            assert(!spec_gopclntab_valid(data@));
                        }
                        return Err("table is corrupt".to_owned());
                    },
                },
                None => {
                    proof {
                        assert(data@.len() <= usize::MAX);
                        assert(!spec_gopclntab_valid(data@));
                    }
                    return Err("table is corrupt".to_owned());
                },
            };
            proof {
                if functab_end + 4 > data@.len() {
                    assert(!spec_gopclntab_valid(data@));
                }
            }
            let filetab_offset = match get_int32(data.as_slice(), functab_end) {
                Some(v) => v,
                None => {
                    return Err("table is corrupt".to_owned());
                },
            };
            if filetab_offset < 0 || (filetab_offset as usize) < 8 + w {
                return Err("table is corrupt".to_owned());
            }
            let filetab_usize = filetab_offset as usize;
            let num_source_files = match get_int32(data.as_slice(), filetab_usize) {
                Some(v) => v,
                None => {
                    return Err("table is corrupt".to_owned());
                },
            };
            if num_source_files == 0 {
                return Err("table is corrupt".to_owned());
            }
            g.functab = range_vec(&data, 8 + w, filetab_usize);
            g.cutab = tail_vec(data.as_slice(), filetab_usize);
            g.pctab = data.clone();
            g.funcnametab = data.clone();
            g.funcdata = data.clone();
            g.filetab = data.clone();
            g.data = data;
            Ok(g)
        } else {
            let fields_base: usize = if version == GO1_16 {
                // nfiles sits between the count and the table offsets.
                8 + 2 * w
            } else {
                // nfiles and the text start precede the table offsets.
                8 + 3 * w
            };
            let needed: usize = if version == GO1_16 {
                8 + 7 * w
            } else {
                8 + 8 * w
            };
            if data.len() < needed {
                return Err("table section is too short".to_owned());
            }
            let dl = data.len() as u64;
            if version >= GO1_18 {
                let text_start = read_ptr_le(data.as_slice(), 8 + 2 * w, hdr.ptr_size).unwrap();
                if text_start > usize::MAX as u64 {
                    return Err("table is corrupt".to_owned());
                }
                g.text_start = text_start as usize;
                g.func_map_size = 8;
                g.fun_size = 36;
            }
            let funcname_offset = read_ptr_le(data.as_slice(), fields_base, hdr.ptr_size).unwrap();
            let cu_offset = read_ptr_le(data.as_slice(), fields_base + w, hdr.ptr_size).unwrap();
            let filetab_offset = read_ptr_le(
                data.as_slice(),
                fields_base + 2 * w,
                hdr.ptr_size,
            ).unwrap();
            let pctab_offset = read_ptr_le(
                data.as_slice(),
                fields_base + 3 * w,
                hdr.ptr_size,
            ).unwrap();
            let pcln_offset = read_ptr_le(
                data.as_slice(),
                fields_base + 4 * w,
                hdr.ptr_size,
            ).unwrap();
            if funcname_offset > dl || cu_offset > dl || filetab_offset > dl || pctab_offset > dl
                || pcln_offset > dl {
                return Err("table is corrupt".to_owned());
            }
            g.funcnametab = tail_vec(data.as_slice(), funcname_offset as usize);
            g.cutab = tail_vec(data.as_slice(), cu_offset as usize);
            g.filetab = tail_vec(data.as_slice(), filetab_offset as usize);
            g.pctab = tail_vec(data.as_slice(), pctab_offset as usize);
            g.functab = tail_vec(data.as_slice(), pcln_offset as usize);
            g.funcdata = g.functab.clone();
            g.data = data;
            Ok(g)
        }
    }
}

pub proof fn lemma_leb_len_bounds(s: Seq<u8>)
    ensures
        0 <= spec_leb_len(s) <= s.len(),
        s.len() > 0 ==> spec_leb_len(s) >= 1,
    decreases s.len(),
{
    if s.len() > 0 && s[0] >= 128 {
        lemma_leb_len_bounds(s.skip(1));
    }
}

/// One lane step always consumes at least one program byte.
pub proof fn lemma_step_rest_shrinks(ptr: Seq<u8>)
    requires
        ptr.len() > 0,
    ensures
        spec_step_rest(ptr).len() < ptr.len(),
        spec_step_rest(ptr).len() >= 0,
{
    lemma_leb_len_bounds(ptr);
    lemma_leb_len_bounds(ptr.skip(spec_leb_len(ptr)));
}

/// The value the decoder carries after one step at `ptr`.
pub open spec fn spec_step_val(ptr: Seq<u8>, val: i32) -> i32 {
    spec_wrap_i32(val + spec_zigzag(spec_step_d(ptr)))
}

/// The PC bound the decoder carries after one step at `ptr`.
pub open spec fn spec_step_pc(ptr: Seq<u8>, pc_end: u64, q: u8) -> u64 {
    spec_wrap_u64(pc_end + spec_step_d2(ptr) * q)
}

/// The value a lane lookup started in state `(ptr, val, pc_end)` returns
/// for `pc`: the current value once `pc` falls short of the covered range,
/// `None` when the program ends first.  Meaningful where `spec_lane_wf`
/// holds of the same state.
pub open spec fn spec_lane_value(ptr: Seq<u8>, val: i32, pc_end: u64, q: u8, pc: u64) -> Option<
    i32,
>
    decreases ptr.len(),
    via spec_lane_value_dec
{
    if pc < pc_end {
        Some(val)
    } else if ptr.len() == 0 || ptr[0] == 0 {
        None
    } else if !spec_step_defined(ptr) {
        None
    } else {
        spec_lane_value(
            spec_step_rest(ptr),
            spec_step_val(ptr, val),
            spec_step_pc(ptr, pc_end, q),
            q,
            pc,
        )
    }
}

#[via_fn]
proof fn spec_lane_value_dec(ptr: Seq<u8>, val: i32, pc_end: u64, q: u8, pc: u64) {
    if !(pc < pc_end) && !(ptr.len() == 0 || ptr[0] == 0) && spec_step_defined(ptr) {
        lemma_step_rest_shrinks(ptr);
    }
}

/// Whether every step a lane lookup takes from state `(ptr, val, pc_end)`
/// stays within the decoder's range.
pub open spec fn spec_lane_wf(ptr: Seq<u8>, val: i32, pc_end: u64, q: u8, pc: u64) -> bool
    decreases ptr.len(),
    via spec_lane_wf_dec
{
    if pc < pc_end {
        true
    } else if ptr.len() == 0 || ptr[0] == 0 {
        true
    } else {
        spec_step_defined(ptr) && spec_lane_wf(
            spec_step_rest(ptr),
            spec_step_val(ptr, val),
            spec_step_pc(ptr, pc_end, q),
            q,
            pc,
        )
    }
}

#[via_fn]
proof fn spec_lane_wf_dec(ptr: Seq<u8>, val: i32, pc_end: u64, q: u8, pc: u64) {
    if !(pc < pc_end) && !(ptr.len() == 0 || ptr[0] == 0) && spec_step_defined(ptr) {
        lemma_step_rest_shrinks(ptr);
    }
}

/// What a whole lane lookup over the program at `data` returns for `pc`,
/// starting from the function entry `start` with the before-first-step
/// value `-1`.
pub open spec fn spec_map_pcval(data: Seq<u8>, start: u64, q: u8, pc: u64) -> Option<i32> {
    if data.len() == 0 || data[0] == 0 {
        if pc < start {
            Some(-1i32)
        } else {
            None
        }
    } else {
        spec_lane_value(spec_step_rest(data), spec_step_val(data, -1i32), spec_step_pc(data, start, q), q, pc)
    }
}

/// Whether the whole lookup stays within the decoder's range.
pub open spec fn spec_map_wf(data: Seq<u8>, start: u64, q: u8, pc: u64) -> bool {
    if data.len() == 0 || data[0] == 0 {
        true
    } else {
        spec_step_defined(data) && spec_lane_wf(
            spec_step_rest(data),
            spec_step_val(data, -1i32),
            spec_step_pc(data, start, q),
            q,
            pc,
        )
    }
}

/// The entry PC of lookup entry `i`, per the layout generation and
/// pointer width.
pub open spec fn spec_map_pc(g: &Gopclntab, i: int) -> int {
    if g.version >= GO1_18 {
        g.text_start + spec_u32_le(g.functab@, 8 * i)
    } else {
        spec_ptr_le(g.functab@, 2 * (g.ptr_size as int) * i, g.ptr_size as int) as int
    }
}

/// The record offset of lookup entry `i`, per the layout generation and
/// pointer width.
pub open spec fn spec_map_off(g: &Gopclntab, i: int) -> int {
    if g.version >= GO1_18 {
        spec_u32_le(g.functab@, 8 * i + 4) as int
    } else {
        spec_ptr_le(
            g.functab@,
            2 * (g.ptr_size as int) * i + g.ptr_size as int,
            g.ptr_size as int,
        ) as int
    }
}

/// Whether the function-lookup table is usable: every entry lies within
/// the table, entry PCs are strictly increasing, and every entry fits the
/// address space.
pub open spec fn spec_wf_functab(g: &Gopclntab) -> bool {
    (g.num_funcs as int) * (g.func_map_size as int) <= g.functab@.len() && (forall|i: int, j: int|
        0 <= i < j < g.num_funcs ==> spec_map_pc(g, i) < spec_map_pc(g, j)) && (forall|i: int|
        0 <= i < g.num_funcs ==> spec_map_pc(g, #[trigger] (i * 1)) <= usize::MAX && spec_map_off(
            g,
            i,
        ) <= usize::MAX)
}

/// The function record the data area holds at `off`, per the layout
/// generation and pointer width: `None` when it runs past the area or its
/// entry PC cannot be relocated.
pub open spec fn spec_get_func(g: &Gopclntab, off: int) -> Option<(int, PclntabFunc)> {
    let d = g.funcdata@;
    if g.version >= GO1_18 {
        if 0 <= off && off + 36 <= d.len() && g.text_start + spec_u32_le(d, off) <= usize::MAX {
            Some(
                (
                    g.text_start + spec_u32_le(d, off),
                    spec_func_record(d, off + 4),
                ),
            )
        } else {
            None
        }
    } else {
        let w = g.ptr_size as int;
        if 0 <= off && off + w + 32 <= d.len() && spec_ptr_le(d, off, w) <= usize::MAX as u64 {
            Some((spec_ptr_le(d, off, w) as int, spec_func_record(d, off + w)))
        } else {
            None
        }
    }
}

/// The eight 32-bit fields of a function record at `off`.
pub open spec fn spec_func_record(d: Seq<u8>, off: int) -> PclntabFunc {
    PclntabFunc {
        name_off: spec_as_i32(spec_u32_le(d, off)),
        args_size: spec_as_i32(spec_u32_le(d, off + 4)),
        frame_size: spec_as_i32(spec_u32_le(d, off + 8)),
        pcsp_off: spec_as_i32(spec_u32_le(d, off + 12)),
        pcfile_off: spec_as_i32(spec_u32_le(d, off + 16)),
        pcln_off: spec_as_i32(spec_u32_le(d, off + 20)),
        nfunc_data: spec_as_i32(spec_u32_le(d, off + 24)),
        npc_data: spec_as_i32(spec_u32_le(d, off + 28)),
    }
}

/// What `get_string` reads at `off`: the decoded null-terminated string,
/// empty when there is none.
pub open spec fn spec_get_string(d: Seq<u8>, off: int) -> Seq<char> {
    if spec_nt_bytes(d, off).len() > 0 {
        utf8_of(spec_nt_bytes(d, off))
    } else {
        Seq::empty()
    }
}

/// Whether lookup entry `i` is the one `symbolize` attributes `pc` to:
/// the greatest entry PC not above `pc`, with `pc` within the 64 KiB a
/// function never exceeds by convention (PCs in larger gaps lie outside
/// the managed code).
pub open spec fn spec_symbolize_covers(g: &Gopclntab, i: int, pc: int) -> bool {
    0 <= i < g.num_funcs && spec_map_pc(g, i) <= pc && (i + 1 == g.num_funcs || pc < spec_map_pc(
        g,
        i + 1,
    )) && pc < spec_map_pc(g, i) + 0x10000
}

/// Whether the record behind lookup entry `i` is unreadable or names a
/// different entry PC: such an entry resolves to empty components.
pub open spec fn spec_symbolize_misses(g: &Gopclntab, i: int) -> bool {
    match spec_get_func(g, spec_map_off(g, i)) {
        Some((fpc, f)) => fpc != spec_map_pc(g, i),
        None => true,
    }
}

/// The line `symbolize` reports for lookup entry `i` at `pc`, where the
/// record is readable, matches its lookup entry, carries a line lane that
/// lies within the lane table, and that lane's walk stays in range:
/// the lane value for `pc`, read as an unsigned line number, zero when the
/// walk runs off the lane.  `None` where those premises fail, leaving the
/// line unconstrained.
pub open spec fn spec_symbolize_line(g: &Gopclntab, i: int, pc: int) -> Option<u32> {
    match spec_get_func(g, spec_map_off(g, i)) {
        Some((fpc, f)) => if fpc == spec_map_pc(g, i) && f.pcln_off > 0 && (f.pcln_off as int)
            < g.pctab@.len() && 0 <= pc <= u64::MAX && fpc <= u64::MAX && spec_map_wf(
            g.pctab@.skip(f.pcln_off as int),
            fpc as u64,
            g.quantum,
            pc as u64,
        ) {
            match spec_map_pcval(g.pctab@.skip(f.pcln_off as int), fpc as u64, g.quantum, pc as u64) {
                Some(l) => Some(spec_as_u32(l)),
                None => Some(0u32),
            }
        } else {
            None
        },
        None => None,
    }
}

/// The source file `symbolize` reports for lookup entry `i` at `pc`,
/// where the record is readable, matches its lookup entry, carries a file
/// lane within the lane table, and that lane's walk stays in range: the
/// lane value, offset by the record's compilation-unit base in the later
/// layouts, indexes the unit table, whose entry locates the path in the
/// file-name table.  Any step out of range reads as the empty path.
/// `None` where the premises fail, leaving the path unconstrained.
pub open spec fn spec_symbolize_file(g: &Gopclntab, i: int, pc: int) -> Option<Seq<char>> {
    match spec_get_func(g, spec_map_off(g, i)) {
        Some((fpc, f)) => if fpc == spec_map_pc(g, i) && f.pcfile_off > 0 && (f.pcfile_off as int)
            < g.pctab@.len() && 0 <= pc <= u64::MAX && fpc <= u64::MAX && spec_map_wf(
            g.pctab@.skip(f.pcfile_off as int),
            fpc as u64,
            g.quantum,
            pc as u64,
        ) {
            match spec_map_pcval(
                g.pctab@.skip(f.pcfile_off as int),
                fpc as u64,
                g.quantum,
                pc as u64,
            ) {
                Some(raw) => {
                    let fi = if g.version >= GO1_16 {
                        spec_wrap_i32(raw + f.npc_data) as int
                    } else {
                        raw as int
                    };
                    if 0 <= fi <= 0x1fffffff {
                        if 4 * fi + 4 <= g.cutab@.len() {
                            let off = spec_as_i32(spec_u32_le(g.cutab@, 4 * fi));
                            if off >= 0 {
                                Some(spec_get_string(g.filetab@, off as int))
                            } else {
                                Some(Seq::empty())
                            }
                        } else {
                            Some(Seq::empty())
                        }
                    } else {
                        Some(Seq::empty())
                    }
                },
                None => Some(Seq::empty()),
            }
        } else {
            None
        },
        None => None,
    }
}

/// The name `symbolize` reports for lookup entry `i`: the record's name
/// string when the record is readable and its entry PC matches the lookup
/// entry, the empty string otherwise.
pub open spec fn spec_symbolize_name(g: &Gopclntab, i: int) -> Seq<char> {
    match spec_get_func(g, spec_map_off(g, i)) {
        Some((fpc, f)) => if fpc == spec_map_pc(g, i) {
            if f.name_off < 0 {
                Seq::empty()
            } else {
                spec_get_string(g.funcnametab@, f.name_off as int)
            }
        } else {
            Seq::empty()
        },
        None => Seq::empty(),
    }
}

impl Gopclntab {
    /// Returns lookup entry `index`: its entry PC (relocated where the
    /// layout stores offsets) and the byte offset of its function record,
    /// or `(0, 0)` past the end of the table or when relocation overflows.
    pub fn get_func_map_entry(&self, index: usize) -> (r: (usize, usize))
        ensures
            spec_consistent(self) ==> {
                let fm = self.func_map_size as int;
                if (index + 1) * fm <= self.functab@.len() && spec_map_pc(self, index as int)
                    <= usize::MAX && spec_map_off(self, index as int) <= usize::MAX {
                    r.0 == spec_map_pc(self, index as int) && r.1 == spec_map_off(
                        self,
                        index as int,
                    )
                } else {
                    r == (0usize, 0usize)
                }
            },
    {
        let ft_len: usize = self.functab.len();
        let fm = self.func_map_size as usize;
        let offset = match index.checked_mul(fm) {
            Some(o) => o,
            None => {
                proof {
                    assert(ft_len <= usize::MAX);
                    if spec_consistent(self) {
                        assert((index + 1) * (self.func_map_size as int) > usize::MAX)
                            by (nonlinear_arith)
                            requires
                                (index as int) * (self.func_map_size as int) > usize::MAX,
                                self.func_map_size as int >= 0,
                        ;
                    }
                }
                return (0, 0);
            },
        };
        proof {
            assert(ft_len <= usize::MAX);
            if spec_consistent(self) {
                assert((index + 1) * (self.func_map_size as int) == offset
                    + self.func_map_size as int) by (nonlinear_arith)
                    requires
                        offset == (index as int) * (self.func_map_size as int),
                ;
            }
        }
        if self.version >= GO1_18 {
            proof {
                if spec_consistent(self) {
                    assert(self.func_map_size == 8);
                    assert(offset as int == 8 * (index as int)) by (nonlinear_arith)
                        requires
                            offset as int == (index as int) * (self.func_map_size as int),
                            self.func_map_size == 8,
                    ;
                    assert(spec_map_off(self, index as int) <= u32::MAX);
                }
            }
            if offset <= usize::MAX - 8 && offset + 8 <= ft_len {
                let pc_off = read_u32_le(self.functab.as_slice(), offset).unwrap();
                let func_off = read_u32_le(self.functab.as_slice(), offset + 4).unwrap();
                match self.text_start.checked_add(pc_off as usize) {
                    Some(abs_pc) => {
                        return (abs_pc, func_off as usize);
                    },
                    None => {
                        return (0, 0);
                    },
                }
            }
            (0, 0)
        } else {
            let w: usize = self.ptr_size as usize;
            if self.ptr_size != 4 && self.ptr_size != 8 {
                return (0, 0);
            }
            proof {
                if spec_consistent(self) {
                    assert(self.func_map_size == 2 * self.ptr_size);
                    assert(offset as int == 2 * (self.ptr_size as int) * (index as int))
                        by (nonlinear_arith)
                        requires
                            offset as int == (index as int) * (self.func_map_size as int),
                            self.func_map_size == 2 * self.ptr_size,
                    ;
                }
            }
            if offset <= usize::MAX - 2 * w && offset + 2 * w <= ft_len {
                let pc = read_ptr_le(self.functab.as_slice(), offset, self.ptr_size).unwrap();
                let func_off = read_ptr_le(
                    self.functab.as_slice(),
                    offset + w,
                    self.ptr_size,
                ).unwrap();
                if pc <= usize::MAX as u64 && func_off <= usize::MAX as u64 {
                    return (pc as usize, func_off as usize);
                }
                return (0, 0);
            }
            (0, 0)
        }
    }

    /// Reads the function record at `func_off` and its entry PC.
    pub fn get_func(&self, func_off: usize) -> (r: Option<(usize, PclntabFunc)>)
        ensures
            spec_consistent(self) ==> {
                match spec_get_func(self, func_off as int) {
                    Some((pc, f)) => r is Some && r->Some_0.0 == pc && r->Some_0.1 == f,
                    None => r is None,
                }
            },
    {
        let d = self.funcdata.as_slice();
        let dl: usize = d.len();
        let fields_off: usize;
        let pc: usize;
        if self.version >= GO1_18 {
            if func_off > usize::MAX - 36 || func_off + 36 > dl {
                return None;
            }
            let pc_off = read_u32_le(d, func_off).unwrap();
            pc = match self.text_start.checked_add(pc_off as usize) {
                Some(p) => p,
                None => {
                    return None;
                },
            };
            fields_off = func_off + 4;
        } else {
            if self.ptr_size != 4 && self.ptr_size != 8 {
                return None;
            }
            let w: usize = self.ptr_size as usize;
            if func_off > usize::MAX - (w + 32) || func_off + (w + 32) > dl {
                return None;
            }
            let pc64 = read_ptr_le(d, func_off, self.ptr_size).unwrap();
            if pc64 > usize::MAX as u64 {
                return None;
            }
            pc = pc64 as usize;
            fields_off = func_off + w;
        }
        let func = PclntabFunc {
            name_off: get_int32(d, fields_off).unwrap(),
            args_size: get_int32(d, fields_off + 4).unwrap(),
            frame_size: get_int32(d, fields_off + 8).unwrap(),
            pcsp_off: get_int32(d, fields_off + 12).unwrap(),
            pcfile_off: get_int32(d, fields_off + 16).unwrap(),
            pcln_off: get_int32(d, fields_off + 20).unwrap(),
            nfunc_data: get_int32(d, fields_off + 24).unwrap(),
            npc_data: get_int32(d, fields_off + 28).unwrap(),
        };
        Some((pc, func))
    }

    /// Starts a lane decoding at byte offset `offs` of the lane table,
    /// with `start_pc` opening the covered range.
    pub fn get_pcval(&self, offs: i32, start_pc: u64) -> (r: Option<Pcval>)
        ensures
            r is Some <==> 0 <= offs && (offs as int) < self.pctab@.len(),
            r is Some ==> {
                let p = r->Some_0;
                let sub = self.pctab@.skip(offs as int);
                &&& p.quantum == self.quantum
                &&& ((sub.len() == 0 || sub[0] == 0) ==> (p.ptr@ == sub && p.pc_start == 0
                    && p.pc_end == start_pc && p.val == -1))
                &&& ((sub.len() > 0 && sub[0] != 0) ==> (p.pc_start == start_pc && p.ptr@
                    == spec_step_rest(sub)))
                &&& ((sub.len() > 0 && sub[0] != 0 && spec_step_defined(sub)) ==> (p.val
                    == spec_step_val(sub, -1i32) && p.pc_end == spec_step_pc(sub, start_pc, self.quantum)))
            },
    {
        if offs < 0 {
            return None;
        }
        let offset = offs as usize;
        if offset < self.pctab.len() {
            let sub = tail_vec(self.pctab.as_slice(), offset);
            Some(Pcval::new(sub, start_pc, self.quantum))
        } else {
            None
        }
    }

    /// Steps the lane at `offs` until the entry covering `pc` and returns
    /// its value, or `None` when the program ends first or `offs` is out
    /// of range.
    pub fn map_pcval(&self, offs: i32, start_pc: u64, pc: u64) -> (r: Option<i32>)
        ensures
            (offs < 0 || offs as int >= self.pctab@.len()) ==> r is None,
            (0 <= offs && (offs as int) < self.pctab@.len() && spec_map_wf(
                self.pctab@.skip(offs as int),
                start_pc,
                self.quantum,
                pc,
            )) ==> r == spec_map_pcval(self.pctab@.skip(offs as int), start_pc, self.quantum, pc),
    {
        let ghost sub = self.pctab@.skip(offs as int);
        let mut p = match self.get_pcval(offs, start_pc) {
            Some(p) => p,
            None => {
                return None;
            },
        };
        let ghost q = self.quantum;
        let ghost wf = spec_map_wf(sub, start_pc, q, pc);
        let ghost goal = spec_map_pcval(sub, start_pc, q, pc);
        proof {
            if wf {
                if sub.len() == 0 || sub[0] == 0 {
                    assert(spec_lane_wf(p.ptr@, p.val, p.pc_end, q, pc));
                    assert(spec_lane_value(p.ptr@, p.val, p.pc_end, q, pc) == goal);
                } else {
                    assert(spec_lane_wf(p.ptr@, p.val, p.pc_end, q, pc));
                    assert(spec_lane_value(p.ptr@, p.val, p.pc_end, q, pc) == goal);
                }
            }
        }
        while pc >= p.pc_end
            invariant
                q == self.quantum,
                sub == self.pctab@.skip(offs as int),
                0 <= offs,
                (offs as int) < self.pctab@.len(),
                p.quantum == q,
                wf ==> spec_lane_wf(p.ptr@, p.val, p.pc_end, q, pc),
                wf ==> spec_lane_value(p.ptr@, p.val, p.pc_end, q, pc) == goal,
                wf == spec_map_wf(sub, start_pc, q, pc),
                goal == spec_map_pcval(sub, start_pc, q, pc),
            decreases p.ptr@.len(),
        {
            let ghost pre = p;
            let stepped = p.step();
            proof {
                if pre.ptr@.len() > 0 && pre.ptr@[0] != 0 {
                    lemma_step_rest_shrinks(pre.ptr@);
                }
            }
            if !stepped {
                proof {
                    if wf {
                        assert(spec_lane_value(pre.ptr@, pre.val, pre.pc_end, q, pc) is None);
                    }
                }
                return None;
            }
            proof {
                if wf {
                    assert(spec_step_defined(pre.ptr@));
                    assert(spec_lane_value(p.ptr@, p.val, p.pc_end, q, pc) == spec_lane_value(
                        pre.ptr@,
                        pre.val,
                        pre.pc_end,
                        q,
                        pc,
                    ));
                }
            }
        }
        Some(p.val)
    }

    /// Resolves `pc` against the table: the source file, line and function
    /// name, with empty components where a part could not be read.
    ///
    /// On a consistent table with a usable lookup table, the name returned
    /// for any `pc` between the entry PC of entry `i` and the next entry
    /// PC is entry `i`'s function name.
    #[verifier::rlimit(100)]
    #[verifier::spinoff_prover]
    pub fn symbolize(&self, pc: usize) -> (r: (String, u32, String))
        ensures
            (spec_consistent(self) && spec_wf_functab(self)) ==> {
                &&& (forall|i: int|
                    spec_symbolize_covers(self, i, pc as int) ==> r.2@ == spec_symbolize_name(
                        self,
                        i,
                    ))
                &&& (forall|i: int|
                    0 <= i < self.num_funcs && #[trigger] spec_map_pc(self, i) <= pc && (i + 1
                        == self.num_funcs || pc < spec_map_pc(self, i + 1)) && pc >= spec_map_pc(
                        self,
                        i,
                    ) + 0x10000 ==> (r.0@.len() == 0 && r.1 == 0 && r.2@.len() == 0))
                &&& (forall|i: int|
                    spec_symbolize_covers(self, i, pc as int) ==> spec_symbolize_line(
                        self,
                        i,
                        pc as int,
                    ) is Some ==> r.1 == spec_symbolize_line(self, i, pc as int)->Some_0)
                &&& (forall|i: int|
                    spec_symbolize_covers(self, i, pc as int) ==> spec_symbolize_file(
                        self,
                        i,
                        pc as int,
                    ) is Some ==> r.0@ == spec_symbolize_file(self, i, pc as int)->Some_0)
                &&& (forall|i: int|
                    spec_symbolize_covers(self, i, pc as int) && spec_symbolize_name(self, i).len()
                        > 0 && spec_symbolize_misses(self, i) ==> (r.0@.len() == 0 && r.1 == 0))
                &&& ((self.num_funcs == 0 || (pc as int) < spec_map_pc(self, 0)) ==> (r.0@.len()
                    == 0 && r.1 == 0 && r.2@.len() == 0))
            },
    {
        let ghost ok = spec_consistent(self) && spec_wf_functab(self);
        let mut left: usize = 0;
        let mut right: usize = self.num_funcs;
        while left < right
            invariant
                0 <= left <= right <= self.num_funcs,
                ok == (spec_consistent(self) && spec_wf_functab(self)),
                ok ==> forall|k: int| 0 <= k < left ==> spec_map_pc(self, k) <= pc,
                ok ==> forall|k: int|
                    right <= k < self.num_funcs ==> spec_map_pc(self, k) > pc,
            decreases right - left,
        {
            let mid = left + (right - left) / 2;
            proof {
                if ok {
                    assert((mid + 1) * (self.func_map_size as int) <= (self.num_funcs as int) * (
                    self.func_map_size as int)) by (nonlinear_arith)
                        requires
                            mid + 1 <= self.num_funcs as int,
                            self.func_map_size as int >= 0,
                    ;
                    assert(spec_map_pc(self, mid as int) <= usize::MAX) by {
                        assert(spec_map_pc(self, #[trigger] ((mid as int) * 1)) <= usize::MAX);
                        assert((mid as int) * 1 == mid as int);
                    }
                }
            }
            let (func_pc, _) = self.get_func_map_entry(mid);
            if func_pc > pc {
                right = mid;
            } else {
                left = mid + 1;
                proof {
                    if ok {
                        assert forall|k: int| 0 <= k < left implies spec_map_pc(self, k)
                            <= pc by {
                            if k < mid as int {
                                assert(spec_map_pc(self, k) < spec_map_pc(self, mid as int));
                            }
                        }
                    }
                }
            }
        }
        if left == 0 {
            return (String::new(), 0, String::new());
        }
        let index = left - 1;
        proof {
            if ok {
                assert forall|i: int|
                    0 <= i < self.num_funcs && #[trigger] spec_map_pc(self, i) <= pc && (i + 1
                        == self.num_funcs || pc < spec_map_pc(self, i + 1)) implies i
                    == index as int by {
                    if i < index as int {
                        assert(spec_map_pc(self, index as int) <= pc);
                        if i + 1 < self.num_funcs {
                            assert(spec_map_pc(self, i + 1) <= spec_map_pc(self, index as int))
                                by {
                                if i + 1 < index as int {
                                    assert(spec_map_pc(self, i + 1) < spec_map_pc(
                                        self,
                                        index as int,
                                    ));
                                }
                            }
                        }
                    } else if i > index as int {
                        assert(spec_map_pc(self, i) > pc);
                    }
                }
                assert((index + 1) * (self.func_map_size as int) <= (self.num_funcs as int) * (
                self.func_map_size as int)) by (nonlinear_arith)
                    requires
                        index + 1 <= self.num_funcs as int,
                        self.func_map_size as int >= 0,
                ;
                assert(spec_map_pc(self, #[trigger] ((index as int) * 1)) <= usize::MAX);
                assert((index as int) * 1 == index as int);
            }
        }
        let (map_pc, _) = self.get_func_map_entry(index);
        // Only 64 KiB past an entry are attributed to it; a PC in a larger
        // gap lies outside the managed code and must not be misattributed.
        if pc < map_pc || pc - map_pc >= 0x10000 {
            return (String::new(), 0, String::new());
        }
        self.symbolize_at(index, pc)
    }

    /// Resolves `pc` against one lookup entry, taken to be the one whose
    /// range covers it.
    fn symbolize_at(&self, index: usize, pc: usize) -> (r: (String, u32, String))
        ensures
            (spec_consistent(self) && spec_wf_functab(self) && index < self.num_funcs) ==> {
                &&& r.2@ == spec_symbolize_name(self, index as int)
                &&& (spec_symbolize_line(self, index as int, pc as int) is Some ==> r.1
                    == spec_symbolize_line(self, index as int, pc as int)->Some_0)
                &&& (spec_symbolize_file(self, index as int, pc as int) is Some ==> r.0@
                    == spec_symbolize_file(self, index as int, pc as int)->Some_0)
                &&& (spec_symbolize_misses(self, index as int) ==> (r.0@.len() == 0 && r.1 == 0
                    && r.2@.len() == 0))
            },
    {
        let ghost ok = spec_consistent(self) && spec_wf_functab(self) && index < self.num_funcs;
        proof {
            if ok {
                assert((index + 1) * (self.func_map_size as int) <= (self.num_funcs as int) * (
                self.func_map_size as int)) by (nonlinear_arith)
                    requires
                        index + 1 <= self.num_funcs as int,
                        self.func_map_size as int >= 0,
                ;
                assert(spec_map_pc(self, #[trigger] ((index as int) * 1)) <= usize::MAX);
                assert((index as int) * 1 == index as int);
            }
        }
        let (map_pc, func_off) = self.get_func_map_entry(index);
        let looked = self.get_func(func_off);
        match looked {
            Some((func_pc, func)) => {
                if map_pc != func_pc {
                    return (String::new(), 0, String::new());
                }
                let func_name: String = if func.name_off >= 0 {
                    get_string(self.funcnametab.as_slice(), func.name_off as usize)
                } else {
                    String::new()
                };
                let source_file = self.file_for(&func, func_pc, pc);
                let line = self.line_for(&func, func_pc, pc);
                (source_file, line, func_name)
            },
            None => (String::new(), 0, String::new()),
        }
    }

    /// Walks the record's line lane for `pc`: the lane value read as an
    /// unsigned line number, zero when the record carries no lane or the
    /// walk runs off it.
    fn line_for(&self, func: &PclntabFunc, func_pc: usize, pc: usize) -> (line: u32)
        ensures
            ((func.pcln_off > 0 && (func.pcln_off as int) < self.pctab@.len() && spec_map_wf(
                self.pctab@.skip(func.pcln_off as int),
                func_pc as u64,
                self.quantum,
                pc as u64,
            )) ==> line == (match spec_map_pcval(
                self.pctab@.skip(func.pcln_off as int),
                func_pc as u64,
                self.quantum,
                pc as u64,
            ) {
                Some(l) => spec_as_u32(l),
                None => 0u32,
            })),
    {
        let mut line: u32 = 0;
        if func.pcln_off != 0 {
            if let Some(line_no) = self.map_pcval(func.pcln_off, func_pc as u64, pc as u64) {
                if line_no >= 0 {
                    line = line_no as u32;
                } else {
                    line = as_u32(line_no);
                }
            }
        }
        line
    }

    /// Walks the record's file lane for `pc` and reads the named path out
    /// of the unit and file-name tables; any step out of range reads as
    /// the empty path.
    #[verifier::rlimit(100)]
    #[verifier::spinoff_prover]
    fn file_for(&self, func: &PclntabFunc, func_pc: usize, pc: usize) -> (path: String)
        ensures
            ((func.pcfile_off > 0 && (func.pcfile_off as int) < self.pctab@.len() && spec_map_wf(
                self.pctab@.skip(func.pcfile_off as int),
                func_pc as u64,
                self.quantum,
                pc as u64,
            )) ==> path@ == (match spec_map_pcval(
                self.pctab@.skip(func.pcfile_off as int),
                func_pc as u64,
                self.quantum,
                pc as u64,
            ) {
                Some(raw) => {
                    let fi = if self.version >= GO1_16 {
                        spec_wrap_i32(raw + func.npc_data) as int
                    } else {
                        raw as int
                    };
                    if 0 <= fi <= 0x1fffffff {
                        if 4 * fi + 4 <= self.cutab@.len() {
                            let off = spec_as_i32(spec_u32_le(self.cutab@, 4 * fi));
                            if off >= 0 {
                                spec_get_string(self.filetab@, off as int)
                            } else {
                                Seq::empty()
                            }
                        } else {
                            Seq::empty()
                        }
                    } else {
                        Seq::empty()
                    }
                },
                None => Seq::empty(),
            })),
    {
        let mut source_file = String::new();
        if func.pcfile_off != 0 {
            if let Some(raw_index) = self.map_pcval(func.pcfile_off, func_pc as u64, pc as u64) {
                let file_index = if self.version >= GO1_16 {
                    raw_index.wrapping_add(func.npc_data)
                } else {
                    raw_index
                };
                if file_index >= 0 && file_index <= 0x1fffffff {
                    let cu_off = (file_index as usize) * 4;
                    if let Some(file_offset) = get_int32(self.cutab.as_slice(), cu_off) {
                        if file_offset >= 0 {
                            source_file = get_string(self.filetab.as_slice(), file_offset as usize);
                        }
                    }
                }
            }
        }
        source_file
    }
}

fn as_u32(v: i32) -> (r: u32)
    ensures
        r == spec_as_u32(v),
{
    if v >= 0 {
        v as u32
    } else {
        ((v - (-0x7fffffff - 1)) as u32) + 0x80000000
    }
}

/// The quantum the signature template carries for an architecture name:
/// four for aarch64, one otherwise.
pub open spec fn spec_arch_quantum(arch: Seq<char>) -> u8 {
    if arch == "x86_64"@ {
        1
    } else if arch == "aarch64"@ {
        4
    } else {
        1
    }
}

/// The seven bytes at offsets one to seven of any well-formed table header:
/// the three shared high magic bytes, the zero padding, the architecture's
/// quantum, and the 64-bit pointer size.  The first header byte varies by
/// layout generation and is left out.
pub fn pclntab_header_signature(arch: &str) -> (r: Vec<u8>)
    ensures
        r@ =~= seq![0xffu8, 0xffu8, 0xffu8, 0u8, 0u8, spec_arch_quantum(arch@), 8u8],
{
    let quantum: u8 = if crate::strutil::str_eq(arch, "x86_64") {
        0x1
    } else if crate::strutil::str_eq(arch, "aarch64") {
        0x4
    } else {
        0x1
    };
    let mut r: Vec<u8> = Vec::new();
    r.push(0xff);
    r.push(0xff);
    r.push(0xff);
    r.push(0x00);
    r.push(0x00);
    r.push(quantum);
    r.push(0x08);
    r
}

/// Whether the signature template for quantum `q` stands at `off`.
pub open spec fn spec_sig_match(data: Seq<u8>, off: int, q: u8) -> bool {
    off >= 0 && off + 7 <= data.len() && data[off] == 0xff && data[off + 1] == 0xff && data[off
        + 2] == 0xff && data[off + 3] == 0 && data[off + 4] == 0 && data[off + 5] == q && data[off
        + 6] == 8
}

/// Whether a well-formed header for quantum `q` starts at `off`: a known
/// magic word followed by the signature template.
pub open spec fn spec_header_candidate(data: Seq<u8>, off: int, q: u8) -> bool {
    off >= 0 && off + 4 <= data.len() && spec_sig_match(data, off + 1, q)
        && spec_go_magic_to_version(spec_u32_le(data, off)) != GO_INVALID
}

fn sig_match_at(data: &[u8], off: usize, q: u8) -> (r: bool)
    requires
        off + 7 <= data@.len(),
    ensures
        r == spec_sig_match(data@, off as int, q),
{
    data[off] == 0xff && data[off + 1] == 0xff && data[off + 2] == 0xff && data[off + 3] == 0
        && data[off + 4] == 0 && data[off + 5] == q && data[off + 6] == 8
}

/// Scans read-only data for a table header: a known magic word whose next
/// seven bytes are the signature template for the given architecture.
/// Returns the data from the first such header on, and nothing exactly
/// when no such header stands anywhere.
pub fn search_go_pclntab(data: &[u8], arch: &str) -> (r: Option<Vec<u8>>)
    ensures
        r is Some ==> exists|off: int|
            spec_header_candidate(data@, off, spec_arch_quantum(arch@)) && r->Some_0@
                == data@.skip(off),
        r is Some ==> {
            let off = choose|off: int|
                spec_header_candidate(data@, off, spec_arch_quantum(arch@)) && (forall|o2: int|
                    0 <= o2 < off ==> !spec_header_candidate(data@, o2, spec_arch_quantum(arch@)));
            r->Some_0@ == data@.skip(off)
        },
        r is None ==> forall|off: int|
            !spec_header_candidate(data@, off, spec_arch_quantum(arch@)),
{
    let sig = pclntab_header_signature(arch);
    let q = sig[5];
    let n: usize = data.len();
    if n < 8 {
        proof {
            assert forall|off: int| !spec_header_candidate(
                data@,
                off,
                spec_arch_quantum(arch@),
            ) by {
                if spec_header_candidate(data@, off, q) {
                    assert(off + 8 <= data@.len());
                }
            }
        }
        return None;
    }
    let mut j: usize = 1;
    while j <= n - 7
        invariant
            1 <= j,
            n == data@.len(),
            n >= 8,
            q == spec_arch_quantum(arch@),
            forall|off: int| 0 <= off < j - 1 ==> !spec_header_candidate(data@, off, q),
        decreases n - j,
    {
        if sig_match_at(data, j, q) {
            let magic_off = j - 1;
            let magic = read_u32_le(data, magic_off).unwrap();
            if go_magic_to_version(magic) != GO_INVALID {
                let out = tail_vec(data, magic_off);
                proof {
                    assert(spec_header_candidate(data@, magic_off as int, q));
                    let w = choose|off: int|
                        spec_header_candidate(data@, off, q) && (forall|o2: int|
                            0 <= o2 < off ==> !spec_header_candidate(data@, o2, q));
                    assert(w == magic_off as int) by {
                        if w < magic_off as int {
                            assert(!spec_header_candidate(data@, w, q));
                        } else if w > magic_off as int {
                            assert(!spec_header_candidate(data@, magic_off as int, q));
                        }
                    }
                }
                return Some(out);
            }
        }
        proof {
            assert forall|off: int| 0 <= off < j implies !spec_header_candidate(
                data@,
                off,
                q,
            ) by {
                if off == j - 1 && spec_header_candidate(data@, off, q) {
                    assert(spec_sig_match(data@, off + 1, q));
                }
            }
        }
        j = j + 1;
    }
    proof {
        assert forall|off: int| !spec_header_candidate(data@, off, q) by {
            if spec_header_candidate(data@, off, q) {
                assert(off + 1 + 7 <= data@.len());
                assert(0 <= off < j - 1);
            }
        }
    }
    None
}

/// The canonical LEB128 encoding of a 32-bit word.
pub open spec fn spec_leb_enc(v: u32) -> Seq<u8>
    decreases v,
{
    if v < 128 {
        seq![v as u8]
    } else {
        seq![(v % 128 + 128) as u8] + spec_leb_enc(v / 128)
    }
}

/// The zig-zag encoding of a signed delta.
pub open spec fn spec_zz_enc(x: int) -> u32 {
    if x >= 0 {
        (2 * x) as u32
    } else {
        (-2 * x - 1) as u32
    }
}

/// The signed difference of two decoder values, reduced into 32-bit range.
pub open spec fn spec_val_delta(next: i32, prev: i32) -> int {
    spec_wrap_i32(next - prev) as int
}

/// Encodes a table of `(pc, value)` pairs as one lane program for the
/// given quantum: one step per pair, each covering from its own PC to the
/// next pair's PC (the last to `end_pc`), with the zero terminator after
/// them.  `prev_val` is the value the decoder carries into the first
/// step.
pub open spec fn spec_encode_lane(vals: Seq<(u64, i32)>, prev_val: i32, end_pc: u64, q: u8) -> Seq<
    u8,
>
    decreases vals.len(),
{
    if vals.len() == 0 {
        seq![0u8]
    } else {
        let next = if vals.len() >= 2 {
            vals[1].0
        } else {
            end_pc
        };
        let d = spec_zz_enc(spec_val_delta(vals[0].1, prev_val));
        let pd = (((next - vals[0].0) as int) / (q as int)) as u32;
        spec_leb_enc(d) + spec_leb_enc(pd) + spec_encode_lane(vals.skip(1), vals[0].1, end_pc, q)
    }
}

/// The value the table holds for `pc`: that of the pair with the greatest
/// PC not above it.  Meaningful for `pc` at or past the first pair's PC.
pub open spec fn spec_step_lookup(vals: Seq<(u64, i32)>, pc: u64) -> i32
    decreases vals.len(),
{
    if vals.len() == 0 {
        0
    } else if vals.len() == 1 || pc < vals[1].0 {
        vals[0].1
    } else {
        spec_step_lookup(vals.skip(1), pc)
    }
}

/// A table fit for encoding at quantum `q`: PCs strictly increasing and
/// ending before `end_pc`, PC deltas multiples of the quantum and within
/// 32 bits of it, and consecutive values distinct (a zero value delta
/// would read as the lane terminator).
pub open spec fn spec_encodable(vals: Seq<(u64, i32)>, prev_val: i32, end_pc: u64, q: u8) -> bool {
    q >= 1 && (forall|i: int, j: int|
        0 <= i < j < vals.len() ==> (#[trigger] vals[i]).0 < (#[trigger] vals[j]).0) && (vals.len()
        > 0 ==> vals[vals.len() - 1].0 < end_pc) && (forall|i: int|
        0 <= i < vals.len() - 1 ==> ((#[trigger] vals[i + 1]).0 - vals[i].0) % (q as int) == 0
            && (vals[i + 1].0 - vals[i].0) / (q as int) <= u32::MAX) && (vals.len() > 0 ==> (end_pc
        - vals[vals.len() - 1].0) % (q as int) == 0 && (end_pc - vals[vals.len() - 1].0) / (
    q as int) <= u32::MAX) && (vals.len() > 0 ==> vals[0].1 != prev_val) && (forall|i: int|
        0 <= i < vals.len() - 1 ==> (#[trigger] vals[i + 1]).1 != vals[i].1)
}

proof fn lemma_zz_round_trip(x: int)
    requires
        i32::MIN <= x <= i32::MAX,
    ensures
        spec_zigzag(spec_zz_enc(x)) == x,
        x != 0 ==> spec_zz_enc(x) != 0,
{
    if x >= 0 {
        assert(spec_zz_enc(x) == 2 * x);
        assert(spec_zz_enc(x) % 2 == 0);
    } else {
        assert(spec_zz_enc(x) == -2 * x - 1);
        assert(spec_zz_enc(x) % 2 == 1);
    }
}

proof fn lemma_wrap_delta(prev: i32, next: i32)
    ensures
        spec_wrap_i32(prev + spec_val_delta(next, prev)) == next,
        (spec_val_delta(next, prev) == 0) == (next == prev),
{
}

/// Decoding an encoded word from the head of a stream yields the word and
/// consumes exactly its bytes.
proof fn lemma_leb_enc_decode(v: u32, rest: Seq<u8>)
    ensures
        spec_leb_ok(spec_leb_enc(v) + rest),
        spec_leb_int(spec_leb_enc(v) + rest) == v,
        spec_leb_len(spec_leb_enc(v) + rest) == spec_leb_enc(v).len(),
        (spec_leb_enc(v) + rest).skip(spec_leb_enc(v).len() as int) =~= rest,
        spec_leb_enc(v).len() >= 1,
        spec_leb_enc(v)[0] != 0 || v == 0,
    decreases v,
{
    let s = spec_leb_enc(v) + rest;
    if v < 128 {
        assert(s[0] == v as u8);
        assert(s.skip(1) =~= rest);
    } else {
        assert(s[0] == (v % 128 + 128) as u8);
        assert(s[0] >= 128);
        lemma_leb_enc_decode(v / 128, rest);
        assert(s.skip(1) =~= spec_leb_enc(v / 128) + rest);
        assert(spec_leb_int(s) == (s[0] - 128) + 128 * spec_leb_int(s.skip(1)));
        assert(spec_leb_int(s) == v % 128 + 128 * (v / 128));
        assert(s.skip(1).skip(spec_leb_enc(v / 128).len() as int) =~= rest);
        assert(s.skip(spec_leb_enc(v).len() as int) =~= s.skip(1).skip(
            spec_leb_enc(v / 128).len() as int,
        ));
    }
}

/// The decoder walks an encoded table exactly: started before the first
/// pair, it answers the table's value for every PC the table covers,
/// `None` past its end.
proof fn lemma_lane_decode(
    vals: Seq<(u64, i32)>,
    prev_val: i32,
    end_pc: u64,
    cur: u64,
    q: u8,
    pc: u64,
)
    requires
        spec_encodable(vals, prev_val, end_pc, q),
        cur == (if vals.len() > 0 {
            vals[0].0
        } else {
            end_pc
        }),
    ensures
        spec_lane_wf(spec_encode_lane(vals, prev_val, end_pc, q), prev_val, cur, q, pc),
        spec_lane_value(spec_encode_lane(vals, prev_val, end_pc, q), prev_val, cur, q, pc) == (
        if pc < cur {
            Some(prev_val)
        } else if pc >= end_pc {
            None::<i32>
        } else {
            Some(spec_step_lookup(vals, pc))
        }),
    decreases vals.len(),
{
    let enc = spec_encode_lane(vals, prev_val, end_pc, q);
    if vals.len() == 0 {
        assert(enc =~= seq![0u8]);
        assert(enc[0] == 0);
    } else {
        let next = if vals.len() >= 2 {
            vals[1].0
        } else {
            end_pc
        };
        assert(vals[0].0 < next) by {
            if vals.len() >= 2 {
                assert(vals[0].0 < vals[1].0);
            } else {
                assert(vals[vals.len() - 1] == vals[0]);
            }
        }
        let step: int = next - vals[0].0;
        assert(step % (q as int) == 0 && step / (q as int) <= u32::MAX) by {
            if vals.len() >= 2 {
                assert((vals[0int + 1].0 - vals[0].0) % (q as int) == 0 && (vals[0int + 1].0
                    - vals[0].0) / (q as int) <= u32::MAX);
            } else {
                assert(vals[vals.len() - 1] == vals[0]);
            }
        }
        let delta = spec_val_delta(vals[0].1, prev_val);
        let d = spec_zz_enc(delta);
        let pd = (step / (q as int)) as u32;
        let tail_enc = spec_encode_lane(vals.skip(1), vals[0].1, end_pc, q);
        assert(enc == spec_leb_enc(d) + spec_leb_enc(pd) + tail_enc);
        lemma_wrap_delta(prev_val, vals[0].1);
        lemma_zz_round_trip(delta);
        assert(d != 0);
        lemma_leb_enc_decode(d, spec_leb_enc(pd) + tail_enc);
        assert((spec_leb_enc(d) + (spec_leb_enc(pd) + tail_enc)) =~= enc);
        assert(enc[0] != 0) by {
            assert(enc[0] == spec_leb_enc(d)[0]);
        }
        assert(enc.skip(spec_leb_len(enc)) =~= spec_leb_enc(pd) + tail_enc);
        lemma_leb_enc_decode(pd, tail_enc);
        assert(spec_step_defined(enc));
        assert(spec_step_d(enc) == d);
        assert(spec_step_d2(enc) == pd);
        assert(spec_step_rest(enc) =~= tail_enc);
        assert(spec_step_val(enc, prev_val) == vals[0].1);
        assert(spec_step_pc(enc, cur, q) == next) by {
            vstd::arithmetic::div_mod::lemma_fundamental_div_mod(step, q as int);
            assert((pd as int) * (q as int) == step) by (nonlinear_arith)
                requires
                    step == (q as int) * (step / (q as int)) + step % (q as int),
                    step % (q as int) == 0,
                    pd as int == step / (q as int),
            ;
            assert(cur + pd * q == next);
        }
        // The remaining pairs form an encodable table for the next state.
        assert(spec_encodable(vals.skip(1), vals[0].1, end_pc, q)) by {
            let t = vals.skip(1);
            assert(forall|i: int, j: int|
                0 <= i < j < t.len() ==> (#[trigger] t[i]).0 < (#[trigger] t[j]).0) by {
                assert(forall|i: int| 0 <= i < t.len() ==> t[i] == vals[i + 1]);
            }
            assert(forall|i: int| 0 <= i < t.len() ==> t[i] == vals[i + 1]);
            if t.len() > 0 {
                assert(t[t.len() - 1] == vals[vals.len() - 1]);
                assert(t[0].1 == vals[0int + 1].1);
                assert(vals[0int + 1].1 != vals[0].1);
            }
            assert(forall|i: int|
                0 <= i < t.len() - 1 ==> ((#[trigger] t[i + 1]).0 - t[i].0) % (q as int) == 0 && (
                t[i + 1].0 - t[i].0) / (q as int) <= u32::MAX) by {
                assert forall|i: int|
                    0 <= i < t.len() - 1 implies ((#[trigger] t[i + 1]).0 - t[i].0) % (q as int)
                    == 0 && (t[i + 1].0 - t[i].0) / (q as int) <= u32::MAX by {
                    assert(t[i + 1] == vals[i + 2]);
                    assert(t[i] == vals[i + 1]);
                    assert((vals[(i + 1) + 1].0 - vals[i + 1].0) % (q as int) == 0 && (vals[(i + 1)
                        + 1].0 - vals[i + 1].0) / (q as int) <= u32::MAX);
                }
            }
            assert(forall|i: int|
                0 <= i < t.len() - 1 ==> (#[trigger] t[i + 1]).1 != t[i].1) by {
                assert forall|i: int|
                    0 <= i < t.len() - 1 implies (#[trigger] t[i + 1]).1 != t[i].1 by {
                    assert(t[i + 1] == vals[i + 2]);
                    assert(t[i] == vals[i + 1]);
                    assert(vals[(i + 1) + 1].1 != vals[i + 1].1);
                }
            }
        }
        lemma_lane_decode(vals.skip(1), vals[0].1, end_pc, next, q, pc);
        if pc < cur {
            assert(spec_lane_value(enc, prev_val, cur, q, pc) == Some(prev_val));
        } else {
            assert(spec_lane_value(enc, prev_val, cur, q, pc) == spec_lane_value(
                tail_enc,
                vals[0].1,
                next,
                q,
                pc,
            ));
            if pc < next {
                assert(spec_step_lookup(vals, pc) == vals[0].1);
                assert(pc < end_pc) by {
                    if vals.len() >= 2 {
                        assert(vals[vals.len() - 1].0 < end_pc);
                        assert(vals[1].0 <= vals[vals.len() - 1].0) by {
                            if 1 < vals.len() - 1 {
                                assert(vals[1].0 < vals[vals.len() - 1].0);
                            }
                        }
                    }
                }
            } else {
                assert(vals.len() >= 2 || pc >= end_pc);
                if vals.len() >= 2 {
                    assert(spec_step_lookup(vals, pc) == spec_step_lookup(vals.skip(1), pc));
                }
            }
        }
    }
}

/// Round trip of the delta-lane codec, for any quantum: encoding a table
/// of `(pc, value)` pairs and then querying any PC the table covers
/// returns the value of the pair with the greatest PC not above it; a PC
/// past the table's end is reported out of range.
pub proof fn lemma_delta_lane_round_trip(vals: Seq<(u64, i32)>, end_pc: u64, q: u8, pc: u64)
    requires
        vals.len() > 0,
        spec_encodable(vals, -1i32, end_pc, q),
        vals[0].0 <= pc < end_pc,
    ensures
        spec_map_wf(spec_encode_lane(vals, -1i32, end_pc, q), vals[0].0, q, pc),
        spec_map_pcval(spec_encode_lane(vals, -1i32, end_pc, q), vals[0].0, q, pc) == Some(
            spec_step_lookup(vals, pc),
        ),
{
    let enc = spec_encode_lane(vals, -1i32, end_pc, q);
    lemma_lane_decode(vals, -1i32, end_pc, vals[0].0, q, pc);
    assert(enc.len() > 0 && enc[0] != 0) by {
        let next = if vals.len() >= 2 {
            vals[1].0
        } else {
            end_pc
        };
        let delta = spec_val_delta(vals[0].1, -1i32);
        let d = spec_zz_enc(delta);
        let pd = (((next - vals[0].0) as int) / (q as int)) as u32;
        lemma_wrap_delta(-1i32, vals[0].1);
        lemma_zz_round_trip(delta);
        lemma_leb_enc_decode(
            d,
            spec_leb_enc(pd) + spec_encode_lane(vals.skip(1), vals[0].1, end_pc, q),
        );
        assert(enc[0] == spec_leb_enc(d)[0]);
    }
    // Started at the table's first PC, the whole-lane lookup and the
    // before-first-step lane walk agree.
    assert(spec_lane_wf(enc, -1i32, vals[0].0, q, pc));
    assert(spec_lane_value(enc, -1i32, vals[0].0, q, pc) == Some(spec_step_lookup(vals, pc)));
}

} // verus!
