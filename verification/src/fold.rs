//! The aggregation and folded-stack pass: materializing sampled stacks,
//! summing counts per resolved stack string, and rendering the one-line
//! records a flame-graph renderer reads.
use vstd::prelude::*;

use crate::resolver::{
    spec_range_resolve,
    spec_resolve_flat,
    spec_resolver_wf,
    SymbolResolver,
    KERNEL_ADDR_BASE,
};
use crate::strutil::{dec_string, hex_string, spec_ascii_bytes, spec_dec, spec_hex};

verus! {

/// The frames of one materialized sample: the kernel stack before the user
/// stack, each reversed into root-first order, zero frames dropped.
pub open spec fn spec_rev_nonzero(s: Seq<u64>) -> Seq<u64>
    decreases s.len(),
{
    if s.len() == 0 {
        Seq::empty()
    } else {
        (if s.last() != 0 {
            seq![s.last()]
        } else {
            Seq::empty()
        }) + spec_rev_nonzero(s.drop_last())
    }
}

/// Joins a kernel and a user stack into one root-first PC list: each is
/// walked leaf-first as the kernel stores it, so both are reversed, zero
/// frames dropped, kernel frames first.
pub fn materialize_stack(kernel: &Vec<u64>, user: &Vec<u64>) -> (r: Vec<u64>)
    ensures
        r@ == spec_rev_nonzero(kernel@) + spec_rev_nonzero(user@),
{
    let mut r: Vec<u64> = Vec::new();
    push_rev_nonzero(&mut r, kernel);
    proof {
        assert(r@ =~= Seq::<u64>::empty() + spec_rev_nonzero(kernel@));
        assert(Seq::<u64>::empty() + spec_rev_nonzero(kernel@) =~= spec_rev_nonzero(kernel@));
    }
    push_rev_nonzero(&mut r, user);
    r
}

fn push_rev_nonzero(r: &mut Vec<u64>, s: &Vec<u64>)
    ensures
        final(r)@ == old(r)@ + spec_rev_nonzero(s@),
{
    let ghost base = old(r)@;
    let mut i: usize = s.len();
    proof {
        assert(s@.skip(0) =~= s@);
        assert(base + Seq::<u64>::empty() =~= base);
    }
    while i > 0
        invariant
            0 <= i <= s@.len(),
            r@ + spec_rev_nonzero(s@.take(i as int)) =~= base + spec_rev_nonzero(s@),
        decreases i,
    {
        i = i - 1;
        let pc = s[i];
        proof {
            assert(s@.take(i + 1).last() == s@[i as int]);
            assert(s@.take(i + 1).drop_last() =~= s@.take(i as int));
        }
        if pc != 0 {
            r.push(pc);
            proof {
                assert(r@ + spec_rev_nonzero(s@.take(i as int)) =~= base + spec_rev_nonzero(s@));
            }
        }
    }
    proof {
        assert(s@.take(0) =~= Seq::<u64>::empty());
        assert(r@ + Seq::<u64>::empty() =~= r@);
    }
}

/// The unbounded sum of the counts recorded under `key`.
pub open spec fn spec_sum_for(es: Seq<(String, u64)>, key: Seq<char>) -> int
    decreases es.len(),
{
    if es.len() == 0 {
        0
    } else {
        (if es[0].0@ == key {
            es[0].1 as int
        } else {
            0
        }) + spec_sum_for(es.skip(1), key)
    }
}

proof fn lemma_sum_remove(es: Seq<(String, u64)>, j: int, key: Seq<char>)
    requires
        0 <= j < es.len(),
    ensures
        spec_sum_for(es, key) == spec_sum_for(es.remove(j), key) + (if es[j].0@ == key {
            es[j].1 as int
        } else {
            0
        }),
    decreases j,
{
    if j == 0 {
        assert(es.remove(0) =~= es.skip(1));
    } else {
        assert(es.remove(j).skip(1) =~= es.skip(1).remove(j - 1));
        assert(es.remove(j)[0] == es[0]);
        assert(es.skip(1)[j - 1] == es[j]);
        lemma_sum_remove(es.skip(1), j - 1, key);
    }
}

/// Summing is blind to the order of the records: two snapshots that hold
/// the same multiset of `(stack string, count)` records give every stack
/// string the same total.
pub proof fn lemma_fold_order_irrelevant(e1: Seq<(String, u64)>, e2: Seq<(String, u64)>, key: Seq<
    char,
>)
    requires
        e1.to_multiset() == e2.to_multiset(),
    ensures
        spec_sum_for(e1, key) == spec_sum_for(e2, key),
    decreases e1.len(),
{
    broadcast use vstd::seq_lib::group_to_multiset_ensures;

    if e1.len() == 0 {
        assert(e2.to_multiset().len() == 0);
        assert(e2.len() == 0);
    } else {
        let x = e1[0];
        assert(e1.to_multiset().count(x) > 0) by {
            assert(e1.contains(x));
        }
        assert(e2.to_multiset().count(x) > 0);
        assert(e2.contains(x));
        let j = choose|j: int| 0 <= j < e2.len() && e2[j] == x;
        assert(e1.remove(0).to_multiset() =~= e1.to_multiset().remove(x));
        assert(e2.remove(j).to_multiset() =~= e2.to_multiset().remove(x));
        assert(e1.remove(0) =~= e1.skip(1));
        lemma_fold_order_irrelevant(e1.skip(1), e2.remove(j), key);
        lemma_sum_remove(e2, j, key);
    }
}

/// Whether some record carries the key.
pub open spec fn spec_has_key(rs: Seq<(String, u64)>, key: Seq<char>) -> bool {
    exists|a: int| 0 <= a < rs.len() && (#[trigger] rs[a]).0@ == key
}

/// Folds resolved samples into one record per distinct stack string,
/// summing counts; counts wrap at 64 bits.  Within a snapshot the record
/// order does not change any total (`lemma_fold_order_irrelevant`).
pub fn fold_stacks(entries: &Vec<(String, u64)>) -> (r: Vec<(String, u64)>)
    ensures
        forall|i: int, j: int|
            0 <= i < j < r@.len() ==> (#[trigger] r@[i]).0@ != (#[trigger] r@[j]).0@,
        forall|i: int|
            0 <= i < r@.len() ==> (#[trigger] r@[i]).1 as int == spec_sum_for(
                entries@,
                r@[i].0@,
            ) % 0x10000000000000000,
        forall|k: int| 0 <= k < entries@.len() ==> spec_has_key(r@, (#[trigger] entries@[k]).0@),
        forall|i: int| 0 <= i < r@.len() ==> spec_has_key(entries@, (#[trigger] r@[i]).0@),
{
    let ghost es = entries@;
    let mut r: Vec<(String, u64)> = Vec::new();
    let mut k: usize = 0;
    while k < entries.len()
        invariant
            es == entries@,
            0 <= k <= es.len(),
            forall|i: int, j: int|
                0 <= i < j < r@.len() ==> (#[trigger] r@[i]).0@ != (#[trigger] r@[j]).0@,
            forall|i: int|
                0 <= i < r@.len() ==> (#[trigger] r@[i]).1 as int == spec_sum_for(
                    es.take(k as int),
                    r@[i].0@,
                ) % 0x10000000000000000,
            forall|j: int| 0 <= j < k ==> spec_has_key(r@, (#[trigger] es[j]).0@),
            forall|i: int| 0 <= i < r@.len() ==> spec_has_key(es, (#[trigger] r@[i]).0@),
        decreases es.len() - k,
    {
        let key = &entries[k].0;
        let count = entries[k].1;
        let mut found = false;
        let mut i: usize = 0;
        let ghost r0 = r@;
        while i < r.len()
            invariant
                es == entries@,
                0 <= k < es.len(),
                key == es[k as int].0,
                count == es[k as int].1,
                i <= r@.len(),
                r@.len() == r0.len(),
                forall|a: int| 0 <= a < r0.len() ==> (#[trigger] r@[a]).0@ == r0[a].0@,
                forall|a: int, b: int|
                    0 <= a < b < r@.len() ==> (#[trigger] r@[a]).0@ != (#[trigger] r@[b]).0@,
                !found ==> r@ == r0,
                !found ==> forall|a: int| 0 <= a < i ==> (#[trigger] r@[a]).0@ != key@,
                forall|a: int|
                    0 <= a < r0.len() ==> (#[trigger] r0[a]).1 as int == spec_sum_for(
                        es.take(k as int),
                        r0[a].0@,
                    ) % 0x10000000000000000,
                found ==> forall|a: int|
                    0 <= a < r@.len() ==> (#[trigger] r@[a]).1 as int == spec_sum_for(
                        es.take(k + 1),
                        r@[a].0@,
                    ) % 0x10000000000000000,
                found ==> spec_has_key(r@, key@),
            decreases r@.len() - i,
        {
            if !found && crate::strutil::str_eq(r[i].0.as_str(), key.as_str()) {
                let prev = r[i].1;
                let name = r[i].0.clone();
                r[i] = (name, prev.wrapping_add(count));
                found = true;
                proof {
                    lemma_sum_take_step(es, k as int);
                    lemma_mod_add_step(
                        spec_sum_for(es.take(k as int), key@),
                        prev as int,
                        count as int,
                    );
                    assert(r@[i as int].0@ == key@);
                    assert forall|a: int| 0 <= a < r@.len() implies (#[trigger] r@[a]).1 as int
                        == spec_sum_for(es.take(k + 1), r@[a].0@) % 0x10000000000000000 by {
                        if a == i {
                            assert(spec_sum_for(es.take(k + 1), key@) == spec_sum_for(
                                es.take(k as int),
                                key@,
                            ) + count);
                        } else {
                            assert(r@[a] == r0[a]);
                            assert(r@[a].0@ != key@);
                            assert(spec_sum_for(es.take(k + 1), r@[a].0@) == spec_sum_for(
                                es.take(k as int),
                                r@[a].0@,
                            ));
                        }
                    }
                }
            }
            i = i + 1;
        }
        if !found {
            let name = key.clone();
            r.push((name, count));
            proof {
                lemma_sum_take_step(es, k as int);
                let newr = r@;
                assert(newr[newr.len() - 1].0@ == key@);
                assert forall|a: int| 0 <= a < newr.len() implies (#[trigger] newr[a]).1 as int
                    == spec_sum_for(es.take(k + 1), newr[a].0@) % 0x10000000000000000 by {
                    if a == newr.len() - 1 {
                        assert(spec_sum_for(es.take(k + 1), key@) == spec_sum_for(
                            es.take(k as int),
                            key@,
                        ) + count);
                        assert(spec_sum_for(es.take(k as int), key@) == 0) by {
                            lemma_sum_absent(es.take(k as int), key@);
                        }
                        assert(count as int % 0x10000000000000000 == count as int) by {
                            vstd::arithmetic::div_mod::lemma_small_mod(
                                count as nat,
                                0x10000000000000000,
                            );
                        }
                    } else {
                        assert(newr[a] == r0[a]);
                        assert(newr[a].0@ != key@);
                        assert(spec_sum_for(es.take(k + 1), newr[a].0@) == spec_sum_for(
                            es.take(k as int),
                            newr[a].0@,
                        ));
                    }
                }
            }
        }
        proof {
            assert(spec_has_key(r@, es[k as int].0@));
            assert forall|j: int| 0 <= j < k + 1 implies spec_has_key(
                r@,
                (#[trigger] es[j]).0@,
            ) by {
                if j < k {
                    assert(spec_has_key(r0, es[j].0@));
                    let a = choose|a: int| 0 <= a < r0.len() && (#[trigger] r0[a]).0@ == es[j].0@;
                    assert(r@[a].0@ == es[j].0@);
                }
            }
        }
        k = k + 1;
    }
    proof {
        assert(es.take(es.len() as int) =~= es);
    }
    r
}

proof fn lemma_sum_absent(prefix: Seq<(String, u64)>, key: Seq<char>)
    requires
        forall|j: int| 0 <= j < prefix.len() ==> (#[trigger] prefix[j]).0@ != key,
    ensures
        spec_sum_for(prefix, key) == 0,
    decreases prefix.len(),
{
    if prefix.len() > 0 {
        assert(forall|j: int|
            0 <= j < prefix.skip(1).len() ==> (#[trigger] prefix.skip(1)[j]).0@ == prefix[j
                + 1].0@);
        lemma_sum_absent(prefix.skip(1), key);
    }
}

/// Extending a snapshot by one record adds its count to its own key and
/// leaves every other total alone.
proof fn lemma_sum_take_step(es: Seq<(String, u64)>, k: int)
    requires
        0 <= k < es.len(),
    ensures
        forall|key: Seq<char>|
            #[trigger] spec_sum_for(es.take(k + 1), key) == spec_sum_for(es.take(k), key) + (
            if es[k].0@ == key {
                es[k].1 as int
            } else {
                0
            }),
{
    assert forall|key: Seq<char>|
        #[trigger] spec_sum_for(es.take(k + 1), key) == spec_sum_for(es.take(k), key) + (if es[
        k].0@ == key {
        es[k].1 as int
    } else {
        0
    }) by {
        lemma_sum_remove(es.take(k + 1), k, key);
        assert(es.take(k + 1).remove(k) =~= es.take(k));
        assert(es.take(k + 1)[k] == es[k]);
    }
}

proof fn lemma_mod_add_step(total: int, prev: int, count: int)
    requires
        prev == total % 0x10000000000000000,
        0 <= count < 0x10000000000000000,
    ensures
        (if prev + count > u64::MAX {
            prev + count - 0x10000000000000000
        } else {
            prev + count
        }) == (total + count) % 0x10000000000000000,
{
    let m = 0x10000000000000000;
    vstd::arithmetic::div_mod::lemma_add_mod_noop(total, count, m);
    assert(count % m == count);
    if prev + count > u64::MAX {
        assert((prev + count) % m == prev + count - m) by {
            vstd::arithmetic::div_mod::lemma_mod_sub_multiples_vanish(prev + count, m);
            vstd::arithmetic::div_mod::lemma_small_mod((prev + count - m) as nat, m as nat);
        }
    } else {
        vstd::arithmetic::div_mod::lemma_small_mod((prev + count) as nat, m as nat);
    }
}


/// What `resolve_pc` returns for a frame with only the flat tables
/// loaded: the kernel listing's verdict in the kernel range, the flat
/// chain below it.
pub open spec fn spec_resolved_flat(r: &SymbolResolver, pc: u64) -> Seq<char> {
    if pc >= KERNEL_ADDR_BASE {
        match spec_range_resolve(r.kernel_symbols@, pc, 0x10000) {
            Some(n) => n,
            None => "[unknown:0x"@ + spec_hex(pc) + "]"@,
        }
    } else {
        spec_resolve_flat(r, pc)
    }
}

/// The semicolon-joined frame symbols of one stack, root first.
pub open spec fn spec_stack_str(r: &SymbolResolver, stack: Seq<u64>) -> Seq<char>
    decreases stack.len(),
{
    if stack.len() == 0 {
        Seq::empty()
    } else if stack.len() == 1 {
        spec_resolved_flat(r, stack[0])
    } else {
        spec_stack_str(r, stack.drop_last()) + ";"@ + spec_resolved_flat(r, stack.last())
    }
}

/// The resolved entries of a snapshot: each stack's string with its count.
pub open spec fn spec_entries_of(r: &SymbolResolver, agg: Seq<(Vec<u64>, u64)>) -> Seq<
    (Seq<char>, u64),
> {
    Seq::new(agg.len(), |k: int| (spec_stack_str(r, agg[k].0@), agg[k].1))
}

/// The unbounded sum of the counts recorded under `key`, over plain
/// character-sequence entries.
pub open spec fn spec_sum_str(es: Seq<(Seq<char>, u64)>, key: Seq<char>) -> int
    decreases es.len(),
{
    if es.len() == 0 {
        0
    } else {
        (if es[0].0 == key {
            es[0].1 as int
        } else {
            0
        }) + spec_sum_str(es.skip(1), key)
    }
}

/// Whether some entry carries the key.
pub open spec fn spec_has_skey(es: Seq<(Seq<char>, u64)>, key: Seq<char>) -> bool {
    exists|a: int| 0 <= a < es.len() && (#[trigger] es[a]).0 == key
}

/// Whether `folded` is a fold of `entries` and `lines` renders it: one
/// record per distinct stack string covering every entry's string, each
/// count the (64-bit-wrapped) sum for its string, each line the string, a
/// space, and the count in decimal.
pub open spec fn spec_folded_lines_ok(
    lines: Seq<String>,
    entries: Seq<(Seq<char>, u64)>,
    folded: Seq<(Seq<char>, u64)>,
) -> bool {
    &&& (forall|i: int, j: int|
        0 <= i < j < folded.len() ==> (#[trigger] folded[i]).0 != (#[trigger] folded[j]).0)
    &&& (forall|i: int|
        0 <= i < folded.len() ==> (#[trigger] folded[i]).1 as int == spec_sum_str(
            entries,
            folded[i].0,
        ) % 0x10000000000000000)
    &&& (forall|k: int|
        0 <= k < entries.len() ==> spec_has_skey(folded, (#[trigger] entries[k]).0))
    &&& (forall|i: int|
        0 <= i < folded.len() ==> spec_has_skey(entries, (#[trigger] folded[i]).0))
    &&& lines.len() == folded.len()
    &&& (forall|i: int|
        0 <= i < folded.len() ==> (#[trigger] lines[i])@ == folded[i].0 + " "@ + spec_dec(
            folded[i].1,
        ))
}

/// String-level and sequence-level sums agree on pointwise-equal entries.
proof fn lemma_sum_transport(es: Seq<(String, u64)>, ev: Seq<(Seq<char>, u64)>, key: Seq<char>)
    requires
        es.len() == ev.len(),
        forall|k: int|
            0 <= k < es.len() ==> (#[trigger] es[k]).0@ == ev[k].0 && es[k].1 == ev[k].1,
    ensures
        spec_sum_for(es, key) == spec_sum_str(ev, key),
    decreases es.len(),
{
    if es.len() > 0 {
        assert(forall|k: int|
            0 <= k < es.skip(1).len() ==> (#[trigger] es.skip(1)[k]) == es[k + 1]);
        assert(forall|k: int|
            0 <= k < ev.skip(1).len() ==> (#[trigger] ev.skip(1)[k]) == ev[k + 1]);
        lemma_sum_transport(es.skip(1), ev.skip(1), key);
    }
}

/// One node of the flame tree: a frame name, the samples at or below it,
/// and the child frames, one per distinct name.
#[derive(Debug)]
pub struct FlameNode {
    /// Frame name.
    pub name: String,
    /// Samples accounted at or below this frame.
    pub value: u64,
    /// Child frames, one per distinct name.
    pub children: Vec<FlameNode>,
}

/// Tree soundness: no child accounts more samples than its parent, and
/// children carry distinct names.
pub open spec fn spec_node_wf(n: FlameNode) -> bool
    decreases n,
{
    (forall|i: int|
        0 <= i < n.children@.len() ==> (#[trigger] n.children@[i]).value <= n.value
            && spec_node_wf(n.children@[i])) && (forall|i: int, j: int|
        0 <= i < j < n.children@.len() ==> (#[trigger] n.children@[i]).name@ != (
        #[trigger] n.children@[j]).name@)
}

/// The names of a frame path.
pub open spec fn spec_names(sts: Seq<String>) -> Seq<Seq<char>> {
    Seq::new(sts.len(), |i: int| sts[i]@)
}

/// The samples accounted at the node a frame path leads to, zero where
/// the path leaves the tree.
pub open spec fn spec_path_value(n: FlameNode, path: Seq<Seq<char>>) -> int
    decreases path.len(),
{
    if path.len() == 0 {
        n.value as int
    } else if exists|i: int| 0 <= i < n.children@.len() && (#[trigger] n.children@[i]).name@ == path[0] {
        let i = choose|i: int|
            0 <= i < n.children@.len() && (#[trigger] n.children@[i]).name@ == path[0];
        spec_path_value(n.children@[i], path.skip(1))
    } else {
        0
    }
}

/// The folded lines of a node's subtree: the leaf line itself, or every
/// child's lines under the extended prefix, in child order.
pub open spec fn spec_fold_node(n: FlameNode, prefix: Seq<char>) -> Seq<Seq<char>>
    decreases n, 1int,
    via spec_fold_node_dec
{
    let cur = if prefix.len() == 0 {
        n.name@
    } else {
        prefix + ";"@ + n.name@
    };
    if n.children@.len() == 0 {
        seq![cur + " "@ + spec_dec(n.value)]
    } else {
        spec_fold_list(n.children@, cur)
    }
}

#[via_fn]
proof fn spec_fold_node_dec(n: FlameNode, prefix: Seq<char>) {
    broadcast use vstd::std_specs::vec::axiom_vec_decreases_to_view;

    assert(decreases_to!(n => n.children));
}

/// The folded lines of a list of subtrees, in order.
pub open spec fn spec_fold_list(cs: Seq<FlameNode>, prefix: Seq<char>) -> Seq<Seq<char>>
    decreases cs, 0int,
    via spec_fold_list_dec
{
    if cs.len() == 0 {
        Seq::empty()
    } else {
        spec_fold_node(cs[0], prefix) + spec_fold_list(cs.skip(1), prefix)
    }
}

#[via_fn]
proof fn spec_fold_list_dec(cs: Seq<FlameNode>, prefix: Seq<char>) {
    broadcast use vstd::seq::group_seq_axioms;

    if cs.len() > 0 {
        assert(decreases_to!(cs => cs[0]));
        assert(cs.skip(1) == cs.subrange(1, cs.len() as int));
        assert(decreases_to!(cs => cs.subrange(1, cs.len() as int)));
    }
}

/// Folding a list one subtree longer appends that subtree's lines.
proof fn lemma_fold_list_snoc(cs: Seq<FlameNode>, i: int, prefix: Seq<char>)
    requires
        0 <= i < cs.len(),
    ensures
        spec_fold_list(cs.take(i + 1), prefix) == spec_fold_list(cs.take(i), prefix)
            + spec_fold_node(cs[i], prefix),
    decreases i,
{
    if i == 0 {
        assert(cs.take(1)[0] == cs[0]);
        assert(cs.take(1).skip(1) =~= Seq::<FlameNode>::empty());
        assert(cs.take(0) =~= Seq::<FlameNode>::empty());
        assert(spec_fold_node(cs[0], prefix) + Seq::<Seq<char>>::empty() =~= spec_fold_node(
            cs[0],
            prefix,
        ));
        assert(spec_fold_list(cs.take(1), prefix) == spec_fold_node(cs.take(1)[0], prefix)
            + spec_fold_list(cs.take(1).skip(1), prefix));
        assert(spec_fold_list(Seq::<FlameNode>::empty(), prefix) =~= Seq::<Seq<char>>::empty());
        assert(spec_fold_list(cs.take(1).skip(1), prefix) =~= Seq::<Seq<char>>::empty());
        assert(spec_fold_list(cs.take(1), prefix) =~= spec_fold_node(cs[0], prefix));
        assert(spec_fold_list(cs.take(0), prefix) + spec_fold_node(cs[0], prefix)
            =~= spec_fold_node(cs[0], prefix));
    } else {
        assert(cs.take(i + 1)[0] == cs[0]);
        assert(cs.take(i)[0] == cs[0]);
        assert(cs.take(i + 1).skip(1) =~= cs.skip(1).take(i));
        assert(cs.take(i).skip(1) =~= cs.skip(1).take(i - 1));
        assert(cs.skip(1)[i - 1] == cs[i]);
        lemma_fold_list_snoc(cs.skip(1), i - 1, prefix);
        assert(spec_fold_node(cs[0], prefix) + (spec_fold_list(cs.skip(1).take(i - 1), prefix)
            + spec_fold_node(cs[i], prefix)) =~= (spec_fold_node(cs[0], prefix) + spec_fold_list(
            cs.skip(1).take(i - 1),
            prefix,
        )) + spec_fold_node(cs[i], prefix));
    }
}

/// The index of the child carrying the name, scanning in order.
fn find_child(children: &Vec<FlameNode>, name: &str) -> (r: Option<usize>)
    ensures
        r is Some ==> r->Some_0 < children@.len() && children@[r->Some_0 as int].name@ == name@,
        r is None ==> forall|k: int|
            0 <= k < children@.len() ==> (#[trigger] children@[k]).name@ != name@,
{
    let mut idx: usize = 0;
    while idx < children.len()
        invariant
            0 <= idx <= children@.len(),
            forall|k: int| 0 <= k < idx ==> (#[trigger] children@[k]).name@ != name@,
        decreases children@.len() - idx,
    {
        if crate::strutil::str_eq(children[idx].name.as_str(), name) {
            return Some(idx);
        }
        idx = idx + 1;
    }
    None
}

/// With distinct child names, the path value goes through the named
/// child.
proof fn lemma_path_value_child(n: FlameNode, path: Seq<Seq<char>>, idx: int)
    requires
        path.len() > 0,
        0 <= idx < n.children@.len(),
        n.children@[idx].name@ == path[0],
        forall|i: int, j: int|
            0 <= i < j < n.children@.len() ==> (#[trigger] n.children@[i]).name@ != (
            #[trigger] n.children@[j]).name@,
    ensures
        spec_path_value(n, path) == spec_path_value(n.children@[idx], path.skip(1)),
{
    assert(exists|i: int|
        0 <= i < n.children@.len() && (#[trigger] n.children@[i]).name@ == path[0]) by {
        assert(n.children@[idx].name@ == path[0]);
    }
    let w = choose|i: int|
        0 <= i < n.children@.len() && (#[trigger] n.children@[i]).name@ == path[0];
    if w != idx {
        if w < idx {
            assert(n.children@[w].name@ != n.children@[idx].name@);
        } else {
            assert(n.children@[idx].name@ != n.children@[w].name@);
        }
    }
}

impl FlameNode {
    /// A fresh frame with no samples.
    pub fn new(name: String) -> (r: Self)
        ensures
            r.name == name,
            r.value == 0,
            r.children@.len() == 0,
            spec_node_wf(r),
    {
        FlameNode { name, value: 0, children: Vec::new() }
    }

    /// Accounts one aggregated sample along the given frame path, creating
    /// child frames as the path demands.
    pub fn add_sample(&mut self, stack: &[String], value: u64)
        requires
            spec_node_wf(*old(self)),
            old(self).value + value <= u64::MAX,
        ensures
            spec_node_wf(*final(self)),
            final(self).name == old(self).name,
            final(self).value == old(self).value + value,
            forall|j: int|
                0 <= j <= stack@.len() ==> #[trigger] spec_path_value(
                    *final(self),
                    spec_names(stack@).take(j),
                ) == spec_path_value(*old(self), spec_names(stack@).take(j)) + value,
        decreases stack@.len(),
    {
        self.value = self.value + value;
        let ghost pre0 = *old(self);
        let ghost names = spec_names(stack@);
        if stack.len() > 0 {
            let first = &stack[0];
            let rest = vstd::slice::slice_subrange(stack, 1, stack.len());
            proof {
                assert(rest@ =~= stack@.skip(1));
                assert(spec_names(rest@) =~= names.skip(1));
                assert(names[0] == stack@[0]@);
            }
            let n = self.children.len();
            let ghost pre = *self;
            let found = find_child(&self.children, first.as_str());
            let idx: usize = match found {
                Some(i) => i,
                None => n,
            };
            proof {
                if found is Some {
                    assert(pre.children@[idx as int].name@ == stack@[0]@);
                } else {
                    assert(forall|k: int|
                        0 <= k < n ==> (#[trigger] pre.children@[k]).name@ != stack@[0]@);
                }
            }
            if idx < n {
                let mut child = self.children.remove(idx);
                proof {
                    assert(pre.children@[idx as int] == child);
                    assert(spec_node_wf(child));
                    assert(child.name@ == stack@[0]@);
                }
                child.add_sample(rest, value);
                self.children.insert(idx, child);
                proof {
                    assert(forall|i: int|
                        0 <= i < self.children@.len() && i != idx ==> #[trigger] self.children@[i]
                            == pre.children@[i]);
                    assert(self.children@[idx as int] == child);
                    assert(child.name@ == pre.children@[idx as int].name@);
                    assert(spec_node_wf(*self)) by {
                        assert(forall|i: int, j: int|
                            0 <= i < j < self.children@.len() ==> (
                            #[trigger] self.children@[i]).name@ != (
                            #[trigger] self.children@[j]).name@);
                    }
                    assert forall|j: int| 0 <= j <= stack@.len() implies #[trigger] spec_path_value(
                        *self,
                        names.take(j),
                    ) == spec_path_value(pre0, names.take(j)) + value by {
                        if j == 0 {
                            assert(names.take(0) =~= Seq::<Seq<char>>::empty());
                        } else {
                            let path = names.take(j);
                            assert(path[0] == stack@[0]@);
                            lemma_path_value_child(*self, path, idx as int);
                            lemma_path_value_child(pre0, path, idx as int);
                            assert(path.skip(1) =~= spec_names(rest@).take(j - 1));
                            assert(spec_path_value(child, spec_names(rest@).take(j - 1))
                                == spec_path_value(
                                pre.children@[idx as int],
                                spec_names(rest@).take(j - 1),
                            ) + value);
                        }
                    }
                }
            } else {
                let mut child = FlameNode::new(first.clone());
                let ghost fresh = child;
                child.add_sample(rest, value);
                self.children.push(child);
                proof {
                    assert(forall|i: int|
                        0 <= i < self.children@.len() - 1 ==> #[trigger] self.children@[i]
                            == pre.children@[i]);
                    assert(self.children@[self.children@.len() - 1] == child);
                    assert(child.name@ == stack@[0]@);
                    assert(spec_node_wf(*self)) by {
                        assert(forall|i: int, j: int|
                            0 <= i < j < self.children@.len() ==> (
                            #[trigger] self.children@[i]).name@ != (
                            #[trigger] self.children@[j]).name@);
                    }
                    assert forall|j: int| 0 <= j <= stack@.len() implies #[trigger] spec_path_value(
                        *self,
                        names.take(j),
                    ) == spec_path_value(pre0, names.take(j)) + value by {
                        if j == 0 {
                            assert(names.take(0) =~= Seq::<Seq<char>>::empty());
                        } else {
                            let path = names.take(j);
                            assert(path[0] == stack@[0]@);
                            lemma_path_value_child(*self, path, self.children@.len() - 1);
                            // No earlier child carries the name, so the old
                            // tree's path leaves it at once.
                            assert(spec_path_value(pre0, path) == 0) by {
                                if exists|i: int|
                                    0 <= i < pre0.children@.len() && (
                                    #[trigger] pre0.children@[i]).name@ == path[0] {
                                    let w = choose|i: int|
                                        0 <= i < pre0.children@.len() && (
                                        #[trigger] pre0.children@[i]).name@ == path[0];
                                    assert(pre0.children@[w].name@ != stack@[0]@);
                                }
                            }
                            assert(path.skip(1) =~= spec_names(rest@).take(j - 1));
                            assert(spec_path_value(fresh, spec_names(rest@).take(j - 1)) == 0) by {
                                if spec_names(rest@).take(j - 1).len() > 0 {
                                    assert(fresh.children@.len() == 0);
                                }
                            }
                            assert(spec_path_value(child, spec_names(rest@).take(j - 1))
                                == value);
                        }
                    }
                }
            }
        } else {
            proof {
                assert forall|j: int| 0 <= j <= stack@.len() implies #[trigger] spec_path_value(
                    *self,
                    names.take(j),
                ) == spec_path_value(pre0, names.take(j)) + value by {
                    assert(names.take(j) =~= Seq::<Seq<char>>::empty());
                }
            }
        }
    }

    /// Renders the subtree as folded-stack lines: one line per leaf, the
    /// frame path joined with semicolons, the leaf's sample count after a
    /// space.  Exactly the lines of `spec_fold_node`, in child order.
    pub fn to_folded(&self, prefix: &str) -> (r: Vec<String>)
        ensures
            r@.len() == spec_fold_node(*self, prefix@).len(),
            forall|i: int|
                0 <= i < r@.len() ==> (#[trigger] r@[i])@ == spec_fold_node(*self, prefix@)[i],
        decreases *self,
    {
        let ghost cur = (if prefix@.len() == 0 {
            self.name@
        } else {
            prefix@ + ";"@ + self.name@
        });
        let mut result: Vec<String> = Vec::new();
        let current_name: String = if prefix.is_empty() {
            self.name.clone()
        } else {
            let mut s = prefix.to_owned();
            s.append(";");
            s.append(self.name.as_str());
            s
        };
        proof {
            assert(current_name@ == cur);
        }
        if self.children.len() == 0 {
            let mut line = current_name;
            line.append(" ");
            let vs = dec_string(self.value);
            line.append(vs.as_str());
            result.push(line);
        } else {
            let ghost cs = self.children@;
            let mut i: usize = 0;
            proof {
                assert(cs.take(0) =~= Seq::<FlameNode>::empty());
            }
            while i < self.children.len()
                invariant
                    cs == self.children@,
                    cur == (if prefix@.len() == 0 {
                        self.name@
                    } else {
                        prefix@ + ";"@ + self.name@
                    }),
                    current_name@ == cur,
                    0 <= i <= cs.len(),
                    result@.len() == spec_fold_list(cs.take(i as int), cur).len(),
                    forall|k: int|
                        0 <= k < result@.len() ==> (#[trigger] result@[k])@ == spec_fold_list(
                            cs.take(i as int),
                            cur,
                        )[k],
                decreases cs.len() - i,
            {
                proof {
                    broadcast use vstd::std_specs::vec::axiom_vec_index_decreases;
                }
                let child = &self.children[i];
                let mut lines = child.to_folded(current_name.as_str());
                proof {
                    lemma_fold_list_snoc(cs, i as int, cur);
                }
                let mut j: usize = 0;
                let m = lines.len();
                while j < m
                    invariant
                        cs == self.children@,
                        0 <= i < cs.len(),
                        0 <= j <= m,
                        m == lines@.len(),
                        lines@.len() == spec_fold_node(cs[i as int], cur).len(),
                        forall|k: int|
                            0 <= k < m ==> (#[trigger] lines@[k])@ == spec_fold_node(
                                cs[i as int],
                                cur,
                            )[k],
                        result@.len() == spec_fold_list(cs.take(i as int), cur).len() + j,
                        forall|k: int|
                            0 <= k < result@.len() ==> (#[trigger] result@[k])@ == (spec_fold_list(
                                cs.take(i as int),
                                cur,
                            ) + spec_fold_node(cs[i as int], cur))[k],
                    decreases m - j,
                {
                    result.push(lines[j].clone());
                    j = j + 1;
                }
                i = i + 1;
            }
            proof {
                assert(cs.take(cs.len() as int) =~= cs);
            }
        }
        result
    }
}

/// Renders aggregated samples in the external flame-graph formats.
pub struct FlameGraphExporter {}

impl FlameGraphExporter {
    /// A new exporter; it carries no state of its own.
    pub fn new() -> (r: FlameGraphExporter)
        ensures
            r == (FlameGraphExporter {  }),
    {
        FlameGraphExporter {  }
    }

    /// Renders one folded-stack line per distinct resolved stack: the
    /// frame symbols joined root-first with semicolons, then a space and
    /// the summed count.  Identical stack strings are merged by summing
    /// (`fold_stacks`), so the record order of the snapshot only reorders
    /// the lines.  With only the flat tables loaded, the output is a
    /// rendered fold of exactly the resolved entries.
    #[verifier::rlimit(100)]
    #[verifier::spinoff_prover]
    pub fn export_folded_stacks(
        &self,
        aggregated_data: &Vec<(Vec<u64>, u64)>,
        resolver: &SymbolResolver,
    ) -> (r: Vec<String>)
        requires
            spec_resolver_wf(resolver),
        ensures
            (resolver.dwarf_parser is None && resolver.gopclntab is None && spec_ascii_bytes(
                resolver.string_table@,
            )) ==> exists|folded: Seq<(Seq<char>, u64)>|
                #[trigger] spec_folded_lines_ok(
                    r@,
                    spec_entries_of(resolver, aggregated_data@),
                    folded,
                ),
    {
        let ghost flat = resolver.dwarf_parser is None && resolver.gopclntab is None
            && spec_ascii_bytes(resolver.string_table@);
        let ghost ev = spec_entries_of(resolver, aggregated_data@);
        let mut entries: Vec<(String, u64)> = Vec::new();
        let mut k: usize = 0;
        while k < aggregated_data.len()
            invariant
                spec_resolver_wf(resolver),
                flat == (resolver.dwarf_parser is None && resolver.gopclntab is None
                    && spec_ascii_bytes(resolver.string_table@)),
                ev == spec_entries_of(resolver, aggregated_data@),
                0 <= k <= aggregated_data@.len(),
                entries@.len() == k,
                flat ==> forall|j: int|
                    0 <= j < k ==> (#[trigger] entries@[j]).0@ == ev[j].0 && entries@[j].1
                        == ev[j].1,
            decreases aggregated_data@.len() - k,
        {
            let stack = &aggregated_data[k].0;
            let count = aggregated_data[k].1;
            let mut stack_str = String::new();
            let mut i: usize = 0;
            proof {
                assert(stack@.take(0) =~= Seq::<u64>::empty());
            }
            while i < stack.len()
                invariant
                    spec_resolver_wf(resolver),
                    flat == (resolver.dwarf_parser is None && resolver.gopclntab is None
                        && spec_ascii_bytes(resolver.string_table@)),
                    stack@ == aggregated_data@[k as int].0@,
                    k < aggregated_data@.len(),
                    0 <= i <= stack@.len(),
                    flat ==> stack_str@ == spec_stack_str(resolver, stack@.take(i as int)),
                decreases stack@.len() - i,
            {
                if i > 0 {
                    stack_str.append(";");
                }
                let symbol = resolver.resolve_pc(stack[i]);
                stack_str.append(symbol.as_str());
                proof {
                    if flat {
                        assert(symbol@ == spec_resolved_flat(resolver, stack@[i as int]));
                        assert(stack@.take(i + 1).drop_last() =~= stack@.take(i as int));
                        assert(stack@.take(i + 1).last() == stack@[i as int]);
                    }
                }
                i = i + 1;
            }
            proof {
                assert(stack@.take(stack@.len() as int) =~= stack@);
            }
            entries.push((stack_str, count));
            k = k + 1;
        }
        let folded = fold_stacks(&entries);
        let mut lines: Vec<String> = Vec::new();
        let ghost fv = Seq::new(folded@.len() as nat, |i: int| (folded@[i].0@, folded@[i].1));
        let mut j: usize = 0;
        while j < folded.len()
            invariant
                0 <= j <= folded@.len(),
                fv == Seq::new(folded@.len() as nat, |i: int| (folded@[i].0@, folded@[i].1)),
                lines@.len() == j,
                forall|i: int|
                    0 <= i < j ==> (#[trigger] lines@[i])@ == fv[i].0 + " "@ + spec_dec(fv[i].1),
            decreases folded@.len() - j,
        {
            let mut line = folded[j].0.clone();
            line.append(" ");
            let cs = dec_string(folded[j].1);
            line.append(cs.as_str());
            lines.push(line);
            j = j + 1;
        }
        proof {
            if flat {
                assert forall|i: int| 0 <= i < fv.len() implies (#[trigger] fv[i]).1 as int
                    == spec_sum_str(ev, fv[i].0) % 0x10000000000000000 by {
                    assert(folded@[i].1 as int == spec_sum_for(entries@, folded@[i].0@)
                        % 0x10000000000000000);
                    lemma_sum_transport(entries@, ev, fv[i].0);
                }
                assert forall|k2: int| 0 <= k2 < ev.len() implies spec_has_skey(
                    fv,
                    (#[trigger] ev[k2]).0,
                ) by {
                    assert(spec_has_key(folded@, entries@[k2].0@));
                    let a = choose|a: int|
                        0 <= a < folded@.len() && (#[trigger] folded@[a]).0@ == entries@[k2].0@;
                    assert(fv[a].0 == ev[k2].0);
                }
                assert forall|i: int| 0 <= i < fv.len() implies spec_has_skey(
                    ev,
                    (#[trigger] fv[i]).0,
                ) by {
                    assert(spec_has_key(entries@, folded@[i].0@));
                    let a = choose|a: int|
                        0 <= a < entries@.len() && (#[trigger] entries@[a]).0@ == folded@[i].0@;
                    assert(ev[a].0 == fv[i].0);
                }
                assert(spec_folded_lines_ok(lines@, ev, fv)) by {
                    assert forall|i: int, i2: int| 0 <= i < i2 < fv.len() implies (
                    #[trigger] fv[i]).0 != (#[trigger] fv[i2]).0 by {
                        assert(folded@[i].0@ != folded@[i2].0@);
                    }
                }
            }
        }
        lines
    }

    /// Renders the samples in the perf-script text format: a fixed header,
    /// then one simulated sample block per count, frames leaf-first with
    /// zero-padded addresses.
    pub fn export_perf_script(
        &self,
        aggregated_data: &Vec<(Vec<u64>, u64)>,
        resolver: &SymbolResolver,
        timestamp: u64,
    ) -> (r: Vec<String>)
        requires
            spec_resolver_wf(resolver),
    {
        let mut lines: Vec<String> = Vec::new();
        let mut header = "# captured on: ".to_owned();
        let ts = dec_string(timestamp);
        header.append(ts.as_str());
        lines.push(header);
        lines.push("# hostname : localhost".to_owned());
        lines.push("# os release : Linux".to_owned());
        lines.push("# perf version : simulated".to_owned());
        lines.push("# arch : x86_64".to_owned());
        lines.push("# nrcpus online : 1".to_owned());
        lines.push("# nrcpus avail : 1".to_owned());
        lines.push("# cpudesc : Unknown".to_owned());
        lines.push("# total memory : Unknown".to_owned());
        lines.push("# cmdline : golang-profile".to_owned());
        lines.push("#".to_owned());
        let mut sample_id: u64 = 1;
        let mut k: usize = 0;
        while k < aggregated_data.len()
            invariant
                spec_resolver_wf(resolver),
                k <= aggregated_data@.len(),
            decreases aggregated_data@.len() - k,
        {
            let stack = &aggregated_data[k].0;
            let count = aggregated_data[k].1;
            let mut c: u64 = 0;
            while c < count
                invariant
                    spec_resolver_wf(resolver),
                    c <= count,
                decreases count - c,
            {
                let mut line = "golang-profile ".to_owned();
                let ids = dec_string(sample_id);
                line.append(ids.as_str());
                line.append(" [000] ");
                let secs = dec_string(sample_id / 1000000);
                line.append(secs.as_str());
                line.append(".");
                let frac = pad_left_zeros(sample_id % 1000000, 6);
                line.append(frac.as_str());
                line.append(": cycles:");
                lines.push(line);
                let mut i: usize = stack.len();
                while i > 0
                    invariant
                        spec_resolver_wf(resolver),
                        i <= stack@.len(),
                    decreases i,
                {
                    i = i - 1;
                    let pc = stack[i];
                    let mut frame = "\t".to_owned();
                    let hx = pad_left_zeros_hex(pc, 16);
                    frame.append(hx.as_str());
                    frame.append(" ");
                    let symbol = resolver.resolve_pc(pc);
                    frame.append(symbol.as_str());
                    lines.push(frame);
                }
                lines.push(String::new());
                sample_id = sample_id.wrapping_add(1);
                c = c + 1;
            }
            k = k + 1;
        }
        lines
    }
}

/// Renders `n` in decimal, left-padded with zeros to at least `width`
/// characters.
fn pad_left_zeros(n: u64, width: usize) -> (r: String)
    requires
        width <= 32,
{
    let digits = dec_string(n);
    let len = digits.as_str().unicode_len();
    let mut out = String::new();
    let mut c = len;
    while c < width
        decreases width - c,
    {
        out.append("0");
        c = c + 1;
    }
    out.concat(digits.as_str())
}

/// Renders `n` in hexadecimal, left-padded with zeros to at least `width`
/// characters.
fn pad_left_zeros_hex(n: u64, width: usize) -> (r: String)
    requires
        width <= 32,
{
    let digits = hex_string(n);
    let len = digits.as_str().unicode_len();
    let mut out = String::new();
    let mut c = len;
    while c < width
        decreases width - c,
    {
        out.append("0");
        c = c + 1;
    }
    out.concat(digits.as_str())
}

} // verus!
