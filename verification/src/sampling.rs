//! The kernel sampling contract, as decision logic: what each probe
//! invocation does to the aggregation and timestamp maps, for the
//! CPU-clock sampler and the scheduler-switch tracepoint.  The caller (the
//! in-kernel programs, or a test) feeds events in; the state transitions
//! here are verified.
use vstd::prelude::*;

use crate::common::{EbpfProfileKey, SAMPLE_TYPE_OFF_CPU, SAMPLE_TYPE_ON_CPU};

verus! {

/// Capacity of the stack-trace map.
pub const STACK_TRACES_CAPACITY: usize = 8192;

/// Capacity of the aggregation map.
pub const COUNTS_CAPACITY: usize = 16384;

/// Capacity of the per-process timestamp map.
pub const TIMESTAMPS_CAPACITY: usize = 4096;

/// Field-wise equality of aggregation keys.
pub open spec fn spec_key_eq(a: EbpfProfileKey, b: EbpfProfileKey) -> bool {
    a.pid == b.pid && a.user_stack_id == b.user_stack_id && a.kernel_stack_id == b.kernel_stack_id
        && a.sample_type == b.sample_type
}

fn key_eq(a: &EbpfProfileKey, b: &EbpfProfileKey) -> (r: bool)
    ensures
        r == spec_key_eq(*a, *b),
{
    a.pid == b.pid && a.user_stack_id == b.user_stack_id && a.kernel_stack_id == b.kernel_stack_id
        && a.sample_type == b.sample_type
}

/// The count recorded under a key, zero when absent.
pub open spec fn spec_count_of(cs: Seq<(EbpfProfileKey, u64)>, key: EbpfProfileKey) -> int
    decreases cs.len(),
{
    if cs.len() == 0 {
        0
    } else if spec_key_eq(cs[0].0, key) {
        cs[0].1 as int
    } else {
        spec_count_of(cs.skip(1), key)
    }
}

/// Whether the map holds the key.
pub open spec fn spec_has_count(cs: Seq<(EbpfProfileKey, u64)>, key: EbpfProfileKey) -> bool {
    exists|i: int| 0 <= i < cs.len() && spec_key_eq((#[trigger] cs[i]).0, key)
}

/// The timestamp recorded for a process, if any.
pub open spec fn spec_ts_of(ts: Seq<(u32, u64)>, pid: u32) -> Option<u64>
    decreases ts.len(),
{
    if ts.len() == 0 {
        None
    } else if ts[0].0 == pid {
        Some(ts[0].1)
    } else {
        spec_ts_of(ts.skip(1), pid)
    }
}

/// Whether the sampling filter passes an event: the idle process is always
/// skipped, an unset target cell disables sampling, a zero target samples
/// everything else, and a nonzero target samples that process group alone.
pub open spec fn spec_sample_allowed(target_pid: Option<u32>, tgid: u32) -> bool {
    tgid != 0 && target_pid is Some && (target_pid->Some_0 == 0 || tgid == target_pid->Some_0)
}

/// The two in-kernel maps the probes update, held as plain tables: counts
/// keyed by the 16-byte aggregation key, and switch-out timestamps keyed
/// by process.
pub struct SamplerState {
    /// Aggregated counts, one record per key.
    pub counts: Vec<(EbpfProfileKey, u64)>,
    /// Last switch timestamp of each process.
    pub timestamps: Vec<(u32, u64)>,
}

/// One record per key in both maps.
pub open spec fn spec_sampler_wf(s: &SamplerState) -> bool {
    (forall|i: int, j: int|
        0 <= i < j < s.counts@.len() ==> !spec_key_eq(
            (#[trigger] s.counts@[i]).0,
            (#[trigger] s.counts@[j]).0,
        )) && (forall|i: int, j: int|
        0 <= i < j < s.timestamps@.len() ==> (#[trigger] s.timestamps@[i]).0
            != (#[trigger] s.timestamps@[j]).0) && s.counts@.len() <= COUNTS_CAPACITY
        && s.timestamps@.len() <= TIMESTAMPS_CAPACITY
}

impl SamplerState {
    /// Empty maps.
    pub fn new() -> (r: SamplerState)
        ensures
            r.counts@.len() == 0,
            r.timestamps@.len() == 0,
            spec_sampler_wf(&r),
    {
        SamplerState { counts: Vec::new(), timestamps: Vec::new() }
    }

    /// Adds `delta` to the count under `key`, wrapping at 64 bits; when
    /// the key is new and the map is full, the insert is dropped, as the
    /// kernel map would drop it.
    fn bump_count(&mut self, key: EbpfProfileKey, delta: u64)
        requires
            spec_sampler_wf(old(self)),
        ensures
            spec_sampler_wf(final(self)),
            final(self).timestamps == old(self).timestamps,
            forall|k2: EbpfProfileKey|
                !spec_key_eq(k2, key) ==> #[trigger] spec_count_of(final(self).counts@, k2)
                    == spec_count_of(old(self).counts@, k2),
            (spec_has_count(old(self).counts@, key) || old(self).counts@.len()
                < COUNTS_CAPACITY) ==> spec_count_of(final(self).counts@, key) == (spec_count_of(
                old(self).counts@,
                key,
            ) + delta) % 0x10000000000000000,
            !(spec_has_count(old(self).counts@, key) || old(self).counts@.len()
                < COUNTS_CAPACITY) ==> final(self).counts == old(self).counts,
    {
        let ghost olds = self.counts@;
        let mut i: usize = 0;
        while i < self.counts.len()
            invariant
                olds == self.counts@,
                olds == old(self).counts@,
                self.counts == old(self).counts,
                self.timestamps == old(self).timestamps,
                0 <= i <= olds.len(),
                forall|k: int| 0 <= k < i ==> !spec_key_eq((#[trigger] olds[k]).0, key),
                spec_sampler_wf(self),
            decreases olds.len() - i,
        {
            if key_eq(&self.counts[i].0, &key) {
                let prev = self.counts[i].1;
                let stored = self.counts[i].0;
                self.counts[i] = (stored, prev.wrapping_add(delta));
                proof {
                    let news = self.counts@;
                    assert(spec_sampler_wf(self)) by {
                        assert(forall|k: int|
                            0 <= k < news.len() ==> (#[trigger] news[k]).0 == olds[k].0);
                    }
                    lemma_count_at(olds, i as int, key);
                    lemma_count_at(news, i as int, key);
                    assert(spec_key_eq(news[i as int].0, key));
                    assert(spec_has_count(olds, key)) by {
                        assert(spec_key_eq(olds[i as int].0, key));
                    }
                    lemma_mod_wrap(prev as int, delta as int);
                    assert(spec_count_of(news, key) == (spec_count_of(olds, key) + delta)
                        % 0x10000000000000000);
                    assert forall|k2: EbpfProfileKey| !spec_key_eq(k2, key) implies
                        #[trigger] spec_count_of(news, k2) == spec_count_of(olds, k2) by {
                        lemma_count_update_other(olds, news, i as int, k2);
                    }
                }
                return ;
            }
            i = i + 1;
        }
        proof {
            lemma_count_none(olds, key);
        }
        if self.counts.len() < COUNTS_CAPACITY {
            self.counts.push((key, delta));
            proof {
                let news = self.counts@;
                assert(spec_sampler_wf(self)) by {
                    assert(forall|k: int| 0 <= k < olds.len() ==> news[k] == olds[k]);
                    assert(spec_key_eq(news[olds.len() as int].0, key));
                }
                lemma_count_at(news, olds.len() as int, key);
                assert(delta as int % 0x10000000000000000 == delta as int) by {
                    vstd::arithmetic::div_mod::lemma_small_mod(
                        delta as nat,
                        0x10000000000000000,
                    );
                }
                assert forall|k2: EbpfProfileKey| !spec_key_eq(k2, key) implies
                    #[trigger] spec_count_of(news, k2) == spec_count_of(olds, k2) by {
                    lemma_count_push_other(olds, news, k2, key);
                }
            }
        }
    }

    /// One tick of the CPU-clock sampler: when the filter passes, the
    /// on-CPU count for the sample's key rises by one.  Returns whether
    /// the event was accounted.
    pub fn on_cpu_sample(
        &mut self,
        target_pid: Option<u32>,
        tgid: u32,
        user_stack_id: i32,
        kernel_stack_id: i32,
    ) -> (handled: bool)
        requires
            spec_sampler_wf(old(self)),
        ensures
            spec_sampler_wf(final(self)),
            handled == spec_sample_allowed(target_pid, tgid),
            !handled ==> *final(self) == *old(self),
            handled ==> final(self).timestamps == old(self).timestamps,
            handled ==> forall|key: EbpfProfileKey|
                #[trigger] spec_key_eq(
                    key,
                    key,
                ) && key.pid == tgid && key.user_stack_id == user_stack_id && key.kernel_stack_id
                    == kernel_stack_id && key.sample_type == SAMPLE_TYPE_ON_CPU ==> {
                    &&& ((spec_has_count(old(self).counts@, key) || old(self).counts@.len()
                        < COUNTS_CAPACITY) ==> spec_count_of(final(self).counts@, key) == (
                    spec_count_of(old(self).counts@, key) + 1) % 0x10000000000000000)
                    &&& (forall|k2: EbpfProfileKey|
                        !spec_key_eq(k2, key) ==> #[trigger] spec_count_of(
                            final(self).counts@,
                            k2,
                        ) == spec_count_of(old(self).counts@, k2))
                },
    {
        if tgid == 0 {
            return false;
        }
        let target = match target_pid {
            Some(t) => t,
            None => {
                return false;
            },
        };
        if target != 0 && tgid != target {
            return false;
        }
        let key = EbpfProfileKey {
            pid: tgid,
            user_stack_id,
            kernel_stack_id,
            sample_type: SAMPLE_TYPE_ON_CPU,
            _padding: [0u8; 3],
        };
        let ghost pre = *self;
        self.bump_count(key, 1);
        proof {
            assert forall|key2: EbpfProfileKey|
                spec_key_eq(key2, key2) && key2.pid == tgid && key2.user_stack_id == user_stack_id
                    && key2.kernel_stack_id == kernel_stack_id && key2.sample_type
                    == SAMPLE_TYPE_ON_CPU implies {
                &&& ((spec_has_count(pre.counts@, key2) || pre.counts@.len() < COUNTS_CAPACITY)
                    ==> spec_count_of(self.counts@, key2) == (spec_count_of(pre.counts@, key2)
                    + 1) % 0x10000000000000000)
                &&& (forall|k2: EbpfProfileKey|
                    !spec_key_eq(k2, key2) ==> #[trigger] spec_count_of(self.counts@, k2)
                        == spec_count_of(pre.counts@, k2))
            } by {
                assert(spec_key_eq(key2, key));
                lemma_count_key_equiv(pre.counts@, key2, key);
                lemma_count_key_equiv(self.counts@, key2, key);
                assert forall|k2: EbpfProfileKey| !spec_key_eq(k2, key2) implies
                    #[trigger] spec_count_of(self.counts@, k2) == spec_count_of(
                    pre.counts@,
                    k2,
                ) by {
                    assert(!spec_key_eq(k2, key));
                }
            }
        }
        true
    }

    /// One scheduler switch-out: when the filter passes and the process
    /// has a recorded switch time more than a millisecond ago, the off-CPU
    /// count for the sample's key rises by the elapsed microseconds; the
    /// current time is then recorded for the process either way.  Returns
    /// whether the event passed the filter.
    pub fn sched_switch_event(
        &mut self,
        target_pid: Option<u32>,
        prev_pid: u32,
        now: u64,
        user_stack_id: i32,
        kernel_stack_id: i32,
    ) -> (handled: bool)
        requires
            spec_sampler_wf(old(self)),
            spec_ts_of(old(self).timestamps@, prev_pid) is Some ==> spec_ts_of(
                old(self).timestamps@,
                prev_pid,
            )->Some_0 <= now,
        ensures
            spec_sampler_wf(final(self)),
            handled == spec_sample_allowed(target_pid, prev_pid),
            !handled ==> *final(self) == *old(self),
            handled ==> {
                let was = spec_ts_of(old(self).timestamps@, prev_pid);
                &&& ((was is None || now - was->Some_0 <= 1000000) ==> final(self).counts == old(
                    self,
                ).counts)
                &&& ((was is Some || old(self).timestamps@.len() < TIMESTAMPS_CAPACITY)
                    ==> spec_ts_of(final(self).timestamps@, prev_pid) == Some(now))
                &&& (forall|p2: u32|
                    p2 != prev_pid ==> #[trigger] spec_ts_of(final(self).timestamps@, p2)
                        == spec_ts_of(old(self).timestamps@, p2))
                &&& (forall|key: EbpfProfileKey|
                    #[trigger] spec_key_eq(
                        key,
                        key,
                    ) && key.pid == prev_pid && key.user_stack_id == user_stack_id
                        && key.kernel_stack_id == kernel_stack_id && key.sample_type
                        == SAMPLE_TYPE_OFF_CPU ==> ((was is Some && now - was->Some_0 > 1000000
                        && (spec_has_count(old(self).counts@, key) || old(self).counts@.len()
                        < COUNTS_CAPACITY)) ==> spec_count_of(final(self).counts@, key) == (
                    spec_count_of(old(self).counts@, key) + (now - was->Some_0) / 1000)
                        % 0x10000000000000000))
            },
    {
        if prev_pid == 0 {
            return false;
        }
        let target = match target_pid {
            Some(t) => t,
            None => {
                return false;
            },
        };
        if target != 0 && prev_pid != target {
            return false;
        }
        let prev_time = self.ts_lookup(prev_pid);
        if let Some(t0) = prev_time {
            let duration = now - t0;
            if duration > 1000000 {
                let key = EbpfProfileKey {
                    pid: prev_pid,
                    user_stack_id,
                    kernel_stack_id,
                    sample_type: SAMPLE_TYPE_OFF_CPU,
                    _padding: [0u8; 3],
                };
                let ghost pre = *self;
                self.bump_count(key, duration / 1000);
                proof {
                    assert forall|key2: EbpfProfileKey|
                        spec_key_eq(key2, key2) && key2.pid == prev_pid && key2.user_stack_id
                            == user_stack_id && key2.kernel_stack_id == kernel_stack_id
                            && key2.sample_type == SAMPLE_TYPE_OFF_CPU implies ((spec_has_count(
                        pre.counts@,
                        key2,
                    ) || pre.counts@.len() < COUNTS_CAPACITY) ==> spec_count_of(
                        self.counts@,
                        key2,
                    ) == (spec_count_of(pre.counts@, key2) + duration / 1000)
                        % 0x10000000000000000) by {
                        assert(spec_key_eq(key2, key));
                        lemma_count_key_equiv(pre.counts@, key2, key);
                        lemma_count_key_equiv(self.counts@, key2, key);
                    }
                }
            }
            self.ts_remove(prev_pid);
        }
        self.ts_store(prev_pid, now);
        true
    }

    /// The recorded switch time of a process.
    fn ts_lookup(&self, pid: u32) -> (r: Option<u64>)
        ensures
            r == spec_ts_of(self.timestamps@, pid),
    {
        let ghost s = self.timestamps@;
        let mut i: usize = 0;
        while i < self.timestamps.len()
            invariant
                s == self.timestamps@,
                0 <= i <= s.len(),
                forall|k: int| 0 <= k < i ==> (#[trigger] s[k]).0 != pid,
            decreases s.len() - i,
        {
            if self.timestamps[i].0 == pid {
                proof {
                    lemma_ts_at(s, i as int);
                }
                return Some(self.timestamps[i].1);
            }
            i = i + 1;
        }
        proof {
            lemma_ts_none(s, pid);
        }
        None
    }

    /// Drops the recorded switch time of a process.
    fn ts_remove(&mut self, pid: u32)
        requires
            spec_sampler_wf(old(self)),
        ensures
            spec_sampler_wf(final(self)),
            final(self).counts == old(self).counts,
            spec_ts_of(final(self).timestamps@, pid) is None,
            forall|p2: u32|
                p2 != pid ==> #[trigger] spec_ts_of(final(self).timestamps@, p2) == spec_ts_of(
                    old(self).timestamps@,
                    p2,
                ),
            final(self).timestamps@.len() <= old(self).timestamps@.len(),
            spec_ts_of(old(self).timestamps@, pid) is Some ==> final(self).timestamps@.len()
                < old(self).timestamps@.len(),
    {
        let ghost olds = self.timestamps@;
        let mut i: usize = 0;
        while i < self.timestamps.len()
            invariant
                olds == self.timestamps@,
                olds == old(self).timestamps@,
                self.counts == old(self).counts,
                0 <= i <= olds.len(),
                forall|k: int| 0 <= k < i ==> (#[trigger] olds[k]).0 != pid,
                spec_sampler_wf(self),
            decreases olds.len() - i,
        {
            if self.timestamps[i].0 == pid {
                self.timestamps.remove(i);
                proof {
                    let news = self.timestamps@;
                    assert(news =~= olds.remove(i as int));
                    assert(spec_sampler_wf(self)) by {
                        assert(forall|k: int| 0 <= k < i ==> news[k] == olds[k]);
                        assert(forall|k: int|
                            i <= k < news.len() ==> news[k] == olds[k + 1]);
                    }
                    assert forall|p2: u32| p2 != pid implies #[trigger] spec_ts_of(news, p2)
                        == spec_ts_of(olds, p2) by {
                        lemma_ts_remove_other(olds, news, i as int, p2);
                    }
                    assert(spec_ts_of(news, pid) is None) by {
                        assert(forall|k: int|
                            0 <= k < news.len() ==> (#[trigger] news[k]).0 != pid) by {
                            assert forall|k: int|
                                0 <= k < news.len() implies (#[trigger] news[k]).0 != pid by {
                                if k < i {
                                    assert(news[k] == olds[k]);
                                } else {
                                    assert(news[k] == olds[k + 1]);
                                    assert(olds[i as int].0 == pid);
                                }
                            }
                        }
                        lemma_ts_none(news, pid);
                    }
                }
                return ;
            }
            i = i + 1;
        }
        proof {
            lemma_ts_none(olds, pid);
        }
    }

    /// Records the switch time of a process; when the process is new and
    /// the map is full, the insert is dropped, as the kernel map would
    /// drop it.
    fn ts_store(&mut self, pid: u32, now: u64)
        requires
            spec_sampler_wf(old(self)),
        ensures
            spec_sampler_wf(final(self)),
            final(self).counts == old(self).counts,
            (spec_ts_of(old(self).timestamps@, pid) is Some || old(self).timestamps@.len()
                < TIMESTAMPS_CAPACITY) ==> spec_ts_of(final(self).timestamps@, pid) == Some(now),
            forall|p2: u32|
                p2 != pid ==> #[trigger] spec_ts_of(final(self).timestamps@, p2) == spec_ts_of(
                    old(self).timestamps@,
                    p2,
                ),
    {
        let ghost olds = self.timestamps@;
        let mut i: usize = 0;
        while i < self.timestamps.len()
            invariant
                olds == self.timestamps@,
                olds == old(self).timestamps@,
                self.counts == old(self).counts,
                0 <= i <= olds.len(),
                forall|k: int| 0 <= k < i ==> (#[trigger] olds[k]).0 != pid,
                spec_sampler_wf(self),
            decreases olds.len() - i,
        {
            if self.timestamps[i].0 == pid {
                self.timestamps[i] = (pid, now);
                proof {
                    let news = self.timestamps@;
                    assert(spec_sampler_wf(self)) by {
                        assert(forall|k: int|
                            0 <= k < news.len() ==> (#[trigger] news[k]).0 == olds[k].0);
                    }
                    lemma_ts_at(news, i as int);
                    assert forall|p2: u32| p2 != pid implies #[trigger] spec_ts_of(news, p2)
                        == spec_ts_of(olds, p2) by {
                        lemma_ts_update_other(olds, news, i as int, p2);
                    }
                }
                return ;
            }
            i = i + 1;
        }
        proof {
            lemma_ts_none(olds, pid);
        }
        if self.timestamps.len() < TIMESTAMPS_CAPACITY {
            self.timestamps.push((pid, now));
            proof {
                let news = self.timestamps@;
                assert(spec_sampler_wf(self)) by {
                    assert(forall|k: int| 0 <= k < olds.len() ==> news[k] == olds[k]);
                    assert(news[olds.len() as int].0 == pid);
                }
                lemma_ts_at(news, olds.len() as int);
                assert forall|p2: u32| p2 != pid implies #[trigger] spec_ts_of(news, p2)
                    == spec_ts_of(olds, p2) by {
                    lemma_ts_push_other(olds, news, p2, pid);
                }
            }
        }
    }
}

proof fn lemma_mod_wrap(prev: int, delta: int)
    requires
        0 <= prev < 0x10000000000000000,
        0 <= delta < 0x10000000000000000,
    ensures
        (if prev + delta > u64::MAX {
            prev + delta - 0x10000000000000000
        } else {
            prev + delta
        }) == (prev + delta) % 0x10000000000000000,
{
    let m = 0x10000000000000000;
    if prev + delta > u64::MAX {
        vstd::arithmetic::div_mod::lemma_mod_sub_multiples_vanish(prev + delta, m);
        vstd::arithmetic::div_mod::lemma_small_mod((prev + delta - m) as nat, m as nat);
    } else {
        vstd::arithmetic::div_mod::lemma_small_mod((prev + delta) as nat, m as nat);
    }
}

proof fn lemma_count_at(cs: Seq<(EbpfProfileKey, u64)>, i: int, key: EbpfProfileKey)
    requires
        0 <= i < cs.len(),
        spec_key_eq(cs[i].0, key),
        forall|k: int| 0 <= k < i ==> !spec_key_eq((#[trigger] cs[k]).0, key),
    ensures
        spec_count_of(cs, key) == cs[i].1 as int,
    decreases i,
{
    if i > 0 {
        assert(cs.skip(1)[i - 1] == cs[i]);
        assert(forall|k: int| 0 <= k < i - 1 ==> (#[trigger] cs.skip(1)[k]) == cs[k + 1]);
        lemma_count_at(cs.skip(1), i - 1, key);
    }
}

proof fn lemma_count_none(cs: Seq<(EbpfProfileKey, u64)>, key: EbpfProfileKey)
    requires
        forall|k: int| 0 <= k < cs.len() ==> !spec_key_eq((#[trigger] cs[k]).0, key),
    ensures
        spec_count_of(cs, key) == 0,
        !spec_has_count(cs, key),
    decreases cs.len(),
{
    if cs.len() > 0 {
        assert(forall|k: int|
            0 <= k < cs.skip(1).len() ==> (#[trigger] cs.skip(1)[k]) == cs[k + 1]);
        lemma_count_none(cs.skip(1), key);
    }
}

proof fn lemma_count_update_other(
    olds: Seq<(EbpfProfileKey, u64)>,
    news: Seq<(EbpfProfileKey, u64)>,
    i: int,
    k2: EbpfProfileKey,
)
    requires
        0 <= i < olds.len(),
        news.len() == olds.len(),
        forall|k: int| 0 <= k < olds.len() && k != i ==> #[trigger] news[k] == olds[k],
        news[i].0 == olds[i].0,
        !spec_key_eq(olds[i].0, k2),
    ensures
        spec_count_of(news, k2) == spec_count_of(olds, k2),
    decreases i,
{
    if i == 0 {
        assert(news.skip(1) =~= olds.skip(1));
    } else {
        assert(news[0] == olds[0]);
        if spec_key_eq(olds[0].0, k2) {
        } else {
            assert(forall|k: int|
                0 <= k < olds.skip(1).len() && k != i - 1 ==> #[trigger] news.skip(1)[k]
                    == olds.skip(1)[k]);
            assert(news.skip(1)[i - 1].0 == olds.skip(1)[i - 1].0);
            lemma_count_update_other(olds.skip(1), news.skip(1), i - 1, k2);
        }
    }
}

proof fn lemma_count_push_other(
    olds: Seq<(EbpfProfileKey, u64)>,
    news: Seq<(EbpfProfileKey, u64)>,
    k2: EbpfProfileKey,
    key: EbpfProfileKey,
)
    requires
        news.len() == olds.len() + 1,
        forall|k: int| 0 <= k < olds.len() ==> #[trigger] news[k] == olds[k],
        spec_key_eq(news[olds.len() as int].0, key),
        !spec_key_eq(k2, key),
    ensures
        spec_count_of(news, k2) == spec_count_of(olds, k2),
    decreases olds.len(),
{
    if olds.len() == 0 {
        assert(!spec_key_eq(news[0].0, k2));
        assert(news.skip(1) =~= Seq::<(EbpfProfileKey, u64)>::empty());
        assert(spec_count_of(news.skip(1), k2) == 0);
        assert(spec_count_of(olds, k2) == 0);
    } else {
        assert(news[0] == olds[0]);
        assert(forall|k: int|
            0 <= k < olds.skip(1).len() ==> #[trigger] news.skip(1)[k] == olds.skip(1)[k]);
        assert(news.skip(1)[olds.len() - 1] == news[olds.len() as int]);
        lemma_count_push_other(olds.skip(1), news.skip(1), k2, key);
    }
}

proof fn lemma_ts_at(ts: Seq<(u32, u64)>, i: int)
    requires
        0 <= i < ts.len(),
        forall|k: int| 0 <= k < i ==> (#[trigger] ts[k]).0 != ts[i].0,
    ensures
        spec_ts_of(ts, ts[i].0) == Some(ts[i].1),
    decreases i,
{
    if i > 0 {
        assert(ts.skip(1)[i - 1] == ts[i]);
        assert(forall|k: int| 0 <= k < i - 1 ==> (#[trigger] ts.skip(1)[k]) == ts[k + 1]);
        lemma_ts_at(ts.skip(1), i - 1);
    }
}

proof fn lemma_ts_none(ts: Seq<(u32, u64)>, pid: u32)
    requires
        forall|k: int| 0 <= k < ts.len() ==> (#[trigger] ts[k]).0 != pid,
    ensures
        spec_ts_of(ts, pid) is None,
    decreases ts.len(),
{
    if ts.len() > 0 {
        assert(forall|k: int|
            0 <= k < ts.skip(1).len() ==> (#[trigger] ts.skip(1)[k]) == ts[k + 1]);
        lemma_ts_none(ts.skip(1), pid);
    }
}

proof fn lemma_ts_update_other(olds: Seq<(u32, u64)>, news: Seq<(u32, u64)>, i: int, p2: u32)
    requires
        0 <= i < olds.len(),
        news.len() == olds.len(),
        forall|k: int| 0 <= k < olds.len() && k != i ==> #[trigger] news[k] == olds[k],
        news[i].0 == olds[i].0,
        p2 != olds[i].0,
    ensures
        spec_ts_of(news, p2) == spec_ts_of(olds, p2),
    decreases i,
{
    if i == 0 {
        assert(news.skip(1) =~= olds.skip(1));
    } else {
        assert(news[0] == olds[0]);
        if olds[0].0 == p2 {
        } else {
            assert(forall|k: int|
                0 <= k < olds.skip(1).len() && k != i - 1 ==> #[trigger] news.skip(1)[k]
                    == olds.skip(1)[k]);
            assert(news.skip(1)[i - 1].0 == olds.skip(1)[i - 1].0);
            lemma_ts_update_other(olds.skip(1), news.skip(1), i - 1, p2);
        }
    }
}

proof fn lemma_ts_remove_other(olds: Seq<(u32, u64)>, news: Seq<(u32, u64)>, i: int, p2: u32)
    requires
        0 <= i < olds.len(),
        news == olds.remove(i),
        p2 != olds[i].0,
    ensures
        spec_ts_of(news, p2) == spec_ts_of(olds, p2),
    decreases i,
{
    if i == 0 {
        assert(news =~= olds.skip(1));
    } else {
        assert(news[0] == olds[0]);
        if olds[0].0 == p2 {
        } else {
            assert(news.skip(1) =~= olds.skip(1).remove(i - 1));
            assert(olds.skip(1)[i - 1] == olds[i]);
            lemma_ts_remove_other(olds.skip(1), news.skip(1), i - 1, p2);
        }
    }
}

proof fn lemma_ts_push_other(olds: Seq<(u32, u64)>, news: Seq<(u32, u64)>, p2: u32, pid: u32)
    requires
        news.len() == olds.len() + 1,
        forall|k: int| 0 <= k < olds.len() ==> #[trigger] news[k] == olds[k],
        news[olds.len() as int].0 == pid,
        p2 != pid,
    ensures
        spec_ts_of(news, p2) == spec_ts_of(olds, p2),
    decreases olds.len(),
{
    if olds.len() == 0 {
        assert(news[0].0 != p2);
        assert(news.skip(1) =~= Seq::<(u32, u64)>::empty());
    } else {
        assert(news[0] == olds[0]);
        assert(forall|k: int|
            0 <= k < olds.skip(1).len() ==> #[trigger] news.skip(1)[k] == olds.skip(1)[k]);
        assert(news.skip(1)[olds.len() - 1] == news[olds.len() as int]);
        lemma_ts_push_other(olds.skip(1), news.skip(1), p2, pid);
    }
}

/// Counting goes by the meaningful key fields alone: keys equal under
/// `spec_key_eq` share their count.
pub proof fn lemma_count_key_equiv(
    cs: Seq<(EbpfProfileKey, u64)>,
    k1: EbpfProfileKey,
    k2: EbpfProfileKey,
)
    requires
        spec_key_eq(k1, k2),
    ensures
        spec_count_of(cs, k1) == spec_count_of(cs, k2),
        spec_has_count(cs, k1) == spec_has_count(cs, k2),
    decreases cs.len(),
{
    if cs.len() > 0 {
        lemma_count_key_equiv(cs.skip(1), k1, k2);
        if spec_has_count(cs, k1) {
            let i = choose|i: int| 0 <= i < cs.len() && spec_key_eq((#[trigger] cs[i]).0, k1);
            assert(spec_key_eq(cs[i].0, k2));
        }
        if spec_has_count(cs, k2) {
            let i = choose|i: int| 0 <= i < cs.len() && spec_key_eq((#[trigger] cs[i]).0, k2);
            assert(spec_key_eq(cs[i].0, k1));
        }
    } else {
        assert(!spec_has_count(cs, k1));
        assert(!spec_has_count(cs, k2));
    }
}

} // verus!
