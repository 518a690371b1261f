use golang_profiling::common::{EbpfProfileKey, ProfileKey, SAMPLE_TYPE_OFF_CPU, SAMPLE_TYPE_ON_CPU};
use golang_profiling::sampling::SamplerState;

fn count_for(state: &SamplerState, key: &EbpfProfileKey) -> u64 {
    for (k, v) in &state.counts {
        if k == key {
            return *v;
        }
    }
    0
}

#[test]
fn off_cpu_accounting() {
    // Two scheduler switches for one process, two milliseconds apart,
    // account two thousand microseconds under the off-CPU kind.
    let mut state = SamplerState::new();
    let t = 5_000_000u64;
    assert!(state.sched_switch_event(Some(777), 777, t, 11, 12));
    assert!(state.sched_switch_event(Some(777), 777, t + 2_000_000, 11, 12));
    let key = EbpfProfileKey {
        pid: 777,
        user_stack_id: 11,
        kernel_stack_id: 12,
        sample_type: SAMPLE_TYPE_OFF_CPU,
        _padding: [0; 3],
    };
    assert_eq!(count_for(&state, &key), 2000);
}

#[test]
fn off_cpu_short_interval_not_accounted() {
    let mut state = SamplerState::new();
    let t = 5_000_000u64;
    assert!(state.sched_switch_event(Some(777), 777, t, 11, 12));
    // One millisecond or less is not significant.
    assert!(state.sched_switch_event(Some(777), 777, t + 1_000_000, 11, 12));
    assert!(state.counts.is_empty());
}

#[test]
fn on_cpu_sampling_counts() {
    let mut state = SamplerState::new();
    assert!(state.on_cpu_sample(Some(42), 42, 1, 2));
    assert!(state.on_cpu_sample(Some(42), 42, 1, 2));
    let key = EbpfProfileKey {
        pid: 42,
        user_stack_id: 1,
        kernel_stack_id: 2,
        sample_type: SAMPLE_TYPE_ON_CPU,
        _padding: [0; 3],
    };
    assert_eq!(count_for(&state, &key), 2);
}

#[test]
fn sampling_filters() {
    let mut state = SamplerState::new();
    // The idle process is always skipped.
    assert!(!state.on_cpu_sample(Some(0), 0, 1, 2));
    // An unset target cell disables sampling.
    assert!(!state.on_cpu_sample(None, 42, 1, 2));
    // A nonzero target admits that process alone.
    assert!(!state.on_cpu_sample(Some(42), 43, 1, 2));
    assert!(state.counts.is_empty());
    // A zero target admits every non-idle process.
    assert!(state.on_cpu_sample(Some(0), 43, 1, 2));
    assert_eq!(state.counts.len(), 1);
    // The same filters hold for the scheduler tracepoint.
    assert!(!state.sched_switch_event(None, 42, 100, 1, 2));
    assert!(!state.sched_switch_event(Some(42), 0, 100, 1, 2));
}

#[test]
fn profile_key_widening() {
    let ebpf = EbpfProfileKey {
        pid: 9,
        user_stack_id: -1,
        kernel_stack_id: 4,
        sample_type: SAMPLE_TYPE_ON_CPU,
        _padding: [0; 3],
    };
    let key = ProfileKey::from_ebpf(&ebpf);
    assert_eq!(key.pid, 9);
    assert_eq!(key.kernel_ip, 0);
    assert_eq!(key.user_stack_id, -1);
    assert_eq!(key.kernel_stack_id, 4);
    assert_eq!(key.name, [0u8; 16]);
    assert_eq!(key.sample_type, SAMPLE_TYPE_ON_CPU);
}
