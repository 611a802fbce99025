use one_collect::abi::{
    FLAG_COMM, FLAG_COMM_EXEC, FLAG_CONTEXT_SWITCH, FLAG_DISABLED, FLAG_EXCLUDE_CALLCHAIN_KERNEL,
    FLAG_EXCLUDE_CALLCHAIN_USER, FLAG_EXCLUDE_HV, FLAG_EXCLUDE_IDLE, FLAG_FREQ, FLAG_INHERIT, FLAG_MMAP, FLAG_MMAP2,
    FLAG_MMAP_DATA, FLAG_PRECISE_IP, FLAG_SAMPLE_ID_ALL, FLAG_TASK, FLAG_USE_CLOCKID, PERF_ATTR_SIZE_VER4,
    PERF_COUNT_SW_BPF_OUTPUT, PERF_COUNT_SW_CONTEXT_SWITCHES, PERF_COUNT_SW_CPU_CLOCK, PERF_COUNT_SW_DUMMY,
    PERF_COUNT_SW_PAGE_FAULTS_MAJ, PERF_COUNT_SW_PAGE_FAULTS_MIN, PERF_FORMAT_ID, PERF_SAMPLE_CALLCHAIN,
    PERF_SAMPLE_IDENTIFIER, PERF_SAMPLE_IP, PERF_SAMPLE_RAW, PERF_SAMPLE_REGS_USER, PERF_SAMPLE_STACK_USER,
    PERF_SAMPLE_TID, PERF_SAMPLE_TIME, PERF_TYPE_SOFTWARE, PERF_TYPE_TRACEPOINT,
};
use one_collect::builder::{CommonRingBuf, CpuRingBuf, RingBufBuilder, RingBufOptions, CLOCK_MONOTONIC_RAW};
use one_collect::ringbuf::RingBufError;

const COMMON_FLAGS: u64 =
    FLAG_USE_CLOCKID | FLAG_SAMPLE_ID_ALL | FLAG_DISABLED | FLAG_EXCLUDE_HV | FLAG_EXCLUDE_IDLE | FLAG_INHERIT;
const COMMON_SAMPLE: u64 = PERF_SAMPLE_IDENTIFIER | PERF_SAMPLE_TIME | PERF_SAMPLE_TID;

#[test]
fn common_attributes_are_set() {
    let a = RingBufBuilder::common_attributes();
    assert_eq!(PERF_ATTR_SIZE_VER4, a.size);
    assert_eq!(COMMON_FLAGS, a.flags);
    assert_eq!(CLOCK_MONOTONIC_RAW, a.clockid);
    assert_eq!(PERF_FORMAT_ID, a.read_format);
    assert_eq!(COMMON_SAMPLE, a.sample_type);
    assert_eq!(0, a.config);
    assert_eq!(0, a.event_type);
}

#[test]
fn kinds_of_builders() {
    let k = RingBufBuilder::for_kernel().attributes();
    assert_eq!((PERF_TYPE_SOFTWARE, PERF_COUNT_SW_DUMMY, 0), (k.event_type, k.config, k.sample_period_freq));
    let c = RingBufBuilder::for_cswitches().attributes();
    assert_eq!((PERF_TYPE_SOFTWARE, PERF_COUNT_SW_CONTEXT_SWITCHES, 1), (c.event_type, c.config, c.sample_period_freq));
    let s = RingBufBuilder::for_soft_page_faults().attributes();
    assert_eq!(PERF_COUNT_SW_PAGE_FAULTS_MIN, s.config);
    let h = RingBufBuilder::for_hard_page_faults().attributes();
    assert_eq!(PERF_COUNT_SW_PAGE_FAULTS_MAJ, h.config);
    let p = RingBufBuilder::for_profiling(1000).attributes();
    assert_eq!((PERF_COUNT_SW_CPU_CLOCK, 1000), (p.config, p.sample_period_freq));
    assert_eq!(COMMON_FLAGS | FLAG_FREQ, p.flags);
    let t = RingBufBuilder::for_tracepoint().attributes();
    assert_eq!(PERF_TYPE_TRACEPOINT, t.event_type);
    assert_eq!(COMMON_SAMPLE | PERF_SAMPLE_RAW, t.sample_type);
    let b = RingBufBuilder::for_bpf().attributes();
    assert_eq!((PERF_COUNT_SW_BPF_OUTPUT, COMMON_SAMPLE | PERF_SAMPLE_RAW), (b.config, b.sample_type));
}

#[test]
fn options_add_bits() {
    let p = RingBufBuilder::for_profiling(10)
        .with_callchain_data()
        .without_user_callchain_data()
        .without_kernel_callchain_data()
        .with_ip()
        .with_user_regs_data(0xff)
        .with_user_stack_data(4096);
    let a = p.attributes();
    assert_eq!(
        COMMON_SAMPLE | PERF_SAMPLE_CALLCHAIN | PERF_SAMPLE_IP | PERF_SAMPLE_REGS_USER | PERF_SAMPLE_STACK_USER,
        a.sample_type
    );
    assert_eq!(
        COMMON_FLAGS | FLAG_FREQ | FLAG_EXCLUDE_CALLCHAIN_USER | FLAG_EXCLUDE_CALLCHAIN_KERNEL | FLAG_PRECISE_IP,
        a.flags
    );
    assert_eq!(0xff, a.sample_regs_user);
    assert_eq!(4096, a.sample_stack_user);
}

#[test]
fn kernel_records() {
    let k = RingBufBuilder::for_kernel()
        .with_executable_mmap_records()
        .with_comm_records()
        .with_task_records()
        .with_cswitch_records();
    assert_eq!(
        COMMON_FLAGS | FLAG_MMAP | FLAG_MMAP2 | FLAG_COMM | FLAG_COMM_EXEC | FLAG_TASK | FLAG_CONTEXT_SWITCH,
        k.attributes().flags
    );
    let all = RingBufBuilder::for_kernel().with_all_mmap_records();
    assert_eq!(COMMON_FLAGS | FLAG_MMAP | FLAG_MMAP2 | FLAG_MMAP_DATA, all.attributes().flags);
    assert_eq!(all.attributes(), all.build().attributes());
}

#[test]
fn tracepoint_build_sets_id() {
    let t = RingBufBuilder::for_tracepoint();
    let rb = t.build(77);
    assert_eq!(77, rb.attributes().config);
    assert_eq!(0, t.attributes().config);
}

#[test]
fn without_callstack_swaps_in_ip() {
    let rb = RingBufBuilder::for_profiling(10).with_callchain_data().with_user_regs_data(3).build();
    let rb = rb.without_callstack();
    assert_eq!(COMMON_SAMPLE | PERF_SAMPLE_IP, rb.attributes().sample_type);

    let plain = RingBufBuilder::for_cswitches().build();
    let before = plain.attributes();
    assert_eq!(before, plain.without_callstack().attributes());
}

#[test]
fn cpu_ring_buf_time_offset_and_open_state() {
    let rb = RingBufBuilder::for_profiling(10).build();
    let mut cpu = rb.for_cpu(3);
    assert_eq!(3, cpu.cpu_index());
    assert_eq!(8 + 8 + 8, cpu.sample_time_offset());
    assert!(!cpu.is_open());
    assert_eq!(None, cpu.id());
    assert_eq!(Err(RingBufError::NotOpen), cpu.create_reader_len(3, 4096));
    cpu.set_open(5, 99);
    assert!(cpu.is_open());
    assert_eq!(Some(5), cpu.fd());
    assert_eq!(Some(99), cpu.id());
    assert_eq!(Ok(5 * 4096), cpu.create_reader_len(3, 4096));
    assert_eq!(Ok(2 * 4096), cpu.create_reader_len(0, 4096));

    let with_ip = CpuRingBuf::new(0, RingBufBuilder::for_profiling(10).with_ip().attributes());
    assert_eq!(32, with_ip.sample_time_offset());
    let bare = CommonRingBuf::new(Default::default()).for_cpu(1);
    assert_eq!(8, bare.sample_time_offset());
}

#[test]
fn without_callstack_twice_is_once() {
    let rb = RingBufBuilder::for_profiling(10).with_user_stack_data(512).build();
    let once = rb.without_callstack().attributes();
    let rb = RingBufBuilder::for_profiling(10).with_user_stack_data(512).build();
    let twice = rb.without_callstack().without_callstack().attributes();
    assert_eq!(once, twice);
    assert_eq!(COMMON_SAMPLE | PERF_SAMPLE_IP, twice.sample_type);
    assert_eq!(512, twice.sample_stack_user);
}
