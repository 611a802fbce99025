//! Attribute blocks for the kinds of ring buffers, and the per-CPU ring
//! buffers made from them.

use vstd::prelude::*;
use std::marker::PhantomData;
use crate::abi::{
    perf_event_attr, zero_attr, has_bits, PERF_ATTR_SIZE_VER4, FLAG_USE_CLOCKID, FLAG_SAMPLE_ID_ALL, FLAG_DISABLED,
    FLAG_EXCLUDE_HV, FLAG_EXCLUDE_IDLE, FLAG_INHERIT, FLAG_EXCLUDE_CALLCHAIN_USER, FLAG_EXCLUDE_CALLCHAIN_KERNEL,
    FLAG_PRECISE_IP, FLAG_FREQ, FLAG_MMAP, FLAG_MMAP2, FLAG_MMAP_DATA, FLAG_COMM, FLAG_COMM_EXEC, FLAG_TASK,
    FLAG_CONTEXT_SWITCH, PERF_FORMAT_ID, PERF_SAMPLE_IDENTIFIER, PERF_SAMPLE_TIME, PERF_SAMPLE_TID, PERF_SAMPLE_IP,
    PERF_SAMPLE_CALLCHAIN, PERF_SAMPLE_REGS_USER, PERF_SAMPLE_STACK_USER, PERF_SAMPLE_RAW, PERF_TYPE_SOFTWARE,
    PERF_TYPE_TRACEPOINT, PERF_COUNT_SW_DUMMY, PERF_COUNT_SW_CONTEXT_SWITCHES, PERF_COUNT_SW_PAGE_FAULTS_MIN,
    PERF_COUNT_SW_PAGE_FAULTS_MAJ, PERF_COUNT_SW_CPU_CLOCK, PERF_COUNT_SW_BPF_OUTPUT,
};
use crate::ringbuf::RingBufError;
use crate::symbols::{is_next_power_of_two, next_power_of_two};

verus! {

/// Linux's id of the raw monotonic clock, which the ring buffers' time
/// stamps use.
pub const CLOCK_MONOTONIC_RAW: i32 = 4;

/// Marks a builder of CPU sampling buffers.
pub struct Profiling;

/// Marks a builder of context switch buffers.
pub struct ContextSwitches;

/// Marks a builder of page fault buffers.
pub struct PageFaults;

/// Marks a builder of tracepoint buffers.
pub struct Tracepoint;

/// Marks a builder of kernel record buffers.
pub struct Kernel;

/// Marks a builder of BPF output buffers.
pub struct Bpf;

/// The attribute block that every kind of ring buffer starts from: clock,
/// ids and sample fields that all records carry, disabled at first.
pub open spec fn spec_common_attributes() -> perf_event_attr {
    perf_event_attr {
        size: PERF_ATTR_SIZE_VER4,
        flags: FLAG_USE_CLOCKID | FLAG_SAMPLE_ID_ALL | FLAG_DISABLED | FLAG_EXCLUDE_HV | FLAG_EXCLUDE_IDLE
            | FLAG_INHERIT,
        clockid: CLOCK_MONOTONIC_RAW,
        read_format: PERF_FORMAT_ID,
        sample_type: PERF_SAMPLE_IDENTIFIER | PERF_SAMPLE_TIME | PERF_SAMPLE_TID,
        ..zero_attr()
    }
}

/// Builds the attribute block of one kind of ring buffer.
pub struct RingBufBuilder<T = Profiling> {
    attributes: perf_event_attr,
    _type: PhantomData<T>,
}

impl<T> RingBufBuilder<T> {
    /// The attribute block being built.
    pub closed spec fn spec_attributes(&self) -> perf_event_attr {
        self.attributes
    }

    /// The attribute block being built.
    pub fn attributes(&self) -> (r: perf_event_attr)
        ensures
            r == self.spec_attributes(),
    {
        self.attributes
    }
}

impl RingBufBuilder {
    pub fn common_attributes() -> (a: perf_event_attr)
        ensures
            a == spec_common_attributes(),
    {
        perf_event_attr {
            size: PERF_ATTR_SIZE_VER4,
            flags: FLAG_USE_CLOCKID | FLAG_SAMPLE_ID_ALL | FLAG_DISABLED | FLAG_EXCLUDE_HV | FLAG_EXCLUDE_IDLE
                | FLAG_INHERIT,
            clockid: CLOCK_MONOTONIC_RAW,
            read_format: PERF_FORMAT_ID,
            sample_type: PERF_SAMPLE_IDENTIFIER | PERF_SAMPLE_TIME | PERF_SAMPLE_TID,
            ..Default::default()
        }
    }

    /// Kernel records only, from the dummy software event.
    pub fn for_kernel() -> (b: RingBufBuilder<Kernel>)
        ensures
            b.spec_attributes() == (perf_event_attr {
                event_type: PERF_TYPE_SOFTWARE,
                config: PERF_COUNT_SW_DUMMY,
                ..spec_common_attributes()
            }),
    {
        let mut attributes = Self::common_attributes();
        attributes.event_type = PERF_TYPE_SOFTWARE;
        attributes.config = PERF_COUNT_SW_DUMMY;
        RingBufBuilder::<Kernel> { attributes, _type: PhantomData::<Kernel> }
    }

    /// Every context switch.
    pub fn for_cswitches() -> (b: RingBufBuilder<ContextSwitches>)
        ensures
            b.spec_attributes() == (perf_event_attr {
                event_type: PERF_TYPE_SOFTWARE,
                config: PERF_COUNT_SW_CONTEXT_SWITCHES,
                sample_period_freq: 1,
                ..spec_common_attributes()
            }),
    {
        let mut attributes = Self::common_attributes();
        attributes.event_type = PERF_TYPE_SOFTWARE;
        attributes.config = PERF_COUNT_SW_CONTEXT_SWITCHES;
        attributes.sample_period_freq = 1;
        RingBufBuilder::<ContextSwitches> { attributes, _type: PhantomData::<ContextSwitches> }
    }

    /// Every minor page fault.
    pub fn for_soft_page_faults() -> (b: RingBufBuilder<PageFaults>)
        ensures
            b.spec_attributes() == (perf_event_attr {
                event_type: PERF_TYPE_SOFTWARE,
                config: PERF_COUNT_SW_PAGE_FAULTS_MIN,
                sample_period_freq: 1,
                ..spec_common_attributes()
            }),
    {
        let mut attributes = Self::common_attributes();
        attributes.event_type = PERF_TYPE_SOFTWARE;
        attributes.config = PERF_COUNT_SW_PAGE_FAULTS_MIN;
        attributes.sample_period_freq = 1;
        RingBufBuilder::<PageFaults> { attributes, _type: PhantomData::<PageFaults> }
    }

    /// Every major page fault.
    pub fn for_hard_page_faults() -> (b: RingBufBuilder<PageFaults>)
        ensures
            b.spec_attributes() == (perf_event_attr {
                event_type: PERF_TYPE_SOFTWARE,
                config: PERF_COUNT_SW_PAGE_FAULTS_MAJ,
                sample_period_freq: 1,
                ..spec_common_attributes()
            }),
    {
        let mut attributes = Self::common_attributes();
        attributes.event_type = PERF_TYPE_SOFTWARE;
        attributes.config = PERF_COUNT_SW_PAGE_FAULTS_MAJ;
        attributes.sample_period_freq = 1;
        RingBufBuilder::<PageFaults> { attributes, _type: PhantomData::<PageFaults> }
    }

    /// CPU clock samples at `sampling_frequency` per second.
    pub fn for_profiling(sampling_frequency: u64) -> (b: RingBufBuilder<Profiling>)
        ensures
            b.spec_attributes() == (perf_event_attr {
                event_type: PERF_TYPE_SOFTWARE,
                config: PERF_COUNT_SW_CPU_CLOCK,
                sample_period_freq: sampling_frequency,
                flags: spec_common_attributes().flags | FLAG_FREQ,
                ..spec_common_attributes()
            }),
    {
        let mut attributes = Self::common_attributes();
        attributes.event_type = PERF_TYPE_SOFTWARE;
        attributes.config = PERF_COUNT_SW_CPU_CLOCK;
        attributes.sample_period_freq = sampling_frequency;
        attributes.flags = attributes.flags | FLAG_FREQ;
        RingBufBuilder::<Profiling> { attributes, _type: PhantomData::<Profiling> }
    }

    /// Every hit of a tracepoint, with its raw data; the tracepoint's id is
    /// given when a buffer is built.
    pub fn for_tracepoint() -> (b: RingBufBuilder<Tracepoint>)
        ensures
            b.spec_attributes() == (perf_event_attr {
                event_type: PERF_TYPE_TRACEPOINT,
                sample_period_freq: 1,
                sample_type: spec_common_attributes().sample_type | PERF_SAMPLE_RAW,
                ..spec_common_attributes()
            }),
    {
        let mut attributes = Self::common_attributes();
        attributes.event_type = PERF_TYPE_TRACEPOINT;
        attributes.sample_period_freq = 1;
        attributes.sample_type = attributes.sample_type | PERF_SAMPLE_RAW;
        RingBufBuilder::<Tracepoint> { attributes, _type: PhantomData::<Tracepoint> }
    }

    /// Every BPF output, with its raw data.
    pub fn for_bpf() -> (b: RingBufBuilder<Bpf>)
        ensures
            b.spec_attributes() == (perf_event_attr {
                event_type: PERF_TYPE_SOFTWARE,
                config: PERF_COUNT_SW_BPF_OUTPUT,
                sample_period_freq: 1,
                sample_type: spec_common_attributes().sample_type | PERF_SAMPLE_RAW,
                ..spec_common_attributes()
            }),
    {
        let mut attributes = Self::common_attributes();
        attributes.event_type = PERF_TYPE_SOFTWARE;
        attributes.config = PERF_COUNT_SW_BPF_OUTPUT;
        attributes.sample_period_freq = 1;
        attributes.sample_type = attributes.sample_type | PERF_SAMPLE_RAW;
        RingBufBuilder::<Bpf> { attributes, _type: PhantomData::<Bpf> }
    }
}

/// Options that every kind of builder except the kernel one offers; each
/// returns a copy of the builder with one more option set.
pub trait RingBufOptions: Sized {
    /// The attribute block that the builder holds.
    spec fn options(&self) -> perf_event_attr;

    fn clone_options(&self) -> (r: Self)
        ensures
            r.options() == self.options(),
    ;

    fn attributes_mut(&mut self) -> (r: &mut perf_event_attr)
        ensures
            *r == old(self).options(),
            final(self).options() == *final(r),
    ;

    /// Samples carry their call chains.
    fn with_callchain_data(&self) -> (r: Self)
        ensures
            r.options() == (perf_event_attr {
                sample_type: self.options().sample_type | PERF_SAMPLE_CALLCHAIN,
                ..self.options()
            }),
    {
        let mut clone = self.clone_options();
        let attributes = clone.attributes_mut();
        attributes.sample_type = attributes.sample_type | PERF_SAMPLE_CALLCHAIN;
        clone
    }

    /// Call chains leave out user frames.
    fn without_user_callchain_data(&self) -> (r: Self)
        ensures
            r.options() == (perf_event_attr { flags: self.options().flags | FLAG_EXCLUDE_CALLCHAIN_USER, ..self.options() }),
    {
        let mut clone = self.clone_options();
        let attributes = clone.attributes_mut();
        attributes.flags = attributes.flags | FLAG_EXCLUDE_CALLCHAIN_USER;
        clone
    }

    /// Call chains leave out kernel frames.
    fn without_kernel_callchain_data(&self) -> (r: Self)
        ensures
            r.options() == (perf_event_attr {
                flags: self.options().flags | FLAG_EXCLUDE_CALLCHAIN_KERNEL,
                ..self.options()
            }),
    {
        let mut clone = self.clone_options();
        let attributes = clone.attributes_mut();
        attributes.flags = attributes.flags | FLAG_EXCLUDE_CALLCHAIN_KERNEL;
        clone
    }

    /// Samples carry their precise instruction pointer.
    fn with_ip(&self) -> (r: Self)
        ensures
            r.options() == (perf_event_attr {
                sample_type: self.options().sample_type | PERF_SAMPLE_IP,
                flags: self.options().flags | FLAG_PRECISE_IP,
                ..self.options()
            }),
    {
        let mut clone = self.clone_options();
        let attributes = clone.attributes_mut();
        attributes.sample_type = attributes.sample_type | PERF_SAMPLE_IP;
        attributes.flags = attributes.flags | FLAG_PRECISE_IP;
        clone
    }

    /// Samples carry the user registers in the mask `regs`.
    fn with_user_regs_data(&self, regs: u64) -> (r: Self)
        ensures
            r.options() == (perf_event_attr {
                sample_type: self.options().sample_type | PERF_SAMPLE_REGS_USER,
                sample_regs_user: regs,
                ..self.options()
            }),
    {
        let mut clone = self.clone_options();
        let attributes = clone.attributes_mut();
        attributes.sample_type = attributes.sample_type | PERF_SAMPLE_REGS_USER;
        attributes.sample_regs_user = regs;
        clone
    }

    /// Samples carry `stack_bytes` bytes of the user stack.
    fn with_user_stack_data(&self, stack_bytes: u32) -> (r: Self)
        ensures
            r.options() == (perf_event_attr {
                sample_type: self.options().sample_type | PERF_SAMPLE_STACK_USER,
                sample_stack_user: stack_bytes,
                ..self.options()
            }),
    {
        let mut clone = self.clone_options();
        let attributes = clone.attributes_mut();
        attributes.sample_type = attributes.sample_type | PERF_SAMPLE_STACK_USER;
        attributes.sample_stack_user = stack_bytes;
        clone
    }
}

impl RingBufOptions for RingBufBuilder<Profiling> {
    closed spec fn options(&self) -> perf_event_attr {
        self.attributes
    }

    fn clone_options(&self) -> (r: Self) {
        RingBufBuilder { attributes: self.attributes, _type: PhantomData::<Profiling> }
    }

    fn attributes_mut(&mut self) -> (r: &mut perf_event_attr) {
        &mut self.attributes
    }
}

impl RingBufOptions for RingBufBuilder<ContextSwitches> {
    closed spec fn options(&self) -> perf_event_attr {
        self.attributes
    }

    fn clone_options(&self) -> (r: Self) {
        RingBufBuilder { attributes: self.attributes, _type: PhantomData::<ContextSwitches> }
    }

    fn attributes_mut(&mut self) -> (r: &mut perf_event_attr) {
        &mut self.attributes
    }
}

impl RingBufOptions for RingBufBuilder<PageFaults> {
    closed spec fn options(&self) -> perf_event_attr {
        self.attributes
    }

    fn clone_options(&self) -> (r: Self) {
        RingBufBuilder { attributes: self.attributes, _type: PhantomData::<PageFaults> }
    }

    fn attributes_mut(&mut self) -> (r: &mut perf_event_attr) {
        &mut self.attributes
    }
}

impl RingBufOptions for RingBufBuilder<Tracepoint> {
    closed spec fn options(&self) -> perf_event_attr {
        self.attributes
    }

    fn clone_options(&self) -> (r: Self) {
        RingBufBuilder { attributes: self.attributes, _type: PhantomData::<Tracepoint> }
    }

    fn attributes_mut(&mut self) -> (r: &mut perf_event_attr) {
        &mut self.attributes
    }
}

impl RingBufOptions for RingBufBuilder<Bpf> {
    closed spec fn options(&self) -> perf_event_attr {
        self.attributes
    }

    fn clone_options(&self) -> (r: Self) {
        RingBufBuilder { attributes: self.attributes, _type: PhantomData::<Bpf> }
    }

    fn attributes_mut(&mut self) -> (r: &mut perf_event_attr) {
        &mut self.attributes
    }
}

impl RingBufBuilder<Profiling> {
    pub fn build(&self) -> (r: CommonRingBuf)
        ensures
            r.spec_attributes() == self.spec_attributes(),
    {
        CommonRingBuf::new(self.attributes)
    }
}

impl RingBufBuilder<ContextSwitches> {
    pub fn build(&self) -> (r: CommonRingBuf)
        ensures
            r.spec_attributes() == self.spec_attributes(),
    {
        CommonRingBuf::new(self.attributes)
    }
}

impl RingBufBuilder<PageFaults> {
    pub fn build(&self) -> (r: CommonRingBuf)
        ensures
            r.spec_attributes() == self.spec_attributes(),
    {
        CommonRingBuf::new(self.attributes)
    }
}

impl RingBufBuilder<Tracepoint> {
    /// A buffer for the tracepoint with id `tracepoint_id`; the builder
    /// stays as it is, so that more tracepoints can be added later.
    pub fn build(&self, tracepoint_id: u64) -> (r: CommonRingBuf)
        ensures
            r.spec_attributes() == (perf_event_attr { config: tracepoint_id, ..self.spec_attributes() }),
    {
        let mut attributes = self.attributes;
        attributes.config = tracepoint_id;
        CommonRingBuf::new(attributes)
    }
}

impl RingBufBuilder<Bpf> {
    pub fn build(&self) -> (r: CommonRingBuf)
        ensures
            r.spec_attributes() == self.spec_attributes(),
    {
        CommonRingBuf::new(self.attributes)
    }
}

impl RingBufBuilder<Kernel> {
    /// Also records the mappings of executable code.
    pub fn with_executable_mmap_records(&self) -> (r: Self)
        ensures
            r.spec_attributes() == (perf_event_attr {
                flags: self.spec_attributes().flags | FLAG_MMAP | FLAG_MMAP2,
                ..self.spec_attributes()
            }),
    {
        let mut attributes = self.attributes;
        attributes.flags = attributes.flags | FLAG_MMAP | FLAG_MMAP2;
        RingBufBuilder { attributes, _type: PhantomData::<Kernel> }
    }

    /// Also records the mappings of code and data.
    pub fn with_all_mmap_records(&self) -> (r: Self)
        ensures
            r.spec_attributes() == (perf_event_attr {
                flags: self.spec_attributes().flags | FLAG_MMAP | FLAG_MMAP2 | FLAG_MMAP_DATA,
                ..self.spec_attributes()
            }),
    {
        let mut attributes = self.attributes;
        attributes.flags = attributes.flags | FLAG_MMAP | FLAG_MMAP2 | FLAG_MMAP_DATA;
        RingBufBuilder { attributes, _type: PhantomData::<Kernel> }
    }

    /// Also records changes of process names, exec included.
    pub fn with_comm_records(&self) -> (r: Self)
        ensures
            r.spec_attributes() == (perf_event_attr {
                flags: self.spec_attributes().flags | FLAG_COMM | FLAG_COMM_EXEC,
                ..self.spec_attributes()
            }),
    {
        let mut attributes = self.attributes;
        attributes.flags = attributes.flags | FLAG_COMM | FLAG_COMM_EXEC;
        RingBufBuilder { attributes, _type: PhantomData::<Kernel> }
    }

    /// Also records forks and exits.
    pub fn with_task_records(&self) -> (r: Self)
        ensures
            r.spec_attributes() == (perf_event_attr { flags: self.spec_attributes().flags | FLAG_TASK, ..self.spec_attributes() }),
    {
        let mut attributes = self.attributes;
        attributes.flags = attributes.flags | FLAG_TASK;
        RingBufBuilder { attributes, _type: PhantomData::<Kernel> }
    }

    /// Also records context switches.
    pub fn with_cswitch_records(&self) -> (r: Self)
        ensures
            r.spec_attributes() == (perf_event_attr {
                flags: self.spec_attributes().flags | FLAG_CONTEXT_SWITCH,
                ..self.spec_attributes()
            }),
    {
        let mut attributes = self.attributes;
        attributes.flags = attributes.flags | FLAG_CONTEXT_SWITCH;
        RingBufBuilder { attributes, _type: PhantomData::<Kernel> }
    }

    pub fn build(&self) -> (r: CommonRingBuf)
        ensures
            r.spec_attributes() == self.spec_attributes(),
    {
        CommonRingBuf::new(self.attributes)
    }
}

/// The attribute block shared by the per-CPU buffers of one kind.
pub struct CommonRingBuf {
    attributes: perf_event_attr,
}

/// The sample type without call chains, user stacks and user registers,
/// and with the instruction pointer instead.
pub open spec fn without_callstack_sample_type(sample_type: u64) -> u64 {
    (sample_type & !PERF_SAMPLE_CALLCHAIN & !PERF_SAMPLE_STACK_USER & !PERF_SAMPLE_REGS_USER) | PERF_SAMPLE_IP
}

impl CommonRingBuf {
    pub closed spec fn spec_attributes(&self) -> perf_event_attr {
        self.attributes
    }

    pub fn new(attributes: perf_event_attr) -> (r: Self)
        ensures
            r.spec_attributes() == attributes,
    {
        CommonRingBuf { attributes }
    }

    pub fn attributes(&self) -> (r: perf_event_attr)
        ensures
            r == self.spec_attributes(),
    {
        self.attributes
    }

    /// The same buffer kind sampling only the instruction pointer where it
    /// sampled call chains or user stacks.
    pub fn without_callstack(self) -> (r: Self)
        ensures
            !has_bits(self.spec_attributes().sample_type, PERF_SAMPLE_CALLCHAIN) && !has_bits(
                self.spec_attributes().sample_type,
                PERF_SAMPLE_STACK_USER,
            ) ==> r == self,
            has_bits(self.spec_attributes().sample_type, PERF_SAMPLE_CALLCHAIN) || has_bits(
                self.spec_attributes().sample_type,
                PERF_SAMPLE_STACK_USER,
            ) ==> r.spec_attributes() == (perf_event_attr {
                sample_type: without_callstack_sample_type(self.spec_attributes().sample_type),
                ..self.spec_attributes()
            }),
    {
        if !self.attributes.has_format(PERF_SAMPLE_CALLCHAIN) && !self.attributes.has_format(PERF_SAMPLE_STACK_USER) {
            return self;
        }
        let mut attributes = self.attributes;
        attributes.sample_type = attributes.sample_type & !PERF_SAMPLE_CALLCHAIN;
        attributes.sample_type = attributes.sample_type & !PERF_SAMPLE_STACK_USER;
        attributes.sample_type = attributes.sample_type & !PERF_SAMPLE_REGS_USER;
        attributes.sample_type = attributes.sample_type | PERF_SAMPLE_IP;
        CommonRingBuf { attributes }
    }

    /// The buffer of this kind for CPU `cpu`.
    pub fn for_cpu(&self, cpu: u32) -> (r: CpuRingBuf)
        ensures
            r.cpu() == cpu,
            r.spec_attributes() == self.spec_attributes(),
            r.spec_sample_time_offset() == sample_time_offset_for(self.spec_attributes()),
            r.spec_fd() is None,
            r.spec_id() is None,
    {
        CpuRingBuf::new(cpu, self.attributes)
    }
}

/// Dropping call stacks from a sample type that had them leaves none to
/// drop, so a second `without_callstack` returns the buffer unchanged.
pub proof fn lemma_without_callstack_once(sample_type: u64)
    ensures
        !has_bits(without_callstack_sample_type(sample_type), PERF_SAMPLE_CALLCHAIN),
        !has_bits(without_callstack_sample_type(sample_type), PERF_SAMPLE_STACK_USER),
        has_bits(without_callstack_sample_type(sample_type), PERF_SAMPLE_IP),
{
    let st = sample_type;
    assert(((st & !0x20u64 & !0x2000u64 & !0x1000u64) | 0x1u64) & 0x20u64 != 0x20u64) by (bit_vector);
    assert(((st & !0x20u64 & !0x2000u64 & !0x1000u64) | 0x1u64) & 0x2000u64 != 0x2000u64) by (bit_vector);
    assert(((st & !0x20u64 & !0x2000u64 & !0x1000u64) | 0x1u64) & 0x1u64 == 0x1u64) by (bit_vector);
}

/// Where a sample's time stamp sits: after the header and the identifier,
/// instruction pointer and thread ids that come before it when sampled.
pub open spec fn sample_time_offset_for(a: perf_event_attr) -> u16 {
    (8 + (if has_bits(a.sample_type, PERF_SAMPLE_IDENTIFIER) { 8int } else { 0 }) + (if has_bits(
        a.sample_type,
        PERF_SAMPLE_IP,
    ) { 8int } else { 0 }) + (if has_bits(a.sample_type, PERF_SAMPLE_TID) { 8int } else { 0 })) as u16
}

/// The ring buffer of one CPU: its attribute block and, once opened, its
/// file descriptor and sample id.
pub struct CpuRingBuf {
    cpu: u32,
    attributes: perf_event_attr,
    sample_time_offset: u16,
    fd: Option<i32>,
    id: Option<u64>,
}

impl CpuRingBuf {
    pub closed spec fn cpu(&self) -> u32 {
        self.cpu
    }

    pub closed spec fn spec_attributes(&self) -> perf_event_attr {
        self.attributes
    }

    pub closed spec fn spec_sample_time_offset(&self) -> u16 {
        self.sample_time_offset
    }

    pub closed spec fn spec_fd(&self) -> Option<i32> {
        self.fd
    }

    pub closed spec fn spec_id(&self) -> Option<u64> {
        self.id
    }

    pub fn new(cpu: u32, attributes: perf_event_attr) -> (r: Self)
        ensures
            r.cpu() == cpu,
            r.spec_attributes() == attributes,
            r.spec_sample_time_offset() == sample_time_offset_for(attributes),
            r.spec_fd() is None,
            r.spec_id() is None,
    {
        let mut sample_time_offset: u16 = crate::abi::Header::data_offset() as u16;
        if attributes.has_format(PERF_SAMPLE_IDENTIFIER) {
            sample_time_offset = sample_time_offset + 8;
        }
        if attributes.has_format(PERF_SAMPLE_IP) {
            sample_time_offset = sample_time_offset + 8;
        }
        if attributes.has_format(PERF_SAMPLE_TID) {
            sample_time_offset = sample_time_offset + 8;
        }
        CpuRingBuf { cpu, attributes, sample_time_offset, fd: None, id: None }
    }

    pub fn cpu_index(&self) -> (r: u32)
        ensures
            r == self.cpu(),
    {
        self.cpu
    }

    pub fn attributes(&self) -> (r: perf_event_attr)
        ensures
            r == self.spec_attributes(),
    {
        self.attributes
    }

    pub fn sample_time_offset(&self) -> (r: u16)
        ensures
            r == self.spec_sample_time_offset(),
    {
        self.sample_time_offset
    }

    pub fn id(&self) -> (r: Option<u64>)
        ensures
            r == self.spec_id(),
    {
        self.id
    }

    pub fn fd(&self) -> (r: Option<i32>)
        ensures
            r == self.spec_fd(),
    {
        self.fd
    }

    pub fn is_open(&self) -> (r: bool)
        ensures
            r == self.spec_fd() is Some,
    {
        self.fd.is_some()
    }

    /// Records the descriptor that opening the event gave and the sample id
    /// read from it.
    pub fn set_open(&mut self, fd: i32, id: u64)
        ensures
            final(self).spec_fd() == Some(fd),
            final(self).spec_id() == Some(id),
            final(self).cpu() == old(self).cpu(),
            final(self).spec_attributes() == old(self).spec_attributes(),
            final(self).spec_sample_time_offset() == old(self).spec_sample_time_offset(),
    {
        self.fd = Some(fd);
        self.id = Some(id);
    }

    /// The length of the mapping that a reader of this buffer needs: one
    /// metadata page and `page_count` pages, rounded up to a power of two,
    /// of data; an error when the buffer is not open.
    pub fn create_reader_len(&self, page_count: usize, page_size: usize) -> (r: Result<usize, RingBufError>)
        requires
            page_size >= 1,
            page_count <= 0x8000_0000_0000_0000,
            forall|p: u64| #[trigger] is_next_power_of_two(page_count as u64, p) ==> (p + 1) * page_size <= usize::MAX,
        ensures
            self.spec_fd() is None ==> r == Err::<usize, RingBufError>(RingBufError::NotOpen),
            self.spec_fd() is Some ==> (r matches Ok(len) && exists|p: u64|
                #[trigger] is_next_power_of_two(page_count as u64, p) && len == (p + 1) * page_size),
    {
        if self.fd.is_none() {
            return Err(RingBufError::NotOpen);
        }
        let p = next_power_of_two(page_count as u64);
        assert(is_next_power_of_two(page_count as u64, p));
        assert(p + 1 <= usize::MAX && (p + 1) * page_size <= usize::MAX) by (nonlinear_arith)
            requires
                (p + 1) * page_size <= usize::MAX,
                page_size >= 1,
        ;
        Ok(((p as usize) + 1) * page_size)
    }
}

/// The time stamp, in nanoseconds, of a clock reading of `tv_sec` seconds
/// and `tv_nsec` nanoseconds, as the ring buffers' records carry it.
pub fn timespec_nanos(tv_sec: i64, tv_nsec: i64) -> (r: u64)
    requires
        i64::MIN <= tv_sec * 1_000_000_000 + tv_nsec <= i64::MAX,
        i64::MIN <= tv_sec * 1_000_000_000 <= i64::MAX,
    ensures
        r == (tv_sec * 1_000_000_000 + tv_nsec) as u64,
{
    ((tv_sec * 1_000_000_000) + tv_nsec) as u64
}

} // verus!
