//! Layout of perf event attributes and records.

use vstd::prelude::*;
use vstd::bytes::*;
use std::array::TryFromSliceError;

verus! {

pub const PERF_RECORD_ALIGNMENT: usize = 8;

/// `size` rounded up to the next multiple of the perf record alignment.
pub open spec fn spec_align_to_perf_record(size: int) -> int {
    ((size + 7) / 8) * 8
}

/// Rounds `size` up to a multiple of 8 bytes, the alignment of every perf record.
pub fn align_to_perf_record(size: usize) -> (aligned: usize)
    requires
        size + 7 <= usize::MAX,
    ensures
        aligned == spec_align_to_perf_record(size as int),
        aligned % 8 == 0,
        size <= aligned < size + 8,
{
    (size + (PERF_RECORD_ALIGNMENT - 1)) / PERF_RECORD_ALIGNMENT * PERF_RECORD_ALIGNMENT
}

pub const PERF_SAMPLE_IP: u64 = 0x1;
pub const PERF_SAMPLE_TID: u64 = 0x2;
pub const PERF_SAMPLE_TIME: u64 = 0x4;
pub const PERF_SAMPLE_ADDR: u64 = 0x8;
pub const PERF_SAMPLE_READ: u64 = 0x10;
pub const PERF_SAMPLE_CALLCHAIN: u64 = 0x20;
pub const PERF_SAMPLE_ID: u64 = 0x40;
pub const PERF_SAMPLE_CPU: u64 = 0x80;
pub const PERF_SAMPLE_PERIOD: u64 = 0x100;
pub const PERF_SAMPLE_STREAM_ID: u64 = 0x200;
pub const PERF_SAMPLE_RAW: u64 = 0x400;
pub const PERF_SAMPLE_BRANCH_STACK: u64 = 0x800;
pub const PERF_SAMPLE_REGS_USER: u64 = 0x1000;
pub const PERF_SAMPLE_STACK_USER: u64 = 0x2000;
pub const PERF_SAMPLE_WEIGHT: u64 = 0x4000;
pub const PERF_SAMPLE_DATA_SRC: u64 = 0x8000;
pub const PERF_SAMPLE_IDENTIFIER: u64 = 0x10000;
pub const PERF_SAMPLE_TRANSACTION: u64 = 0x20000;
pub const PERF_SAMPLE_REGS_INTR: u64 = 0x40000;
pub const PERF_SAMPLE_PHYS_ADDR: u64 = 0x80000;
pub const PERF_SAMPLE_AUX: u64 = 0x100000;
pub const PERF_SAMPLE_CGROUP: u64 = 0x200000;

pub const PERF_SAMPLE_REGS_ABI_NONE: u64 = 0;
pub const PERF_SAMPLE_REGS_ABI_32: u64 = 1;
pub const PERF_SAMPLE_REGS_ABI_64: u64 = 2;

pub const PERF_RECORD_LOST: u32 = 2;
pub const PERF_RECORD_COMM: u32 = 3;
pub const PERF_RECORD_EXIT: u32 = 4;
pub const PERF_RECORD_FORK: u32 = 7;
pub const PERF_RECORD_SAMPLE: u32 = 9;
pub const PERF_RECORD_MMAP2: u32 = 10;
pub const PERF_RECORD_LOST_SAMPLES: u32 = 13;
pub const PERF_RECORD_SWITCH_CPU_WIDE: u32 = 15;

pub const PERF_FORMAT_TOTAL_TIME_ENABLED: u64 = 0x1;
pub const PERF_FORMAT_TOTAL_TIME_RUNNING: u64 = 0x2;
pub const PERF_FORMAT_ID: u64 = 0x4;
pub const PERF_FORMAT_GROUP: u64 = 0x8;
pub const PERF_FORMAT_LOST: u64 = 0x10;

pub const FLAG_DISABLED: u64 = 0x1;
pub const FLAG_INHERIT: u64 = 0x2;
pub const FLAG_PINNED: u64 = 0x4;
pub const FLAG_EXCLUSIVE: u64 = 0x8;
pub const FLAG_EXCLUDE_USER: u64 = 0x10;
pub const FLAG_EXCLUDE_KERNEL: u64 = 0x20;
pub const FLAG_EXCLUDE_HV: u64 = 0x40;
pub const FLAG_EXCLUDE_IDLE: u64 = 0x80;
pub const FLAG_MMAP: u64 = 0x100;
pub const FLAG_COMM: u64 = 0x200;
pub const FLAG_FREQ: u64 = 0x400;
pub const FLAG_INHERIT_STAT: u64 = 0x800;
pub const FLAG_ENABLE_ON_EXEC: u64 = 0x1000;
pub const FLAG_TASK: u64 = 0x2000;
pub const FLAG_WATERMARK: u64 = 0x4000;
pub const FLAG_PRECISE_IP: u64 = 0x8000;
pub const FLAG_PRECISE_NO_SKID: u64 = 0x10000;
pub const FLAG_MMAP_DATA: u64 = 0x20000;
pub const FLAG_SAMPLE_ID_ALL: u64 = 0x40000;
pub const FLAG_EXCLUDE_HOST: u64 = 0x80000;
pub const FLAG_EXCLUDE_GUEST: u64 = 0x100000;
pub const FLAG_EXCLUDE_CALLCHAIN_KERNEL: u64 = 0x200000;
pub const FLAG_EXCLUDE_CALLCHAIN_USER: u64 = 0x400000;
pub const FLAG_MMAP2: u64 = 0x800000;
pub const FLAG_COMM_EXEC: u64 = 0x1000000;
pub const FLAG_USE_CLOCKID: u64 = 0x2000000;
pub const FLAG_CONTEXT_SWITCH: u64 = 0x4000000;
pub const FLAG_WRITE_BACKWARD: u64 = 0x8000000;
pub const FLAG_NAMESPACES: u64 = 0x10000000;
pub const FLAG_KSYMBOL: u64 = 0x20000000;
pub const FLAG_BPF_EVENT: u64 = 0x40000000;
pub const FLAG_AUX_OUTPUT: u64 = 0x80000000;
pub const FLAG_CGROUP: u64 = 0x100000000;
pub const FLAG_TEXT_POKE: u64 = 0x200000000;

pub const PERF_TYPE_HARDWARE: u32 = 0;
pub const PERF_TYPE_SOFTWARE: u32 = 1;
pub const PERF_TYPE_TRACEPOINT: u32 = 2;

pub const PERF_EVENT_IOC_ENABLE: i32 = 9216;
pub const PERF_EVENT_IOC_DISABLE: i32 = 9217;
pub const PERF_EVENT_IOC_SET_OUTPUT: i32 = 9221;
pub const PERF_EVENT_IOC_SET_FILTER: i32 = 0x40082406;

pub const PERF_COUNT_SW_CPU_CLOCK: u64 = 0;
pub const PERF_COUNT_SW_PAGE_FAULTS_MIN: u64 = 2;
pub const PERF_COUNT_SW_CONTEXT_SWITCHES: u64 = 3;
pub const PERF_COUNT_SW_PAGE_FAULTS_MAJ: u64 = 6;
pub const PERF_COUNT_SW_BPF_OUTPUT: u64 = 10;
pub const PERF_COUNT_SW_DUMMY: u64 = 9;

pub const PERF_ATTR_SIZE_VER4: u32 = 104;

pub const PERF_CONTEXT_HV: u64 = 0xFFFFFFFFFFFFFFE0;
pub const PERF_CONTEXT_KERNEL: u64 = 0xFFFFFFFFFFFFFF80;
pub const PERF_CONTEXT_USER: u64 = 0xFFFFFFFFFFFFFE00;
pub const PERF_CONTEXT_GUEST: u64 = 0xFFFFFFFFFFFFF800;
pub const PERF_CONTEXT_GUEST_KERNEL: u64 = 0xFFFFFFFFFFFFF780;
pub const PERF_CONTEXT_GUEST_USER: u64 = 0xFFFFFFFFFFFFF600;
pub const PERF_CONTEXT_MAX: u64 = 0xFFFFFFFFFFFFF001;

pub const PERF_RECORD_MISC_MMAP_DATA: u16 = 0x2000;
pub const PERF_RECORD_MISC_COMM_EXEC: u16 = 0x2000;
pub const PERF_RECORD_MISC_FORK_EXEC: u16 = 0x2000;
pub const PERF_RECORD_MISC_SWITCH_OUT: u16 = 0x2000;

pub const PERF_RECORD_MISC_EXACT_IP: u16 = 0x4000;
pub const PERF_RECORD_MISC_SWITCH_OUT_PREEMPT: u16 = 0x4000;
pub const PERF_RECORD_MISC_MMAP_BUILD_ID: u16 = 0x4000;

/// `std::array::TryFromSliceError`, the error std gives when a slice does
/// not have an array's length; declared so that `Header::from_slice` can
/// keep its signature. Nothing about it is claimed.
#[verifier::external_type_specification]
#[verifier::external_body]
pub struct ExTryFromSliceError(TryFromSliceError);

/// The attribute block handed to `perf_event_open`.
#[allow(non_camel_case_types)]
#[derive(Copy, Clone, Debug, PartialEq, Eq, Structural)]
pub struct perf_event_attr {
    pub event_type: u32,
    pub size: u32,
    pub config: u64,
    pub sample_period_freq: u64,
    pub sample_type: u64,
    pub read_format: u64,
    pub flags: u64,
    pub wakeup_events_watermark: u32,
    pub bp_type: u32,
    pub bp_addr: u64,
    pub bp_len: u64,
    pub branch_sample_type: u64,
    pub sample_regs_user: u64,
    pub sample_stack_user: u32,
    pub clockid: i32,
    pub sample_regs_intr: u64,
}

/// The all-zero attribute block.
pub open spec fn zero_attr() -> perf_event_attr {
    perf_event_attr {
        event_type: 0,
        size: 0,
        config: 0,
        sample_period_freq: 0,
        sample_type: 0,
        read_format: 0,
        flags: 0,
        wakeup_events_watermark: 0,
        bp_type: 0,
        bp_addr: 0,
        bp_len: 0,
        branch_sample_type: 0,
        sample_regs_user: 0,
        sample_stack_user: 0,
        clockid: 0,
        sample_regs_intr: 0,
    }
}

impl Default for perf_event_attr {
    fn default() -> (attr: Self)
        ensures
            attr == zero_attr(),
    {
        perf_event_attr {
            event_type: 0,
            size: 0,
            config: 0,
            sample_period_freq: 0,
            sample_type: 0,
            read_format: 0,
            flags: 0,
            wakeup_events_watermark: 0,
            bp_type: 0,
            bp_addr: 0,
            bp_len: 0,
            branch_sample_type: 0,
            sample_regs_user: 0,
            sample_stack_user: 0,
            clockid: 0,
            sample_regs_intr: 0,
        }
    }
}

/// Where the sample-id fields sit in a non-sample record's trailer.
pub struct SampleIdOffsets {
    pub pid: Option<usize>,
    pub tid: Option<usize>,
    pub time: Option<usize>,
    pub id: Option<usize>,
    pub stream_id: Option<usize>,
    pub cpu: Option<usize>,
    pub identifier: Option<usize>,
    pub size: usize,
}

/// True when every bit of `bits` is set in `value`.
pub open spec fn has_bits(value: u64, bits: u64) -> bool {
    (value & bits) == bits
}

/// Offset of a field that comes after `before` bytes, when `present`.
pub open spec fn field_at(present: bool, before: int) -> Option<usize> {
    if present { Some(before as usize) } else { None }
}

/// Width in bytes that a field of width `w` adds when `present`.
pub open spec fn width_if(present: bool, w: int) -> int {
    if present { w } else { 0 }
}

impl perf_event_attr {
    pub fn has_flag(&self, flag: u64) -> (r: bool)
        ensures
            r == has_bits(self.flags, flag),
    {
        (self.flags & flag) == flag
    }

    pub fn has_format(&self, format: u64) -> (r: bool)
        ensures
            r == has_bits(self.sample_type, format),
    {
        (self.sample_type & format) == format
    }

    pub fn has_read_format(&self, format: u64) -> (r: bool)
        ensures
            r == has_bits(self.read_format, format),
    {
        (self.read_format & format) == format
    }

    /// Offsets of the sample-id trailer fields, in the order the kernel lays
    /// them out: pid/tid (4 bytes each), time, id, stream id, cpu/res and the
    /// identifier (8 bytes each).
    pub open spec fn spec_id_offsets_ok(&self, o: SampleIdOffsets) -> bool {
        let tid = has_bits(self.sample_type, PERF_SAMPLE_TID);
        let time = has_bits(self.sample_type, PERF_SAMPLE_TIME);
        let id = has_bits(self.sample_type, PERF_SAMPLE_ID);
        let stream = has_bits(self.sample_type, PERF_SAMPLE_STREAM_ID);
        let cpu = has_bits(self.sample_type, PERF_SAMPLE_CPU);
        let ident = has_bits(self.sample_type, PERF_SAMPLE_IDENTIFIER);
        let after_tid = width_if(tid, 8);
        let after_time = after_tid + width_if(time, 8);
        let after_id = after_time + width_if(id, 8);
        let after_stream = after_id + width_if(stream, 8);
        let after_cpu = after_stream + width_if(cpu, 8);
        &&& o.pid == field_at(tid, 0)
        &&& o.tid == field_at(tid, 4)
        &&& o.time == field_at(time, after_tid)
        &&& o.id == field_at(id, after_time)
        &&& o.stream_id == field_at(stream, after_id)
        &&& o.cpu == field_at(cpu, after_stream)
        &&& o.identifier == field_at(ident, after_cpu)
        &&& o.size == after_cpu + width_if(ident, 8)
    }

    /// The sample-id trailer layout; `None` when the attributes do not ask
    /// the kernel to append it to non-sample records.
    pub fn non_sampled_id_offsets(&self) -> (r: Option<SampleIdOffsets>)
        ensures
            r is None <==> !has_bits(self.flags, FLAG_SAMPLE_ID_ALL),
            r matches Some(o) ==> self.spec_id_offsets_ok(o),
    {
        if !self.has_flag(FLAG_SAMPLE_ID_ALL) {
            return None;
        }
        let mut offset = SampleIdOffsets {
            pid: None,
            tid: None,
            time: None,
            id: None,
            stream_id: None,
            cpu: None,
            identifier: None,
            size: 0,
        };
        if self.has_format(PERF_SAMPLE_TID) {
            offset.pid = Some(offset.size);
            offset.size = offset.size + 4;
            offset.tid = Some(offset.size);
            offset.size = offset.size + 4;
        }
        if self.has_format(PERF_SAMPLE_TIME) {
            offset.time = Some(offset.size);
            offset.size = offset.size + 8;
        }
        if self.has_format(PERF_SAMPLE_ID) {
            offset.id = Some(offset.size);
            offset.size = offset.size + 8;
        }
        if self.has_format(PERF_SAMPLE_STREAM_ID) {
            offset.stream_id = Some(offset.size);
            offset.size = offset.size + 8;
        }
        if self.has_format(PERF_SAMPLE_CPU) {
            offset.cpu = Some(offset.size);
            offset.size = offset.size + 8;
        }
        if self.has_format(PERF_SAMPLE_IDENTIFIER) {
            offset.identifier = Some(offset.size);
            offset.size = offset.size + 8;
        }
        Some(offset)
    }
}

/// Little-endian value of the two bytes at `pos`.
pub open spec fn le16_at(s: Seq<u8>, pos: int) -> u16 {
    spec_u16_from_le_bytes(s.subrange(pos, pos + 2))
}

/// Little-endian value of the four bytes at `pos`.
pub open spec fn le32_at(s: Seq<u8>, pos: int) -> u32 {
    spec_u32_from_le_bytes(s.subrange(pos, pos + 4))
}

/// Little-endian value of the eight bytes at `pos`.
pub open spec fn le64_at(s: Seq<u8>, pos: int) -> u64 {
    spec_u64_from_le_bytes(s.subrange(pos, pos + 8))
}

/// A sequence of `n` zero bytes.
pub open spec fn zeros(n: int) -> Seq<u8> {
    Seq::new(n as nat, |i: int| 0u8)
}

/// The bytes of a record: header (type, misc, aligned size), payload, and
/// zero padding up to the record alignment.
pub open spec fn spec_record_bytes(entry_type: u32, misc: u16, data: Seq<u8>) -> Seq<u8> {
    let size = spec_align_to_perf_record(data.len() + 8int);
    spec_u32_to_le_bytes(entry_type) + spec_u16_to_le_bytes(misc) + spec_u16_to_le_bytes(
        size as u16,
    ) + data + zeros(size - (data.len() + 8))
}

/// Largest payload whose record size still fits the 16-bit size field.
pub const MAX_RECORD_PAYLOAD: usize = 65520;

/// A perf record header: type, misc bits, total size, and the bytes that follow it.
pub struct Header<'a> {
    pub entry_type: u32,
    pub misc: u16,
    pub size: u16,
    pub data: &'a [u8],
}

impl<'a> Header<'a> {
    /// Decodes the eight header bytes at the start of `slice`.
    pub fn from_slice(slice: &'a [u8]) -> (r: Result<Header<'a>, TryFromSliceError>)
        requires
            slice@.len() >= 8,
        ensures
            r matches Ok(h) && h.entry_type == le32_at(slice@, 0) && h.misc == le16_at(slice@, 4)
                && h.size == le16_at(slice@, 6) && h.data@ == slice@.subrange(8, slice@.len() as int),
    {
        let entry_type = u32_from_le_bytes(&slice[0..4]);
        let misc = u16_from_le_bytes(&slice[4..6]);
        let size = u16_from_le_bytes(&slice[6..8]);
        let data = &slice[8..slice.len()];
        Ok(Header { entry_type, misc, size, data })
    }

    pub fn data_offset() -> (r: usize)
        ensures
            r == 8,
    {
        8
    }

    /// Appends a record with this header and payload, zero-padded to the
    /// record alignment.
    pub fn write(entry_type: u32, misc: u16, data: &[u8], output: &mut Vec<u8>)
        requires
            data@.len() <= MAX_RECORD_PAYLOAD,
        ensures
            final(output)@ == old(output)@ + spec_record_bytes(entry_type, misc, data@),
    {
        let unaligned_size = data.len() + 8;
        let size = align_to_perf_record(unaligned_size) as u16;
        let ghost start = output@;
        let b = u32_to_le_bytes(entry_type);
        output.extend_from_slice(b.as_slice());
        let b = u16_to_le_bytes(misc);
        output.extend_from_slice(b.as_slice());
        let b = u16_to_le_bytes(size);
        output.extend_from_slice(b.as_slice());
        output.extend_from_slice(data);
        let padding = (size as usize) - unaligned_size;
        let mut i: usize = 0;
        let ghost before_pad = output@;
        while i < padding
            invariant
                i <= padding,
                output@ == before_pad + zeros(i as int),
            decreases padding - i,
        {
            output.push(0u8);
            i = i + 1;
            assert(output@ =~= before_pad + zeros(i as int));
        }
        assert(output@ =~= start + spec_record_bytes(entry_type, misc, data@));
    }
}

/// Helpers for the fields of a sample record.
pub struct Sample {}

impl Sample {
    /// Appends the little-endian bytes of `time`.
    pub fn write_time(time: u64, output: &mut Vec<u8>)
        ensures
            final(output)@ == old(output)@ + spec_u64_to_le_bytes(time),
    {
        let b = u64_to_le_bytes(time);
        output.extend_from_slice(b.as_slice());
    }
}

/// What `Header::write` writes, `Header::from_slice` reads back: the type,
/// the misc bits, the size (payload plus header, rounded up to eight), and
/// after the header the payload followed by zero padding.
pub proof fn lemma_header_round_trip(entry_type: u32, misc: u16, data: Seq<u8>)
    requires
        data.len() <= MAX_RECORD_PAYLOAD,
    ensures
        ({
            let rec = spec_record_bytes(entry_type, misc, data);
            &&& rec.len() == spec_align_to_perf_record(data.len() + 8int)
            &&& rec.len() % 8 == 0
            &&& le32_at(rec, 0) == entry_type
            &&& le16_at(rec, 4) == misc
            &&& le16_at(rec, 6) == rec.len()
            &&& rec.subrange(8, rec.len() as int) == data + zeros(rec.len() - 8 - data.len())
        }),
{
    lemma_auto_spec_u32_to_from_le_bytes();
    lemma_auto_spec_u16_to_from_le_bytes();
    let rec = spec_record_bytes(entry_type, misc, data);
    let size = spec_align_to_perf_record(data.len() + 8int);
    assert(size % 8 == 0 && data.len() + 8 <= size < data.len() + 16) by {
        vstd::arithmetic::div_mod::lemma_fundamental_div_mod(data.len() + 15int, 8);
        vstd::arithmetic::div_mod::lemma_mod_multiples_basic((data.len() + 15int) / 8, 8);
    }
    assert(rec.subrange(0, 4) =~= spec_u32_to_le_bytes(entry_type));
    assert(rec.subrange(4, 6) =~= spec_u16_to_le_bytes(misc));
    assert(rec.subrange(6, 8) =~= spec_u16_to_le_bytes(size as u16));
    assert(rec.subrange(8, rec.len() as int) =~= data + zeros(rec.len() - 8 - data.len()));
}

} // verus!
