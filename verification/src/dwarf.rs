//! DWARF call-frame information (`.eh_frame` / `.eh_frame_hdr`) parsing
//! for stack unwinding.

use vstd::prelude::*;
use vstd::bytes::*;
use crate::abi::{le16_at, le32_at, le64_at};

verus! {

/// Why a piece of call-frame information could not be used.
#[derive(Debug, Clone, Copy, PartialEq, Eq, Structural)]
pub enum UnwindError {
    /// A register number does not fit in a byte.
    RegOutOfRange,
    /// A CFA offset does not fit in 16 bits.
    OffsetOutOfRange,
    /// A register number or rule value is out of range.
    RegValueOutOfRange,
    CieTooSmall,
    InvalidCie,
    InvalidVersion,
    /// Code/data alignment or the return register is out of range.
    AlignmentOutOfRange,
    CannotReadLength,
    ZeroLength,
    TooLargeLength,
    FdeTooSmall,
    InvalidCieOffset,
    UnbalancedStateRestore,
    CfaExpressionNotSupported,
    UnknownExtendedOpcode,
    UnknownPrimaryOpcode,
    /// A field runs past the end of the bytes that hold it.
    Truncated,
    /// A LEB128 number is longer than ten bytes.
    LebTooLong,
    /// The image ended before a complete entry could be read.
    UnexpectedEof,
}

/* Pointer encodings */
pub const DW_EH_PE_OMIT: u8 = 0xFF;
pub const DW_EH_PE_ULEB128: u8 = 0x01;
pub const DW_EH_PE_UDATA2: u8 = 0x02;
pub const DW_EH_PE_UDATA4: u8 = 0x03;
pub const DW_EH_PE_UDATA8: u8 = 0x04;
pub const DW_EH_PE_SLEB128: u8 = 0x09;
pub const DW_EH_PE_SDATA2: u8 = 0x0A;
pub const DW_EH_PE_SDATA4: u8 = 0x0B;
pub const DW_EH_PE_SDATA8: u8 = 0x0C;
pub const DW_EH_PE_FORMAT_MASK: u8 = 0x0F;

/* Applications */
pub const DW_EH_PE_ABSPTR: u8 = 0x00;
pub const DW_EH_PE_PCREL: u8 = 0x10;
pub const DW_EH_PE_DATAREL: u8 = 0x30;
pub const DW_EH_PE_APPL_MASK: u8 = 0xF0;

/// The byte at `pos` and the position after it.
pub open spec fn spec_read_byte(s: Seq<u8>, pos: int) -> Result<(u8, int), UnwindError> {
    if 0 <= pos < s.len() {
        Ok((s[pos], pos + 1))
    } else {
        Err(UnwindError::Truncated)
    }
}

/// The little-endian u16 at `pos` and the position after it.
pub open spec fn spec_read_u16(s: Seq<u8>, pos: int) -> Result<(u16, int), UnwindError> {
    if 0 <= pos && pos + 2 <= s.len() {
        Ok((le16_at(s, pos), pos + 2))
    } else {
        Err(UnwindError::Truncated)
    }
}

/// The little-endian u32 at `pos` and the position after it.
pub open spec fn spec_read_u32(s: Seq<u8>, pos: int) -> Result<(u32, int), UnwindError> {
    if 0 <= pos && pos + 4 <= s.len() {
        Ok((le32_at(s, pos), pos + 4))
    } else {
        Err(UnwindError::Truncated)
    }
}

/// Is `end` the first NUL byte at or after `pos`?
pub open spec fn first_nul(s: Seq<u8>, pos: int, end: int) -> bool {
    &&& 0 <= pos <= end < s.len()
    &&& s[end] == 0
    &&& forall|k: int| pos <= k < end ==> s[k] != 0
}

/// Unsigned LEB128: each byte contributes its low seven bits at the next
/// multiple of seven, until a byte without the continuation bit; at most
/// ten bytes.
pub open spec fn uleb_acc(s: Seq<u8>, pos: int, shift: u64, acc: u64) -> Result<(u64, int), UnwindError>
    decreases 70 - shift,
{
    if !(0 <= pos < s.len()) {
        Err(UnwindError::Truncated)
    } else if shift > 63 {
        Err(UnwindError::LebTooLong)
    } else {
        let b = s[pos];
        let acc2 = acc | (((b & 127u8) as u64) << shift);
        if b & 128u8 == 0 {
            Ok((acc2, pos + 1))
        } else {
            uleb_acc(s, pos + 1, (shift + 7) as u64, acc2)
        }
    }
}

/// Signed LEB128: as unsigned, then sign-extended from the last group's
/// sign bit when fewer than 64 bits were read.
pub open spec fn sleb_acc(s: Seq<u8>, pos: int, shift: u64, acc: u64) -> Result<(u64, int), UnwindError>
    decreases 70 - shift,
{
    if !(0 <= pos < s.len()) {
        Err(UnwindError::Truncated)
    } else if shift > 63 {
        Err(UnwindError::LebTooLong)
    } else {
        let b = s[pos];
        let acc2 = acc | (((b & 127u8) as u64) << shift);
        let next = (shift + 7) as u64;
        if b & 128u8 == 0 {
            if next < 64 && b & 64u8 != 0 {
                Ok((acc2 | (u64::MAX << next), pos + 1))
            } else {
                Ok((acc2, pos + 1))
            }
        } else {
            sleb_acc(s, pos + 1, next, acc2)
        }
    }
}

pub open spec fn spec_read_uleb(s: Seq<u8>, pos: int) -> Result<(i64, int), UnwindError> {
    match uleb_acc(s, pos, 0, 0) {
        Ok((v, end)) => Ok((v as i64, end)),
        Err(e) => Err(e),
    }
}

pub open spec fn spec_read_sleb(s: Seq<u8>, pos: int) -> Result<(i64, int), UnwindError> {
    match sleb_acc(s, pos, 0, 0) {
        Ok((v, end)) => Ok((v as i64, end)),
        Err(e) => Err(e),
    }
}

/// LEB128 numbers of one or two bytes: a byte below 0x80 ends the number;
/// an unsigned number is the low seven bits of the first byte plus 128
/// times the second byte; a signed one-byte number is the byte minus 128
/// when its bit 0x40 is set.
pub proof fn lemma_short_leb128(s: Seq<u8>, pos: int)
    requires
        0 <= pos < s.len(),
    ensures
        s[pos] < 0x80 ==> spec_read_uleb(s, pos) == Ok::<(i64, int), UnwindError>((s[pos] as i64, pos + 1)),
        s[pos] >= 0x80 && pos + 1 < s.len() && s[pos + 1] < 0x80 ==> spec_read_uleb(s, pos) == Ok::<(i64, int), UnwindError>(
            ((s[pos] - 0x80 + 128 * s[pos + 1]) as i64, pos + 2),
        ),
        s[pos] < 0x40 ==> spec_read_sleb(s, pos) == Ok::<(i64, int), UnwindError>((s[pos] as i64, pos + 1)),
        0x40 <= s[pos] < 0x80 ==> spec_read_sleb(s, pos) == Ok::<(i64, int), UnwindError>(((s[pos] - 128) as i64, pos + 1)),
{
    let b = s[pos];
    let a0 = 0u64 | (((b & 127u8) as u64) << 0u64);
    assert(b < 0x80 ==> a0 == b as u64 && b & 128u8 == 0) by (bit_vector)
        requires
            a0 == 0u64 | (((b & 127u8) as u64) << 0u64),
    ;
    assert(b >= 0x80 ==> a0 == (b - 0x80) as u64 && b & 128u8 != 0) by (bit_vector)
        requires
            a0 == 0u64 | (((b & 127u8) as u64) << 0u64),
    ;
    if b >= 0x80 && pos + 1 < s.len() && s[pos + 1] < 0x80 {
        let c = s[pos + 1];
        let a1 = a0 | (((c & 127u8) as u64) << 7u64);
        assert(a1 == (b - 0x80) as u64 + 128 * (c as u64) && c & 128u8 == 0) by (bit_vector)
            requires
                a0 == (b - 0x80) as u64,
                b >= 0x80,
                c < 0x80,
                a1 == a0 | (((c & 127u8) as u64) << 7u64),
        ;
        assert(uleb_acc(s, pos + 1, 7, a0) == Ok::<(u64, int), UnwindError>((a1, pos + 2)));
        assert(uleb_acc(s, pos, 0, 0) == uleb_acc(s, pos + 1, 7, a0));
    }
    assert(b < 0x40 ==> b & 64u8 == 0) by (bit_vector);
    assert(0x40 <= b < 0x80 ==> b & 64u8 != 0 && (a0 | (u64::MAX << 7u64)) as i64 == b - 128) by (bit_vector)
        requires
            a0 == 0u64 | (((b & 127u8) as u64) << 0u64),
    ;
}

/// The raw value of a pointer encoding's format part at `pos`; unknown
/// formats read nothing and give 0.
pub open spec fn spec_read_format(fmt: u8, s: Seq<u8>, pos: int) -> Result<(i64, int), UnwindError> {
    if fmt == DW_EH_PE_ULEB128 {
        spec_read_uleb(s, pos)
    } else if fmt == DW_EH_PE_UDATA2 {
        if 0 <= pos && pos + 2 <= s.len() { Ok((le16_at(s, pos) as i64, pos + 2)) } else { Err(UnwindError::Truncated) }
    } else if fmt == DW_EH_PE_UDATA4 {
        if 0 <= pos && pos + 4 <= s.len() { Ok((le32_at(s, pos) as i64, pos + 4)) } else { Err(UnwindError::Truncated) }
    } else if fmt == DW_EH_PE_UDATA8 {
        if 0 <= pos && pos + 8 <= s.len() { Ok((le64_at(s, pos) as i64, pos + 8)) } else { Err(UnwindError::Truncated) }
    } else if fmt == DW_EH_PE_SLEB128 {
        spec_read_sleb(s, pos)
    } else if fmt == DW_EH_PE_SDATA2 {
        if 0 <= pos && pos + 2 <= s.len() { Ok((le16_at(s, pos) as i16 as i64, pos + 2)) } else { Err(UnwindError::Truncated) }
    } else if fmt == DW_EH_PE_SDATA4 {
        if 0 <= pos && pos + 4 <= s.len() { Ok((le32_at(s, pos) as i32 as i64, pos + 4)) } else { Err(UnwindError::Truncated) }
    } else if fmt == DW_EH_PE_SDATA8 {
        if 0 <= pos && pos + 8 <= s.len() { Ok((le64_at(s, pos) as i64, pos + 8)) } else { Err(UnwindError::Truncated) }
    } else {
        Ok((0, pos))
    }
}

/// The application part of a pointer encoding: pc-relative values add the
/// base and the value's own position, data-relative values add the base.
/// Arithmetic wraps.
pub open spec fn spec_apply_encoding(enc: u8, v: i64, data: i64, start: int) -> i64 {
    let appl = enc & DW_EH_PE_APPL_MASK;
    if appl == DW_EH_PE_PCREL {
        v.wrapping_add(data).wrapping_add(start as i64)
    } else if appl == DW_EH_PE_DATAREL {
        v.wrapping_add(data)
    } else {
        v
    }
}

/// A pointer-encoded value at `pos` and the position after it.
pub open spec fn spec_read_value(enc: u8, data: i64, s: Seq<u8>, pos: int) -> Result<(i64, int), UnwindError> {
    match spec_read_format(enc & DW_EH_PE_FORMAT_MASK, s, pos) {
        Ok((v, end)) => Ok((spec_apply_encoding(enc, v, data, pos), end)),
        Err(e) => Err(e),
    }
}

pub fn read_byte(slice: &[u8], cursor: &mut usize) -> (r: Result<u8, UnwindError>)
    ensures
        match spec_read_byte(slice@, *old(cursor) as int) {
            Ok((v, end)) => r == Ok::<u8, UnwindError>(v) && *final(cursor) == end,
            Err(e) => r == Err::<u8, UnwindError>(e) && *final(cursor) == *old(cursor),
        },
{
    if *cursor >= slice.len() {
        return Err(UnwindError::Truncated);
    }
    let byte = slice[*cursor];
    *cursor = *cursor + 1;
    Ok(byte)
}

pub fn read_u16(slice: &[u8], cursor: &mut usize) -> (r: Result<u16, UnwindError>)
    ensures
        match spec_read_u16(slice@, *old(cursor) as int) {
            Ok((v, end)) => r == Ok::<u16, UnwindError>(v) && *final(cursor) == end,
            Err(e) => r == Err::<u16, UnwindError>(e) && *final(cursor) == *old(cursor),
        },
{
    if slice.len() < 2 || *cursor > slice.len() - 2 {
        return Err(UnwindError::Truncated);
    }
    let start = *cursor;
    *cursor = start + 2;
    Ok(u16_from_le_bytes(&slice[start..start + 2]))
}

pub fn read_u32(slice: &[u8], cursor: &mut usize) -> (r: Result<u32, UnwindError>)
    ensures
        match spec_read_u32(slice@, *old(cursor) as int) {
            Ok((v, end)) => r == Ok::<u32, UnwindError>(v) && *final(cursor) == end,
            Err(e) => r == Err::<u32, UnwindError>(e) && *final(cursor) == *old(cursor),
        },
{
    if slice.len() < 4 || *cursor > slice.len() - 4 {
        return Err(UnwindError::Truncated);
    }
    let start = *cursor;
    *cursor = start + 4;
    Ok(u32_from_le_bytes(&slice[start..start + 4]))
}

/// Skips a NUL-terminated string at the cursor and returns its length
/// (without the NUL); the cursor ends just past the NUL.
pub fn read_string(slice: &[u8], cursor: &mut usize) -> (r: Result<usize, UnwindError>)
    ensures
        (exists|end: int| first_nul(slice@, *old(cursor) as int, end)) <==> r is Ok,
        r matches Ok(n) ==> first_nul(slice@, *old(cursor) as int, *old(cursor) + n)
            && *final(cursor) == *old(cursor) + n + 1,
        r matches Err(e) ==> e == UnwindError::Truncated && *final(cursor) == *old(cursor),
{
    let start = *cursor;
    if start >= slice.len() {
        return Err(UnwindError::Truncated);
    }
    let mut pos = start;
    while pos < slice.len() && slice[pos] != 0
        invariant
            start <= pos <= slice.len(),
            forall|k: int| start <= k < pos ==> slice@[k] != 0,
        decreases slice.len() - pos,
    {
        pos = pos + 1;
    }
    if pos >= slice.len() {
        assert forall|end: int| !first_nul(slice@, start as int, end) by {
            if first_nul(slice@, start as int, end) {
                assert(slice@[end] == 0);
            }
        }
        return Err(UnwindError::Truncated);
    }
    assert(first_nul(slice@, start as int, pos as int));
    *cursor = pos + 1;
    Ok(pos - start)
}

pub fn read_uleb(slice: &[u8], cursor: &mut usize) -> (r: Result<i64, UnwindError>)
    ensures
        r is Ok ==> *final(cursor) > *old(cursor),
        match spec_read_uleb(slice@, *old(cursor) as int) {
            Ok((v, end)) => r == Ok::<i64, UnwindError>(v) && *final(cursor) == end,
            Err(e) => r == Err::<i64, UnwindError>(e) && *final(cursor) == *old(cursor),
        },
{
    let mut pos = *cursor;
    let mut value: u64 = 0;
    let mut bit: u64 = 0;
    loop
        invariant
            *old(cursor) <= pos,
            *cursor == *old(cursor),
            bit <= 63,
            uleb_acc(slice@, *old(cursor) as int, 0, 0) == uleb_acc(slice@, pos as int, bit, value),
        decreases 70 - bit,
    {
        if pos >= slice.len() {
            return Err(UnwindError::Truncated);
        }
        let byte = slice[pos];
        pos = pos + 1;
        value = value | (((byte & 127) as u64) << bit);
        if (byte & 128) == 0 {
            *cursor = pos;
            return Ok(value as i64);
        }
        if bit + 7 > 63 {
            proof {
                assert(uleb_acc(slice@, pos as int, (bit + 7) as u64, value) is Err);
            }
            if pos >= slice.len() {
                return Err(UnwindError::Truncated);
            }
            return Err(UnwindError::LebTooLong);
        }
        bit = bit + 7;
    }
}

pub fn read_sleb(slice: &[u8], cursor: &mut usize) -> (r: Result<i64, UnwindError>)
    ensures
        r is Ok ==> *final(cursor) > *old(cursor),
        match spec_read_sleb(slice@, *old(cursor) as int) {
            Ok((v, end)) => r == Ok::<i64, UnwindError>(v) && *final(cursor) == end,
            Err(e) => r == Err::<i64, UnwindError>(e) && *final(cursor) == *old(cursor),
        },
{
    let mut pos = *cursor;
    let mut value: u64 = 0;
    let mut bit: u64 = 0;
    loop
        invariant
            *old(cursor) <= pos,
            *cursor == *old(cursor),
            bit <= 63,
            sleb_acc(slice@, *old(cursor) as int, 0, 0) == sleb_acc(slice@, pos as int, bit, value),
        decreases 70 - bit,
    {
        if pos >= slice.len() {
            return Err(UnwindError::Truncated);
        }
        let byte = slice[pos];
        let ghost old_pos = pos;
        let ghost old_value = value;
        pos = pos + 1;
        value = value | (((byte & 127) as u64) << bit);
        let next = bit + 7;
        if (byte & 128) == 0 {
            if next < 64 && (byte & 64) != 0 {
                value = value | (u64::MAX << next);
            }
            assert(sleb_acc(slice@, old_pos as int, bit, old_value) == Ok::<(u64, int), UnwindError>((value, pos as int)));
            *cursor = pos;
            return Ok(value as i64);
        }
        if next > 63 {
            proof {
                assert(sleb_acc(slice@, pos as int, next, value) is Err);
            }
            if pos >= slice.len() {
                return Err(UnwindError::Truncated);
            }
            return Err(UnwindError::LebTooLong);
        }
        bit = next;
    }
}


fn read_u64(slice: &[u8], cursor: &mut usize) -> (r: Result<u64, UnwindError>)
    ensures
        0 <= *old(cursor) && *old(cursor) + 8 <= slice@.len() ==> r == Ok::<u64, UnwindError>(
            le64_at(slice@, *old(cursor) as int),
        ) && *final(cursor) == *old(cursor) + 8,
        !(*old(cursor) + 8 <= slice@.len()) ==> r == Err::<u64, UnwindError>(UnwindError::Truncated)
            && *final(cursor) == *old(cursor),
{
    if slice.len() < 8 || *cursor > slice.len() - 8 {
        return Err(UnwindError::Truncated);
    }
    let start = *cursor;
    *cursor = start + 8;
    Ok(u64_from_le_bytes(&slice[start..start + 8]))
}

/// The application part of a pointer encoding only adjusts the raw value:
/// read with the format alone (an absolute pointer), the same bytes give
/// the raw value and the same end; a pc-relative encoding adds the base and
/// the value's own position, a data-relative one adds the base, any other
/// leaves the raw value (all wrapping).
pub proof fn lemma_read_value_application(enc: u8, data: i64, s: Seq<u8>, pos: int)
    ensures
        ({
            let raw = spec_read_value(enc & DW_EH_PE_FORMAT_MASK, data, s, pos);
            let full = spec_read_value(enc, data, s, pos);
            let appl = enc & DW_EH_PE_APPL_MASK;
            &&& (raw is Ok) == (full is Ok)
            &&& raw is Err ==> full == raw
            &&& raw is Ok ==> full->Ok_0.1 == raw->Ok_0.1
            &&& raw is Ok && appl == DW_EH_PE_PCREL ==> full->Ok_0.0 == raw->Ok_0.0.wrapping_add(data).wrapping_add(pos as i64)
            &&& raw is Ok && appl == DW_EH_PE_DATAREL ==> full->Ok_0.0 == raw->Ok_0.0.wrapping_add(data)
            &&& raw is Ok && appl != DW_EH_PE_PCREL && appl != DW_EH_PE_DATAREL ==> full->Ok_0.0 == raw->Ok_0.0
        }),
{
    let f = enc & DW_EH_PE_FORMAT_MASK;
    assert(f & DW_EH_PE_FORMAT_MASK == f && f & DW_EH_PE_APPL_MASK == 0u8) by (bit_vector)
        requires
            f == enc & DW_EH_PE_FORMAT_MASK,
    ;
}

/// Reads a value in pointer encoding `enc`; `data` is the base for pc- and
/// data-relative encodings.
pub fn read_value(enc: u8, data: i64, slice: &[u8], cursor: &mut usize) -> (r: Result<i64, UnwindError>)
    ensures
        r is Ok ==> *final(cursor) >= *old(cursor),
        match spec_read_value(enc, data, slice@, *old(cursor) as int) {
            Ok((v, end)) => r == Ok::<i64, UnwindError>(v) && *final(cursor) == end,
            Err(e) => r == Err::<i64, UnwindError>(e) && *final(cursor) == *old(cursor),
        },
{
    let start = *cursor;
    let fmt = enc & DW_EH_PE_FORMAT_MASK;
    let value: i64;
    if fmt == DW_EH_PE_ULEB128 {
        value = read_uleb(slice, cursor)?;
    } else if fmt == DW_EH_PE_UDATA2 {
        value = read_u16(slice, cursor)? as i64;
    } else if fmt == DW_EH_PE_UDATA4 {
        value = read_u32(slice, cursor)? as i64;
    } else if fmt == DW_EH_PE_UDATA8 {
        value = read_u64(slice, cursor)? as i64;
    } else if fmt == DW_EH_PE_SLEB128 {
        value = read_sleb(slice, cursor)?;
    } else if fmt == DW_EH_PE_SDATA2 {
        value = read_u16(slice, cursor)? as i16 as i64;
    } else if fmt == DW_EH_PE_SDATA4 {
        value = read_u32(slice, cursor)? as i32 as i64;
    } else if fmt == DW_EH_PE_SDATA8 {
        value = read_u64(slice, cursor)? as i64;
    } else {
        value = 0;
    }
    let appl = enc & DW_EH_PE_APPL_MASK;
    if appl == DW_EH_PE_PCREL {
        Ok(value.wrapping_add(data).wrapping_add(start as i64))
    } else if appl == DW_EH_PE_DATAREL {
        Ok(value.wrapping_add(data))
    } else {
        Ok(value)
    }
}


pub const VALUE_TYPE_OFFSET: u8 = 0;
pub const VALUE_TYPE_REG: u8 = 1;
pub const VALUE_TYPE_UNDEFINED: u8 = 2;
pub const VALUE_TYPE_EXPRESSION: u8 = 3;
pub const VALUE_TYPE_RESTORE: u8 = 4;

/* Instructions */
pub const DW_CFA_EXTENDED: u8 = 0x00;
pub const DW_CFA_ADVANCE_LOC: u8 = 0x40;
pub const DW_CFA_OFFSET: u8 = 0x80;
pub const DW_CFA_RESTORE: u8 = 0xC0;

pub const DW_CFA_NOP: u8 = 0x00;
pub const DW_CFA_SET_LOC: u8 = 0x01;
pub const DW_CFA_ADVANCE_LOC1: u8 = 0x02;
pub const DW_CFA_ADVANCE_LOC2: u8 = 0x03;
pub const DW_CFA_ADVANCE_LOC4: u8 = 0x04;
pub const DW_CFA_OFFSET_EXTENDED: u8 = 0x05;
pub const DW_CFA_RESTORE_EXTENDED: u8 = 0x06;
pub const DW_CFA_UNDEFINED: u8 = 0x07;
pub const DW_CFA_SAME_VALUE: u8 = 0x08;
pub const DW_CFA_REGISTER: u8 = 0x09;
pub const DW_CFA_REMEMBER_STATE: u8 = 0x0a;
pub const DW_CFA_RESTORE_STATE: u8 = 0x0b;
pub const DW_CFA_DEF_CFA: u8 = 0x0c;
pub const DW_CFA_DEF_CFA_REGISTER: u8 = 0x0d;
pub const DW_CFA_DEF_CFA_OFFSET: u8 = 0x0e;
pub const DW_CFA_DEF_CFA_EXPRESSION: u8 = 0x0f;
pub const DW_CFA_EXPRESSION: u8 = 0x10;
pub const DW_CFA_OFFSET_EXTENDED_SF: u8 = 0x11;
pub const DW_CFA_DEF_CFA_SF: u8 = 0x12;
pub const DW_CFA_DEF_CFA_OFFSET_SF: u8 = 0x13;
pub const DW_CFA_VAL_OFFSET: u8 = 0x14;
pub const DW_CFA_VAL_OFFSET_SF: u8 = 0x15;
pub const DW_CFA_VAL_EXPRESSION: u8 = 0x16;
pub const DW_CFA_GNU_ARGS_SIZE: u8 = 0x2e;

/// The rule for one register at some point of a frame.
#[derive(Clone, Copy, PartialEq, Eq, Structural)]
pub struct RegState {
    pub reg: u8,
    pub val_type: u8,
    pub val: i16,
}

/// A remembered CFA rule.
#[derive(Clone, Copy, PartialEq, Eq, Structural)]
pub struct CFAState {
    pub cfa_reg: u8,
    pub cfa_off: i16,
}

/// The rules in force from `rva` on: how to compute the CFA and where the
/// saved registers are.
pub struct FrameState {
    pub rva: u64,
    pub cfa_reg: u8,
    pub cfa_off: i16,
    pub reg_states: Vec<RegState>,
}

/// Mathematical form of a `FrameState`.
pub struct FrameRow {
    pub rva: u64,
    pub cfa_reg: u8,
    pub cfa_off: i16,
    pub regs: Seq<RegState>,
}

impl View for FrameState {
    type V = FrameRow;

    open spec fn view(&self) -> FrameRow {
        FrameRow { rva: self.rva, cfa_reg: self.cfa_reg, cfa_off: self.cfa_off, regs: self.reg_states@ }
    }
}

pub open spec fn in_i16(v: int) -> bool {
    i16::MIN <= v <= i16::MAX
}

impl FrameState {
    pub fn new(rva: u64, cfa_reg: u8, cfa_off: i16) -> (f: Self)
        ensures
            f@ == (FrameRow { rva, cfa_reg, cfa_off, regs: Seq::empty() }),
    {
        FrameState { rva, cfa_reg, cfa_off, reg_states: Vec::new() }
    }

    pub fn set_cfa_reg(&mut self, reg: i64) -> (r: Result<(), UnwindError>)
        ensures
            reg > 255 ==> r == Err::<(), UnwindError>(UnwindError::RegOutOfRange) && final(self)@ == old(self)@,
            reg <= 255 ==> r is Ok && final(self)@ == (FrameRow { cfa_reg: reg as u8, ..old(self)@ }),
    {
        if reg > 255 {
            return Err(UnwindError::RegOutOfRange);
        }
        self.cfa_reg = reg as u8;
        Ok(())
    }

    pub fn set_cfa_offset(&mut self, off: i64) -> (r: Result<(), UnwindError>)
        ensures
            !in_i16(off as int) ==> r == Err::<(), UnwindError>(UnwindError::OffsetOutOfRange) && final(self)@ == old(self)@,
            in_i16(off as int) ==> r is Ok && final(self)@ == (FrameRow { cfa_off: off as i16, ..old(self)@ }),
    {
        if off > 32767 || off < -32768 {
            return Err(UnwindError::OffsetOutOfRange);
        }
        self.cfa_off = off as i16;
        Ok(())
    }

    pub fn add_reg_value(&mut self, reg: i64, val: i64, val_type: u8) -> (r: Result<(), UnwindError>)
        ensures
            (reg > 255 || !in_i16(val as int)) ==> r == Err::<(), UnwindError>(UnwindError::RegValueOutOfRange)
                && final(self)@ == old(self)@,
            !(reg > 255 || !in_i16(val as int)) ==> r is Ok && final(self)@ == (FrameRow {
                regs: old(self)@.regs.push(RegState { reg: reg as u8, val_type, val: val as i16 }),
                ..old(self)@
            }),
    {
        if reg > 255 || val > 32767 || val < -32768 {
            return Err(UnwindError::RegValueOutOfRange);
        }
        self.reg_states.push(RegState { reg: reg as u8, val_type, val: val as i16 });
        Ok(())
    }
}

/// Options that a CIE sets for the rules that follow it.
pub struct FrameOptions {
    pub enc: u8,
    pub code_align: i16,
    pub data_align: i16,
    pub has_aug_data: bool,
    pub cfa_stack: Vec<CFAState>,
}

impl FrameOptions {
    pub fn new() -> (o: Self)
        ensures
            o.enc == DW_EH_PE_UDATA8,
            o.code_align == 0,
            o.data_align == 0,
            !o.has_aug_data,
            o.cfa_stack@ == Seq::<CFAState>::empty(),
    {
        assert(DW_EH_PE_UDATA8 | DW_EH_PE_ABSPTR == DW_EH_PE_UDATA8) by (bit_vector);
        FrameOptions {
            enc: DW_EH_PE_UDATA8 | DW_EH_PE_ABSPTR,
            code_align: 0,
            data_align: 0,
            has_aug_data: false,
            cfa_stack: Vec::new(),
        }
    }
}

/// One decoded call-frame instruction.
pub enum CfaOp {
    /// No effect (nop, same-value, GNU args size).
    Nop,
    /// Set the location to an absolute address.
    SetLoc(i64),
    /// Advance the location by a scaled delta.
    AdvanceBy(i64),
    /// Record a rule (register, value, value type) for a register.
    RegRule(i64, i64, u8),
    RememberState,
    RestoreState,
    DefCfa(i64, i64),
    DefCfaRegister(i64),
    DefCfaOffset(i64),
}

/// State threaded through the call-frame instructions.
pub struct RuleState {
    pub pc: i64,
    pub row: FrameRow,
    pub stack: Seq<CFAState>,
    pub cursor: int,
}

/// Position after skipping `size` bytes of an expression block.
pub open spec fn spec_skip(pos: int, size: i64) -> Result<((), int), UnwindError> {
    if pos + (size as usize) <= usize::MAX {
        Ok(((), pos + (size as usize)))
    } else {
        Err(UnwindError::Truncated)
    }
}

/// Decodes the extended instruction `e` whose operands start at `p`.
pub open spec fn spec_decode_extended(
    s: Seq<u8>,
    p: int,
    e: u8,
    enc: u8,
    pc: i64,
    code_align: i16,
    data_align: i16,
) -> Result<(CfaOp, int), UnwindError> {
    let da = data_align as i64;
    let ca = code_align as i64;
    if e == DW_CFA_NOP {
        Ok((CfaOp::Nop, p))
    } else if e == DW_CFA_SET_LOC {
        match spec_read_value(enc, pc, s, p) {
            Ok((a, q)) => Ok((CfaOp::SetLoc(a), q)),
            Err(x) => Err(x),
        }
    } else if e == DW_CFA_ADVANCE_LOC1 {
        match spec_read_byte(s, p) {
            Ok((d, q)) => Ok((CfaOp::AdvanceBy((d as i64 * ca) as i64), q)),
            Err(x) => Err(x),
        }
    } else if e == DW_CFA_ADVANCE_LOC2 {
        match spec_read_u16(s, p) {
            Ok((d, q)) => Ok((CfaOp::AdvanceBy((d as i64 * ca) as i64), q)),
            Err(x) => Err(x),
        }
    } else if e == DW_CFA_ADVANCE_LOC4 {
        match spec_read_u32(s, p) {
            Ok((d, q)) => Ok((CfaOp::AdvanceBy((d as i64 * ca) as i64), q)),
            Err(x) => Err(x),
        }
    } else if e == DW_CFA_OFFSET_EXTENDED || e == DW_CFA_VAL_OFFSET {
        match spec_read_uleb(s, p) {
            Ok((reg, q)) => match spec_read_uleb(s, q) {
                Ok((off, q2)) => Ok((CfaOp::RegRule(reg, off.wrapping_mul(da), VALUE_TYPE_OFFSET), q2)),
                Err(x) => Err(x),
            },
            Err(x) => Err(x),
        }
    } else if e == DW_CFA_OFFSET_EXTENDED_SF || e == DW_CFA_VAL_OFFSET_SF {
        match spec_read_uleb(s, p) {
            Ok((reg, q)) => match spec_read_sleb(s, q) {
                Ok((off, q2)) => Ok((CfaOp::RegRule(reg, off.wrapping_mul(da), VALUE_TYPE_OFFSET), q2)),
                Err(x) => Err(x),
            },
            Err(x) => Err(x),
        }
    } else if e == DW_CFA_RESTORE_EXTENDED {
        match spec_read_uleb(s, p) {
            Ok((reg, q)) => Ok((CfaOp::RegRule(reg, 0, VALUE_TYPE_RESTORE), q)),
            Err(x) => Err(x),
        }
    } else if e == DW_CFA_UNDEFINED {
        match spec_read_uleb(s, p) {
            Ok((reg, q)) => Ok((CfaOp::RegRule(reg, 0, VALUE_TYPE_UNDEFINED), q)),
            Err(x) => Err(x),
        }
    } else if e == DW_CFA_SAME_VALUE || e == DW_CFA_GNU_ARGS_SIZE {
        match spec_read_uleb(s, p) {
            Ok((_v, q)) => Ok((CfaOp::Nop, q)),
            Err(x) => Err(x),
        }
    } else if e == DW_CFA_REGISTER {
        match spec_read_uleb(s, p) {
            Ok((src, q)) => match spec_read_uleb(s, q) {
                Ok((dst, q2)) => Ok((CfaOp::RegRule(src, dst, VALUE_TYPE_REG), q2)),
                Err(x) => Err(x),
            },
            Err(x) => Err(x),
        }
    } else if e == DW_CFA_REMEMBER_STATE {
        Ok((CfaOp::RememberState, p))
    } else if e == DW_CFA_RESTORE_STATE {
        Ok((CfaOp::RestoreState, p))
    } else if e == DW_CFA_DEF_CFA {
        match spec_read_uleb(s, p) {
            Ok((reg, q)) => match spec_read_uleb(s, q) {
                Ok((off, q2)) => Ok((CfaOp::DefCfa(reg, off), q2)),
                Err(x) => Err(x),
            },
            Err(x) => Err(x),
        }
    } else if e == DW_CFA_DEF_CFA_REGISTER {
        match spec_read_uleb(s, p) {
            Ok((reg, q)) => Ok((CfaOp::DefCfaRegister(reg), q)),
            Err(x) => Err(x),
        }
    } else if e == DW_CFA_DEF_CFA_OFFSET {
        match spec_read_uleb(s, p) {
            Ok((off, q)) => Ok((CfaOp::DefCfaOffset(off), q)),
            Err(x) => Err(x),
        }
    } else if e == DW_CFA_DEF_CFA_EXPRESSION {
        match spec_read_uleb(s, p) {
            Ok((_size, _q)) => Err(UnwindError::CfaExpressionNotSupported),
            Err(x) => Err(x),
        }
    } else if e == DW_CFA_EXPRESSION || e == DW_CFA_VAL_EXPRESSION {
        match spec_read_uleb(s, p) {
            Ok((reg, q)) => match spec_read_uleb(s, q) {
                Ok((size, q2)) => match spec_skip(q2, size) {
                    Ok((_u, q3)) => Ok((CfaOp::RegRule(reg, 0, VALUE_TYPE_EXPRESSION), q3)),
                    Err(x) => Err(x),
                },
                Err(x) => Err(x),
            },
            Err(x) => Err(x),
        }
    } else if e == DW_CFA_DEF_CFA_SF {
        match spec_read_uleb(s, p) {
            Ok((reg, q)) => match spec_read_sleb(s, q) {
                Ok((off, q2)) => Ok((CfaOp::DefCfa(reg, off.wrapping_mul(da)), q2)),
                Err(x) => Err(x),
            },
            Err(x) => Err(x),
        }
    } else if e == DW_CFA_DEF_CFA_OFFSET_SF {
        match spec_read_sleb(s, p) {
            Ok((off, q)) => Ok((CfaOp::DefCfaOffset(off.wrapping_mul(da)), q)),
            Err(x) => Err(x),
        }
    } else {
        Err(UnwindError::UnknownExtendedOpcode)
    }
}

/// Decodes the call-frame instruction at `pos`: the top two bits of the
/// opcode select advance/offset/restore with the low six bits as operand,
/// or an extended instruction.
pub open spec fn spec_decode_op(
    s: Seq<u8>,
    pos: int,
    enc: u8,
    pc: i64,
    code_align: i16,
    data_align: i16,
) -> Result<(CfaOp, int), UnwindError> {
    match spec_read_byte(s, pos) {
        Err(x) => Err(x),
        Ok((ins, p)) => {
            let hi = ins & 0xC0u8;
            let e = ins & 0x3Fu8;
            if hi == DW_CFA_ADVANCE_LOC {
                Ok((CfaOp::AdvanceBy((e as i64 * code_align as i64) as i64), p))
            } else if hi == DW_CFA_OFFSET {
                match spec_read_uleb(s, p) {
                    Ok((off, q)) => Ok((CfaOp::RegRule(e as i64, off.wrapping_mul(data_align as i64), VALUE_TYPE_OFFSET), q)),
                    Err(x) => Err(x),
                }
            } else if hi == DW_CFA_RESTORE {
                Ok((CfaOp::RegRule(e as i64, 0, VALUE_TYPE_RESTORE), p))
            } else {
                spec_decode_extended(s, p, e, enc, pc, code_align, data_align)
            }
        },
    }
}

/// The effect of one instruction; `Ok((true, _))` when it moved the location.
pub open spec fn spec_apply_op(op: CfaOp, st: RuleState) -> Result<(bool, RuleState), UnwindError> {
    match op {
        CfaOp::Nop => Ok((false, st)),
        CfaOp::SetLoc(a) => Ok((true, RuleState { pc: if a > st.pc { a } else { st.pc }, ..st })),
        CfaOp::AdvanceBy(d) => {
            let np = st.pc.wrapping_add(d);
            Ok((true, RuleState { pc: if np > st.pc { np } else { st.pc }, ..st }))
        },
        CfaOp::RegRule(reg, val, t) => {
            if reg > 255 || !in_i16(val as int) {
                Err(UnwindError::RegValueOutOfRange)
            } else {
                Ok((false, RuleState {
                    row: FrameRow {
                        regs: st.row.regs.push(RegState { reg: reg as u8, val_type: t, val: val as i16 }),
                        ..st.row
                    },
                    ..st
                }))
            }
        },
        CfaOp::RememberState => Ok((false, RuleState {
            stack: st.stack.push(CFAState { cfa_reg: st.row.cfa_reg, cfa_off: st.row.cfa_off }),
            ..st
        })),
        CfaOp::RestoreState => {
            if st.stack.len() == 0 {
                Err(UnwindError::UnbalancedStateRestore)
            } else {
                let top = st.stack.last();
                Ok((false, RuleState {
                    row: FrameRow { cfa_reg: top.cfa_reg, cfa_off: top.cfa_off, ..st.row },
                    stack: st.stack.drop_last(),
                    ..st
                }))
            }
        },
        CfaOp::DefCfa(reg, off) => {
            if reg > 255 {
                Err(UnwindError::RegOutOfRange)
            } else if !in_i16(off as int) {
                Err(UnwindError::OffsetOutOfRange)
            } else {
                Ok((false, RuleState { row: FrameRow { cfa_reg: reg as u8, cfa_off: off as i16, ..st.row }, ..st }))
            }
        },
        CfaOp::DefCfaRegister(reg) => {
            if reg > 255 {
                Err(UnwindError::RegOutOfRange)
            } else {
                Ok((false, RuleState { row: FrameRow { cfa_reg: reg as u8, ..st.row }, ..st }))
            }
        },
        CfaOp::DefCfaOffset(off) => {
            if !in_i16(off as int) {
                Err(UnwindError::OffsetOutOfRange)
            } else {
                Ok((false, RuleState { row: FrameRow { cfa_off: off as i16, ..st.row }, ..st }))
            }
        },
    }
}

/// One call-frame instruction at `st.cursor`: decode it, then apply it.
pub open spec fn spec_read_rule(
    s: Seq<u8>,
    enc: u8,
    code_align: i16,
    data_align: i16,
    st: RuleState,
) -> Result<(bool, RuleState), UnwindError> {
    match spec_decode_op(s, st.cursor, enc, st.pc, code_align, data_align) {
        Err(x) => Err(x),
        Ok((op, next)) => spec_apply_op(op, RuleState { cursor: next, ..st }),
    }
}


proof fn lemma_uleb_advances(s: Seq<u8>, pos: int, shift: u64, acc: u64)
    ensures
        uleb_acc(s, pos, shift, acc) matches Ok((_v, end)) ==> end > pos,
    decreases 70 - shift,
{
    if 0 <= pos < s.len() && shift <= 63 {
        let b = s[pos];
        let acc2 = acc | (((b & 127u8) as u64) << shift);
        if b & 128u8 != 0 {
            lemma_uleb_advances(s, pos + 1, (shift + 7) as u64, acc2);
        }
    }
}

proof fn lemma_sleb_advances(s: Seq<u8>, pos: int, shift: u64, acc: u64)
    ensures
        sleb_acc(s, pos, shift, acc) matches Ok((_v, end)) ==> end > pos,
    decreases 70 - shift,
{
    if 0 <= pos < s.len() && shift <= 63 {
        let b = s[pos];
        let acc2 = acc | (((b & 127u8) as u64) << shift);
        if b & 128u8 != 0 {
            lemma_sleb_advances(s, pos + 1, (shift + 7) as u64, acc2);
        }
    }
}

proof fn lemma_value_advances(enc: u8, data: i64, s: Seq<u8>, pos: int)
    ensures
        spec_read_uleb(s, pos) matches Ok((_v, end)) ==> end > pos,
        spec_read_sleb(s, pos) matches Ok((_v, end)) ==> end > pos,
        spec_read_value(enc, data, s, pos) matches Ok((_v, end)) ==> end >= pos,
{
    lemma_uleb_advances(s, pos, 0, 0);
    lemma_sleb_advances(s, pos, 0, 0);
}

/// Whether `op` moves the location.
pub open spec fn op_advances(op: CfaOp) -> bool {
    op is SetLoc || op is AdvanceBy
}

proof fn lemma_decode_extended_advances(
    s: Seq<u8>,
    p: int,
    e: u8,
    enc: u8,
    pc: i64,
    code_align: i16,
    data_align: i16,
)
    ensures
        spec_decode_extended(s, p, e, enc, pc, code_align, data_align) matches Ok((op, q)) ==> q >= p && (op_advances(op)
            <==> (1 <= e <= 4)),
{
    lemma_value_advances(enc, pc, s, p);
    if let Ok((_a, q)) = spec_read_uleb(s, p) {
        lemma_value_advances(enc, pc, s, q);
        if let Ok((_b, q2)) = spec_read_uleb(s, q) {
            lemma_value_advances(enc, pc, s, q2);
        }
    }
}

proof fn lemma_decode_op_advances(s: Seq<u8>, pos: int, enc: u8, pc: i64, code_align: i16, data_align: i16)
    ensures
        spec_decode_op(s, pos, enc, pc, code_align, data_align) matches Ok((op, q)) ==> q > pos && (op_advances(op) <==> (
        (s[pos] & 0xC0u8) == 0x40u8 || ((s[pos] & 0xC0u8) == 0u8 && 1 <= (s[pos] & 0x3Fu8) <= 4))),
{
    if 0 <= pos < s.len() {
        let ins = s[pos];
        lemma_value_advances(enc, pc, s, pos + 1);
        lemma_decode_extended_advances(s, pos + 1, ins & 0x3Fu8, enc, pc, code_align, data_align);
        assert((ins & 0xC0u8) == 0x40u8 || (ins & 0xC0u8) == 0x80u8 || (ins & 0xC0u8) == 0xC0u8 || (ins & 0xC0u8) == 0u8)
            by (bit_vector);
    }
}

proof fn lemma_low_opcode(ins: u8)
    requires
        ins < 0x40,
    ensures
        ins & 0xC0u8 == 0u8,
        ins & 0x3Fu8 == ins,
{
    assert(ins < 0x40 ==> ins & 0xC0u8 == 0u8 && ins & 0x3Fu8 == ins) by (bit_vector);
}

/// The instructions that define the CFA rule: `DW_CFA_def_cfa` (0x0c)
/// sets the CFA register and offset, `DW_CFA_def_cfa_register` (0x0d) only
/// the register and `DW_CFA_def_cfa_offset` (0x0e) only the offset, and
/// their signed forms (0x12, 0x13) scale the offset by the data alignment.
/// None of them moves the location or touches the register rules or the
/// remembered states; the cursor moves past the operands. A register
/// number above 255 is refused.
pub proof fn lemma_def_cfa_instructions(s: Seq<u8>, enc: u8, ca: i16, da: i16, st: RuleState)
    requires
        0 <= st.cursor < s.len(),
    ensures
        ({
            let (r, q) = spec_read_uleb(s, st.cursor + 1)->Ok_0;
            let (o, q2) = spec_read_uleb(s, q)->Ok_0;
            s[st.cursor] == 0x0cu8 && spec_read_uleb(s, st.cursor + 1) is Ok && 0 <= r <= 255 && spec_read_uleb(s, q) is Ok
                && in_i16(o as int) ==> spec_read_rule(s, enc, ca, da, st) == Ok::<(bool, RuleState), UnwindError>(
                (false, RuleState { row: FrameRow { cfa_reg: r as u8, cfa_off: o as i16, ..st.row }, cursor: q2, ..st }),
            )
        }),
        ({
            let (r, q) = spec_read_uleb(s, st.cursor + 1)->Ok_0;
            s[st.cursor] == 0x0du8 && spec_read_uleb(s, st.cursor + 1) is Ok && 0 <= r <= 255 ==> spec_read_rule(
                s,
                enc,
                ca,
                da,
                st,
            ) == Ok::<(bool, RuleState), UnwindError>(
                (false, RuleState { row: FrameRow { cfa_reg: r as u8, ..st.row }, cursor: q, ..st }),
            )
        }),
        ({
            let (o, q) = spec_read_uleb(s, st.cursor + 1)->Ok_0;
            s[st.cursor] == 0x0eu8 && spec_read_uleb(s, st.cursor + 1) is Ok && in_i16(o as int) ==> spec_read_rule(
                s,
                enc,
                ca,
                da,
                st,
            ) == Ok::<(bool, RuleState), UnwindError>(
                (false, RuleState { row: FrameRow { cfa_off: o as i16, ..st.row }, cursor: q, ..st }),
            )
        }),
        ({
            let (r, q) = spec_read_uleb(s, st.cursor + 1)->Ok_0;
            let (o, q2) = spec_read_sleb(s, q)->Ok_0;
            s[st.cursor] == 0x12u8 && spec_read_uleb(s, st.cursor + 1) is Ok && 0 <= r <= 255 && spec_read_sleb(s, q) is Ok
                && in_i16(o * da) ==> spec_read_rule(s, enc, ca, da, st) == Ok::<(bool, RuleState), UnwindError>(
                (false, RuleState {
                    row: FrameRow { cfa_reg: r as u8, cfa_off: (o * da) as i16, ..st.row },
                    cursor: q2,
                    ..st
                }),
            )
        }),
        ({
            let (o, q) = spec_read_sleb(s, st.cursor + 1)->Ok_0;
            s[st.cursor] == 0x13u8 && spec_read_sleb(s, st.cursor + 1) is Ok && in_i16(o * da) ==> spec_read_rule(
                s,
                enc,
                ca,
                da,
                st,
            ) == Ok::<(bool, RuleState), UnwindError>(
                (false, RuleState { row: FrameRow { cfa_off: (o * da) as i16, ..st.row }, cursor: q, ..st }),
            )
        }),
        ({
            let (r, q) = spec_read_uleb(s, st.cursor + 1)->Ok_0;
            (s[st.cursor] == 0x0cu8 || s[st.cursor] == 0x0du8) && spec_read_uleb(s, st.cursor + 1) is Ok && r > 255 && (
            s[st.cursor] == 0x0du8 || spec_read_uleb(s, q) is Ok) ==> spec_read_rule(s, enc, ca, da, st) == Err::<
                (bool, RuleState),
                UnwindError,
            >(UnwindError::RegOutOfRange)
        }),
{
    if s[st.cursor] < 0x40 {
        lemma_low_opcode(s[st.cursor]);
    }
}

/// The instructions that give a register a rule append that rule to the
/// current row and change nothing else: `DW_CFA_offset` (top bits 0x80,
/// register in the low six bits) and `DW_CFA_offset_extended` (0x05) save
/// the register at the CFA plus its offset times the data alignment,
/// `DW_CFA_restore` (top bits 0xC0) restores it, `DW_CFA_undefined` (0x07)
/// marks it unrecoverable.
pub proof fn lemma_register_rule_instructions(s: Seq<u8>, enc: u8, ca: i16, da: i16, st: RuleState)
    requires
        0 <= st.cursor < s.len(),
    ensures
        ({
            let ins = s[st.cursor];
            let (o, q) = spec_read_uleb(s, st.cursor + 1)->Ok_0;
            (ins & 0xC0u8) == 0x80u8 && spec_read_uleb(s, st.cursor + 1) is Ok && in_i16(o * da) ==> spec_read_rule(
                s,
                enc,
                ca,
                da,
                st,
            ) == Ok::<(bool, RuleState), UnwindError>(
                (false, RuleState {
                    row: FrameRow {
                        regs: st.row.regs.push(
                            RegState { reg: ins & 0x3Fu8, val_type: VALUE_TYPE_OFFSET, val: (o * da) as i16 },
                        ),
                        ..st.row
                    },
                    cursor: q,
                    ..st
                }),
            )
        }),
        ({
            let ins = s[st.cursor];
            (ins & 0xC0u8) == 0xC0u8 ==> spec_read_rule(s, enc, ca, da, st) == Ok::<(bool, RuleState), UnwindError>(
                (false, RuleState {
                    row: FrameRow {
                        regs: st.row.regs.push(RegState { reg: ins & 0x3Fu8, val_type: VALUE_TYPE_RESTORE, val: 0 }),
                        ..st.row
                    },
                    cursor: st.cursor + 1,
                    ..st
                }),
            )
        }),
        ({
            let (r, q) = spec_read_uleb(s, st.cursor + 1)->Ok_0;
            let (o, q2) = spec_read_uleb(s, q)->Ok_0;
            s[st.cursor] == 0x05u8 && spec_read_uleb(s, st.cursor + 1) is Ok && 0 <= r <= 255 && spec_read_uleb(s, q) is Ok
                && in_i16(o * da) ==> spec_read_rule(s, enc, ca, da, st) == Ok::<(bool, RuleState), UnwindError>(
                (false, RuleState {
                    row: FrameRow {
                        regs: st.row.regs.push(
                            RegState { reg: r as u8, val_type: VALUE_TYPE_OFFSET, val: (o * da) as i16 },
                        ),
                        ..st.row
                    },
                    cursor: q2,
                    ..st
                }),
            )
        }),
        ({
            let (r, q) = spec_read_uleb(s, st.cursor + 1)->Ok_0;
            s[st.cursor] == 0x07u8 && spec_read_uleb(s, st.cursor + 1) is Ok && 0 <= r <= 255 ==> spec_read_rule(
                s,
                enc,
                ca,
                da,
                st,
            ) == Ok::<(bool, RuleState), UnwindError>(
                (false, RuleState {
                    row: FrameRow {
                        regs: st.row.regs.push(RegState { reg: r as u8, val_type: VALUE_TYPE_UNDEFINED, val: 0 }),
                        ..st.row
                    },
                    cursor: q,
                    ..st
                }),
            )
        }),
{
    let ins = s[st.cursor];
    if ins < 0x40 {
        lemma_low_opcode(ins);
    }
}

/// `DW_CFA_nop` (0x00) changes nothing but the cursor;
/// `DW_CFA_remember_state` (0x0a) pushes the current CFA rule and changes
/// nothing else; `DW_CFA_advance_loc` (top bits 0x40) moves the location
/// forward by its low six bits times the code alignment (it never moves
/// back) and reports the move.
pub proof fn lemma_location_and_state_instructions(s: Seq<u8>, enc: u8, ca: i16, da: i16, st: RuleState)
    requires
        0 <= st.cursor < s.len(),
    ensures
        s[st.cursor] == 0x00u8 ==> spec_read_rule(s, enc, ca, da, st) == Ok::<(bool, RuleState), UnwindError>(
            (false, RuleState { cursor: st.cursor + 1, ..st }),
        ),
        s[st.cursor] == 0x0au8 ==> spec_read_rule(s, enc, ca, da, st) == Ok::<(bool, RuleState), UnwindError>(
            (false, RuleState {
                stack: st.stack.push(CFAState { cfa_reg: st.row.cfa_reg, cfa_off: st.row.cfa_off }),
                cursor: st.cursor + 1,
                ..st
            }),
        ),
        ({
            let ins = s[st.cursor];
            let delta = (ins & 0x3Fu8) * ca;
            (ins & 0xC0u8) == 0x40u8 && i64::MIN <= st.pc + delta <= i64::MAX ==> spec_read_rule(s, enc, ca, da, st)
                == Ok::<(bool, RuleState), UnwindError>(
                (true, RuleState {
                    pc: if delta > 0 { (st.pc + delta) as i64 } else { st.pc },
                    cursor: st.cursor + 1,
                    ..st
                }),
            )
        }),
{
    let ins = s[st.cursor];
    if ins < 0x40 {
        lemma_low_opcode(ins);
    }
    let e = ins & 0x3Fu8;
    assert(-0x8000 * 0x40 <= e * ca <= 0x8000 * 0x40) by (nonlinear_arith)
        requires
            0 <= e <= 0xff,
            e == ins & 0x3Fu8,
            -0x8000 <= ca <= 0x7fff,
    {
        assert(e <= 0x3f) by (bit_vector)
            requires
                e == ins & 0x3Fu8,
        ;
    }
    assert((e as i64 * ca as i64) == e * ca);
}

/// One call-frame instruction only moves forward: when it succeeds, the
/// cursor moves past it and the location never falls; the instruction
/// reports a move of the location exactly when it is an advance (the
/// advance-by-delta opcodes) or a set-location, and otherwise the location
/// stays.
pub proof fn lemma_read_rule_progress(s: Seq<u8>, enc: u8, code_align: i16, data_align: i16, st: RuleState)
    requires
        spec_read_rule(s, enc, code_align, data_align, st) is Ok,
    ensures
        ({
            let (adv, st2) = spec_read_rule(s, enc, code_align, data_align, st)->Ok_0;
            let ins = s[st.cursor];
            &&& st2.cursor > st.cursor
            &&& st2.pc >= st.pc
            &&& adv <==> ((ins & 0xC0u8) == 0x40u8 || ((ins & 0xC0u8) == 0u8 && 1 <= (ins & 0x3Fu8) <= 4))
            &&& !adv ==> st2.pc == st.pc
        }),
{
    lemma_decode_op_advances(s, st.cursor, enc, st.pc, code_align, data_align);
}

/// Skips `size` bytes of an expression block.
fn skip_block(cursor: &mut usize, size: i64) -> (r: Result<(), UnwindError>)
    ensures
        match spec_skip(*old(cursor) as int, size) {
            Ok((_u, end)) => r is Ok && *final(cursor) == end,
            Err(x) => r == Err::<(), UnwindError>(x),
        },
{
    let n = size as usize;
    if *cursor > usize::MAX - n {
        return Err(UnwindError::Truncated);
    }
    *cursor = *cursor + n;
    Ok(())
}

/// Decodes the extended instruction `e` whose operands start at the cursor.
#[verifier::rlimit(40)]
fn decode_extended(
    slice: &[u8],
    cursor: &mut usize,
    e: u8,
    enc: u8,
    pc: i64,
    code_align: i16,
    data_align: i16,
) -> (r: Result<CfaOp, UnwindError>)
    ensures
        match spec_decode_extended(slice@, *old(cursor) as int, e, enc, pc, code_align, data_align) {
            Ok((op, end)) => r == Ok::<CfaOp, UnwindError>(op) && *final(cursor) == end,
            Err(x) => r == Err::<CfaOp, UnwindError>(x),
        },
        r is Ok ==> *final(cursor) >= *old(cursor),
{
    let da = data_align as i64;
    let ca = code_align as i64;
    if e == DW_CFA_NOP {
        Ok(CfaOp::Nop)
    } else if e == DW_CFA_SET_LOC {
        let a = read_value(enc, pc, slice, cursor)?;
        Ok(CfaOp::SetLoc(a))
    } else if e == DW_CFA_ADVANCE_LOC1 {
        let d = read_byte(slice, cursor)?;
        assert(-0x8000_0000_0000 <= d as i64 * ca <= 0x8000_0000_0000) by (nonlinear_arith)
            requires 0 <= d <= 0xff, -0x8000 <= ca <= 0x7fff;
        Ok(CfaOp::AdvanceBy(d as i64 * ca))
    } else if e == DW_CFA_ADVANCE_LOC2 {
        let d = read_u16(slice, cursor)?;
        assert(-0x8000_0000_0000 <= d as i64 * ca <= 0x8000_0000_0000) by (nonlinear_arith)
            requires 0 <= d <= 0xffff, -0x8000 <= ca <= 0x7fff;
        Ok(CfaOp::AdvanceBy(d as i64 * ca))
    } else if e == DW_CFA_ADVANCE_LOC4 {
        let d = read_u32(slice, cursor)?;
        assert(-0x8000_0000_0000 <= d as i64 * ca <= 0x8000_0000_0000) by (nonlinear_arith)
            requires 0 <= d <= 0xffff_ffff, -0x8000 <= ca <= 0x7fff;
        Ok(CfaOp::AdvanceBy(d as i64 * ca))
    } else if e == DW_CFA_OFFSET_EXTENDED || e == DW_CFA_VAL_OFFSET {
        let reg = read_uleb(slice, cursor)?;
        let off = read_uleb(slice, cursor)?;
        Ok(CfaOp::RegRule(reg, off.wrapping_mul(da), VALUE_TYPE_OFFSET))
    } else if e == DW_CFA_OFFSET_EXTENDED_SF || e == DW_CFA_VAL_OFFSET_SF {
        let reg = read_uleb(slice, cursor)?;
        let off = read_sleb(slice, cursor)?;
        Ok(CfaOp::RegRule(reg, off.wrapping_mul(da), VALUE_TYPE_OFFSET))
    } else if e == DW_CFA_RESTORE_EXTENDED {
        let reg = read_uleb(slice, cursor)?;
        Ok(CfaOp::RegRule(reg, 0, VALUE_TYPE_RESTORE))
    } else if e == DW_CFA_UNDEFINED {
        let reg = read_uleb(slice, cursor)?;
        Ok(CfaOp::RegRule(reg, 0, VALUE_TYPE_UNDEFINED))
    } else if e == DW_CFA_SAME_VALUE || e == DW_CFA_GNU_ARGS_SIZE {
        let _v = read_uleb(slice, cursor)?;
        Ok(CfaOp::Nop)
    } else if e == DW_CFA_REGISTER {
        let src = read_uleb(slice, cursor)?;
        let dst = read_uleb(slice, cursor)?;
        Ok(CfaOp::RegRule(src, dst, VALUE_TYPE_REG))
    } else if e == DW_CFA_REMEMBER_STATE {
        Ok(CfaOp::RememberState)
    } else if e == DW_CFA_RESTORE_STATE {
        Ok(CfaOp::RestoreState)
    } else if e == DW_CFA_DEF_CFA {
        let reg = read_uleb(slice, cursor)?;
        let off = read_uleb(slice, cursor)?;
        Ok(CfaOp::DefCfa(reg, off))
    } else if e == DW_CFA_DEF_CFA_REGISTER {
        let reg = read_uleb(slice, cursor)?;
        Ok(CfaOp::DefCfaRegister(reg))
    } else if e == DW_CFA_DEF_CFA_OFFSET {
        let off = read_uleb(slice, cursor)?;
        Ok(CfaOp::DefCfaOffset(off))
    } else if e == DW_CFA_DEF_CFA_EXPRESSION {
        let _size = read_uleb(slice, cursor)?;
        Err(UnwindError::CfaExpressionNotSupported)
    } else if e == DW_CFA_EXPRESSION || e == DW_CFA_VAL_EXPRESSION {
        let reg = read_uleb(slice, cursor)?;
        let size = read_uleb(slice, cursor)?;
        skip_block(cursor, size)?;
        Ok(CfaOp::RegRule(reg, 0, VALUE_TYPE_EXPRESSION))
    } else if e == DW_CFA_DEF_CFA_SF {
        let reg = read_uleb(slice, cursor)?;
        let off = read_sleb(slice, cursor)?;
        Ok(CfaOp::DefCfa(reg, off.wrapping_mul(da)))
    } else if e == DW_CFA_DEF_CFA_OFFSET_SF {
        let off = read_sleb(slice, cursor)?;
        Ok(CfaOp::DefCfaOffset(off.wrapping_mul(da)))
    } else {
        Err(UnwindError::UnknownExtendedOpcode)
    }
}

/// Decodes the call-frame instruction at the cursor.
fn decode_op(
    slice: &[u8],
    cursor: &mut usize,
    enc: u8,
    pc: i64,
    code_align: i16,
    data_align: i16,
) -> (r: Result<CfaOp, UnwindError>)
    ensures
        match spec_decode_op(slice@, *old(cursor) as int, enc, pc, code_align, data_align) {
            Ok((op, end)) => r == Ok::<CfaOp, UnwindError>(op) && *final(cursor) == end,
            Err(x) => r == Err::<CfaOp, UnwindError>(x),
        },
        r is Ok ==> *final(cursor) > *old(cursor),
{
    let ins = read_byte(slice, cursor)?;
    let hi = ins & 0xC0;
    let e = ins & 0x3F;
    if hi == DW_CFA_ADVANCE_LOC {
        let ca = code_align as i64;
        assert(-0x8000_0000 <= e as i64 * ca <= 0x8000_0000) by (nonlinear_arith)
            requires 0 <= e <= 0xff, -0x8000 <= ca <= 0x7fff;
        Ok(CfaOp::AdvanceBy(e as i64 * ca))
    } else if hi == DW_CFA_OFFSET {
        let off = read_uleb(slice, cursor)?;
        Ok(CfaOp::RegRule(e as i64, off.wrapping_mul(data_align as i64), VALUE_TYPE_OFFSET))
    } else if hi == DW_CFA_RESTORE {
        Ok(CfaOp::RegRule(e as i64, 0, VALUE_TYPE_RESTORE))
    } else {
        decode_extended(slice, cursor, e, enc, pc, code_align, data_align)
    }
}

/// The rule state made of the given pieces.
pub open spec fn rule_state(pc: i64, row: FrameRow, stack: Seq<CFAState>, cursor: int) -> RuleState {
    RuleState { pc, row, stack, cursor }
}

/// The frame row after `op` failed to apply to `row`: a CFA definition
/// whose register fits but whose offset does not has already set the
/// register; every other failure leaves the row as it was.
pub open spec fn spec_failed_row(op: CfaOp, row: FrameRow) -> FrameRow {
    match op {
        CfaOp::DefCfa(reg, _off) => if reg <= 255 {
            FrameRow { cfa_reg: reg as u8, ..row }
        } else {
            row
        },
        _ => row,
    }
}

/// Applies one decoded instruction to the location, the frame row and the
/// remembered-state stack.
fn apply_op(op: CfaOp, pc: &mut i64, frame: &mut FrameState, options: &mut FrameOptions) -> (r: Result<bool, UnwindError>)
    ensures
        final(options).enc == old(options).enc,
        final(options).code_align == old(options).code_align,
        final(options).data_align == old(options).data_align,
        final(options).has_aug_data == old(options).has_aug_data,
        match spec_apply_op(op, rule_state(*old(pc), old(frame)@, old(options).cfa_stack@, 0)) {
            Ok((adv, st)) => r == Ok::<bool, UnwindError>(adv) && *final(pc) == st.pc && final(frame)@ == st.row
                && final(options).cfa_stack@ == st.stack,
            Err(x) => r == Err::<bool, UnwindError>(x) && *final(pc) == *old(pc) && final(frame)@ == spec_failed_row(
                op,
                old(frame)@,
            ) && final(options).cfa_stack@ == old(options).cfa_stack@,
        },
{
    match op {
        CfaOp::Nop => Ok(false),
        CfaOp::SetLoc(a) => {
            if a > *pc {
                *pc = a;
            }
            Ok(true)
        },
        CfaOp::AdvanceBy(d) => {
            let np = pc.wrapping_add(d);
            if np > *pc {
                *pc = np;
            }
            Ok(true)
        },
        CfaOp::RegRule(reg, val, t) => {
            frame.add_reg_value(reg, val, t)?;
            Ok(false)
        },
        CfaOp::RememberState => {
            options.cfa_stack.push(CFAState { cfa_reg: frame.cfa_reg, cfa_off: frame.cfa_off });
            Ok(false)
        },
        CfaOp::RestoreState => {
            match options.cfa_stack.pop() {
                Some(cfa_state) => {
                    frame.cfa_reg = cfa_state.cfa_reg;
                    frame.cfa_off = cfa_state.cfa_off;
                    Ok(false)
                },
                None => Err(UnwindError::UnbalancedStateRestore),
            }
        },
        CfaOp::DefCfa(reg, off) => {
            frame.set_cfa_reg(reg)?;
            frame.set_cfa_offset(off)?;
            Ok(false)
        },
        CfaOp::DefCfaRegister(reg) => {
            frame.set_cfa_reg(reg)?;
            Ok(false)
        },
        CfaOp::DefCfaOffset(off) => {
            frame.set_cfa_offset(off)?;
            Ok(false)
        },
    }
}

/// Reads and applies one call-frame instruction; `Ok(true)` when the
/// instruction moved the location, which starts a new frame row.
fn read_rule(
    pc: &mut i64,
    frame: &mut FrameState,
    slice: &[u8],
    cursor: &mut usize,
    options: &mut FrameOptions,
) -> (r: Result<bool, UnwindError>)
    ensures
        final(options).enc == old(options).enc,
        final(options).code_align == old(options).code_align,
        final(options).data_align == old(options).data_align,
        final(options).has_aug_data == old(options).has_aug_data,
        match spec_read_rule(
            slice@,
            old(options).enc,
            old(options).code_align,
            old(options).data_align,
            rule_state(*old(pc), old(frame)@, old(options).cfa_stack@, *old(cursor) as int),
        ) {
            Ok((adv, st)) => r == Ok::<bool, UnwindError>(adv) && *final(pc) == st.pc && final(frame)@ == st.row
                && final(options).cfa_stack@ == st.stack && *final(cursor) == st.cursor,
            Err(x) => r == Err::<bool, UnwindError>(x),
        },
        r is Ok ==> *final(cursor) > *old(cursor),
        r is Err ==> *final(pc) == *old(pc) && final(options).cfa_stack@ == old(options).cfa_stack@,
        r is Err ==> match spec_decode_op(
            slice@,
            *old(cursor) as int,
            old(options).enc,
            *old(pc),
            old(options).code_align,
            old(options).data_align,
        ) {
            Ok((op, next)) => final(frame)@ == spec_failed_row(op, old(frame)@) && *final(cursor) == next,
            Err(_) => final(frame)@ == old(frame)@,
        },
        r matches Ok(adv) ==> {
            let ins = slice@[*old(cursor) as int];
            &&& *final(pc) >= *old(pc)
            &&& adv <==> ((ins & 0xC0u8) == 0x40u8 || ((ins & 0xC0u8) == 0u8 && 1 <= (ins & 0x3Fu8) <= 4))
            &&& !adv ==> *final(pc) == *old(pc)
        },
        *old(cursor) < slice@.len() && slice@[*old(cursor) as int] == DW_CFA_RESTORE_STATE ==> if old(
            options,
        ).cfa_stack@.len() == 0 {
            &&& r == Err::<bool, UnwindError>(UnwindError::UnbalancedStateRestore)
            &&& final(frame)@ == old(frame)@
            &&& final(options).cfa_stack@ == old(options).cfa_stack@
        } else {
            let top = old(options).cfa_stack@.last();
            &&& r == Ok::<bool, UnwindError>(false)
            &&& final(frame)@ == (FrameRow { cfa_reg: top.cfa_reg, cfa_off: top.cfa_off, ..old(frame)@ })
            &&& final(options).cfa_stack@ == old(options).cfa_stack@.drop_last()
            &&& *final(cursor) == *old(cursor) + 1
            &&& *final(pc) == *old(pc)
        },
{
    let ghost st0 = rule_state(*pc, frame@, options.cfa_stack@, *cursor as int);
    let ghost enc = options.enc;
    let ghost ca = options.code_align;
    let ghost da = options.data_align;
    proof {
        if *cursor < slice@.len() {
            let ins = slice@[*cursor as int];
            assert(ins == 0x0bu8 ==> (ins & 0xC0u8) == 0u8 && (ins & 0x3Fu8) == 0x0bu8) by (bit_vector);
        }
    }
    let op = decode_op(slice, cursor, options.enc, *pc, options.code_align, options.data_align)?;
    let r = apply_op(op, pc, frame, options);
    proof {
        if r is Ok {
            lemma_read_rule_progress(slice@, enc, ca, da, st0);
        }
    }
    r
}


/// What a CIE fixes for the rules that use it.
pub struct CieInfo {
    pub code_align: i16,
    pub data_align: i16,
    pub ret_reg: u8,
    pub has_aug_data: bool,
    pub enc: u8,
    /// Position of the CIE's first instruction.
    pub end: int,
}

/// Walks the augmentation string from index `i`, consuming the augmentation
/// data it announces: 'L' a language byte, 'P' a personality pointer
/// (encoding byte then value), 'R' the FDE pointer encoding.
pub open spec fn spec_cie_aug(entry: Seq<u8>, aug: Seq<u8>, i: int, pos: int, enc: u8) -> Result<(int, u8), UnwindError>
    decreases aug.len() - i,
{
    if i >= aug.len() || i < 0 {
        Ok((pos, enc))
    } else if aug[i] == 0x4cu8 {
        match spec_read_byte(entry, pos) {
            Ok((_b, q)) => spec_cie_aug(entry, aug, i + 1, q, enc),
            Err(x) => Err(x),
        }
    } else if aug[i] == 0x50u8 {
        match spec_read_byte(entry, pos) {
            Ok((p_enc, q)) => match spec_read_value(p_enc, 0, entry, q) {
                Ok((_v, q2)) => spec_cie_aug(entry, aug, i + 1, q2, enc),
                Err(x) => Err(x),
            },
            Err(x) => Err(x),
        }
    } else if aug[i] == 0x52u8 {
        match spec_read_byte(entry, pos) {
            Ok((e, q)) => spec_cie_aug(entry, aug, i + 1, q, e),
            Err(x) => Err(x),
        }
    } else {
        spec_cie_aug(entry, aug, i + 1, pos, enc)
    }
}

/// Parses a CIE: length and zero id, version 1, augmentation string, code
/// alignment, data alignment, return register, then the augmentation data
/// when the string starts with 'z'. `enc` and `has_aug` are the values in
/// force before the CIE.
pub open spec fn spec_parse_cie(entry: Seq<u8>, enc: u8, has_aug: bool) -> Result<CieInfo, UnwindError> {
    if entry.len() < 8 {
        Err(UnwindError::CieTooSmall)
    } else if le32_at(entry, 4) != 0 {
        Err(UnwindError::InvalidCie)
    } else if entry.len() < 9 {
        Err(UnwindError::Truncated)
    } else if entry[8] != 1 {
        Err(UnwindError::InvalidVersion)
    } else if !(exists|end: int| first_nul(entry, 9, end)) {
        Err(UnwindError::Truncated)
    } else {
        let nul = choose|end: int| first_nul(entry, 9, end);
        let aug = entry.subrange(9, nul);
        match spec_read_uleb(entry, nul + 1) {
            Err(x) => Err(x),
            Ok((code_align, p1)) => match spec_read_sleb(entry, p1) {
                Err(x) => Err(x),
                Ok((data_align, p2)) => match spec_read_uleb(entry, p2) {
                    Err(x) => Err(x),
                    Ok((ret_reg, p3)) => {
                        if code_align > 32767 || data_align > 32767 || data_align < -32768 || ret_reg > 255 {
                            Err(UnwindError::AlignmentOutOfRange)
                        } else if aug.len() == 0 {
                            Err(UnwindError::Truncated)
                        } else if aug[0] == 0x7au8 {
                            match spec_read_uleb(entry, p3) {
                                Err(x) => Err(x),
                                Ok((_len, p4)) => match spec_cie_aug(entry, aug, 0, p4, enc) {
                                    Err(x) => Err(x),
                                    Ok((p5, e)) => Ok(CieInfo {
                                        code_align: code_align as i16,
                                        data_align: data_align as i16,
                                        ret_reg: ret_reg as u8,
                                        has_aug_data: true,
                                        enc: e,
                                        end: p5,
                                    }),
                                },
                            }
                        } else {
                            Ok(CieInfo {
                                code_align: code_align as i16,
                                data_align: data_align as i16,
                                ret_reg: ret_reg as u8,
                                has_aug_data: has_aug,
                                enc,
                                end: p3,
                            })
                        }
                    },
                },
            },
        }
    }
}

/// The fields of a CIE's fixed part when they all read and are in range
/// and the augmentation string is not empty: code and data alignment,
/// return register, the position after them, and whether augmentation data
/// follows (the string starts with 'z').
pub open spec fn spec_cie_fields(entry: Seq<u8>) -> Option<(i16, i16, u8, int, bool)> {
    if entry.len() < 9 || le32_at(entry, 4) != 0 || entry[8] != 1 || !(exists|end: int| first_nul(entry, 9, end)) {
        None
    } else {
        let nul = choose|end: int| first_nul(entry, 9, end);
        match spec_read_uleb(entry, nul + 1) {
            Err(_) => None,
            Ok((code_align, p1)) => match spec_read_sleb(entry, p1) {
                Err(_) => None,
                Ok((data_align, p2)) => match spec_read_uleb(entry, p2) {
                    Err(_) => None,
                    Ok((ret_reg, p3)) => {
                        if code_align > 32767 || data_align > 32767 || data_align < -32768 || ret_reg > 255 || nul == 9 {
                            None
                        } else {
                            Some((code_align as i16, data_align as i16, ret_reg as u8, p3, entry[9] == 0x7au8))
                        }
                    },
                },
            },
        }
    }
}

proof fn lemma_first_nul_unique(s: Seq<u8>, pos: int, a: int, b: int)
    requires
        first_nul(s, pos, a),
        first_nul(s, pos, b),
    ensures
        a == b,
{
    if a < b {
        assert(s[a] != 0);
    } else if b < a {
        assert(s[b] != 0);
    }
}

/// Consumes the augmentation data that the augmentation string `aug`
/// announces, starting at `cursor`; returns the position after it and the
/// FDE pointer encoding (`enc` unless an 'R' entry sets it).
fn parse_augmentation(entry: &[u8], aug: &[u8], start: usize, start_enc: u8) -> (r: Result<(usize, u8), UnwindError>)
    ensures
        match spec_cie_aug(entry@, aug@, 0, start as int, start_enc) {
            Ok((p, e)) => r matches Ok((c, e2)) && c == p && e2 == e,
            Err(x) => r == Err::<(usize, u8), UnwindError>(x),
        },
{
    let mut cursor = start;
    let mut enc = start_enc;
    let mut i: usize = 0;
    while i < aug.len()
        invariant
            i <= aug@.len(),
            spec_cie_aug(entry@, aug@, 0, start as int, start_enc) == spec_cie_aug(
                entry@,
                aug@,
                i as int,
                cursor as int,
                enc,
            ),
        decreases aug.len() - i,
    {
        let a = aug[i];
        if a == 0x4c {
            let _lang = read_byte(entry, &mut cursor)?;
        } else if a == 0x50 {
            let p_enc = read_byte(entry, &mut cursor)?;
            let _personality = read_value(p_enc, 0, entry, &mut cursor)?;
        } else if a == 0x52 {
            enc = read_byte(entry, &mut cursor)?;
        }
        i = i + 1;
    }
    Ok((cursor, enc))
}

/// Parses a CIE, setting the alignments, augmentation flag and pointer
/// encoding in `options` and the return register; returns the position of
/// the CIE's first instruction.
fn parse_cie(entry: &[u8], options: &mut FrameOptions, ret_reg: &mut u8) -> (r: Result<usize, UnwindError>)
    ensures
        final(options).cfa_stack@ == old(options).cfa_stack@,
        match spec_parse_cie(entry@, old(options).enc, old(options).has_aug_data) {
            Ok(cie) => r matches Ok(c) && c == cie.end
                && final(options).code_align == cie.code_align
                && final(options).data_align == cie.data_align && final(options).enc == cie.enc
                && final(options).has_aug_data == cie.has_aug_data && *final(ret_reg) == cie.ret_reg,
            Err(x) => r == Err::<usize, UnwindError>(x),
        },
        r is Err ==> final(options).enc == old(options).enc,
        r is Err ==> match spec_cie_fields(entry@) {
            None => final(options).code_align == old(options).code_align && final(options).data_align == old(
                options,
            ).data_align && final(options).has_aug_data == old(options).has_aug_data && *final(ret_reg) == *old(ret_reg),
            Some((ca, da, rr, p3, z)) => final(options).code_align == ca && final(options).data_align == da
                && *final(ret_reg) == rr && final(options).has_aug_data == (old(options).has_aug_data || (z
                && spec_read_uleb(entry@, p3) is Ok)),
        },
{
    if entry.len() < 8 {
        return Err(UnwindError::CieTooSmall);
    }
    let cie_id = u32_from_le_bytes(&entry[4..8]);
    if cie_id != 0 {
        return Err(UnwindError::InvalidCie);
    }
    let mut cursor: usize = 8;
    let version = read_byte(entry, &mut cursor)?;
    if version != 1 {
        return Err(UnwindError::InvalidVersion);
    }
    let aug_len = read_string(entry, &mut cursor)?;
    proof {
        let nul = choose|end: int| first_nul(entry@, 9, end);
        lemma_first_nul_unique(entry@, 9, nul, 9 + aug_len);
    }
    let aug = &entry[9..9 + aug_len];
    let code_align = read_uleb(entry, &mut cursor)?;
    let data_align = read_sleb(entry, &mut cursor)?;
    let rr = read_uleb(entry, &mut cursor)?;
    if code_align > 32767 || data_align > 32767 || data_align < -32768 || rr > 255 {
        return Err(UnwindError::AlignmentOutOfRange);
    }
    if aug.len() == 0 {
        return Err(UnwindError::Truncated);
    }
    options.code_align = code_align as i16;
    options.data_align = data_align as i16;
    *ret_reg = rr as u8;
    if aug[0] == 0x7a {
        let _aug_data_len = read_uleb(entry, &mut cursor)?;
        options.has_aug_data = true;
        let (c, e) = parse_augmentation(entry, aug, cursor, options.enc)?;
        cursor = c;
        options.enc = e;
    }
    Ok(cursor)
}


/// Bytes of `image` available from `pos` on.
pub open spec fn avail_from(image: Seq<u8>, pos: int) -> int {
    if pos < image.len() { image.len() - pos } else { 0 }
}

/// The length (including its own 4-byte length field) of the frame entry
/// that starts at `pos`: the first read sees at most 256 bytes and must
/// hold the length; the length must be non-zero and at most 2048, and the
/// whole entry must be present.
pub open spec fn spec_frame_entry(image: Seq<u8>, pos: int) -> Result<int, UnwindError> {
    let avail = avail_from(image, pos);
    let first_read = if avail < 256 { avail } else { 256 };
    if first_read < 4 {
        Err(UnwindError::CannotReadLength)
    } else {
        let len = le32_at(image, pos) as int;
        if len == 0 {
            Err(UnwindError::ZeroLength)
        } else if len > 2048 {
            Err(UnwindError::TooLargeLength)
        } else if len + 4 > avail {
            Err(UnwindError::UnexpectedEof)
        } else {
            Ok(len + 4)
        }
    }
}

/// Reads the frame entry at `pos` of `image` into `buf`; returns its length.
pub fn read_frame_entry(image: &[u8], pos: u64, buf: &mut Vec<u8>) -> (r: Result<usize, UnwindError>)
    ensures
        match spec_frame_entry(image@, pos as int) {
            Ok(len) => r == Ok::<usize, UnwindError>(len as usize) && final(buf)@.len() >= len
                && final(buf)@.subrange(0, len) == image@.subrange(pos as int, pos + len),
            Err(x) => r == Err::<usize, UnwindError>(x),
        },
{
    let avail: usize = if pos < image.len() as u64 { image.len() - pos as usize } else { 0 };
    let first_read = if avail < 256 { avail } else { 256 };
    if first_read < 4 {
        return Err(UnwindError::CannotReadLength);
    }
    let start = pos as usize;
    let len = u32_from_le_bytes(&image[start..start + 4]) as usize;
    if len == 0 {
        return Err(UnwindError::ZeroLength);
    }
    if len > 2048 {
        return Err(UnwindError::TooLargeLength);
    }
    let len = len + 4;
    if len > avail {
        return Err(UnwindError::UnexpectedEof);
    }
    buf.clear();
    buf.extend_from_slice(&image[start..start + len]);
    assert(buf@ =~= image@.subrange(pos as int, pos + len));
    Ok(len)
}

/// Runs the CIE's initial instructions from `st.cursor` up to `end`.
pub open spec fn spec_run_cie(s: Seq<u8>, enc: u8, ca: i16, da: i16, st: RuleState, end: int) -> Result<RuleState, UnwindError>
    decreases (if st.cursor < end { end - st.cursor } else { 0 }),
{
    if st.cursor >= end {
        Ok(st)
    } else {
        match spec_read_rule(s, enc, ca, da, st) {
            Err(x) => Err(x),
            Ok((_adv, st2)) => {
                if st2.cursor > st.cursor {
                    spec_run_cie(s, enc, ca, da, st2, end)
                } else {
                    Ok(st2)
                }
            },
        }
    }
}

/// The row that starts when the location moves to `pc`: it keeps the CFA
/// rule and starts with no register rules.
pub open spec fn next_row(pc: i64, row: FrameRow) -> FrameRow {
    FrameRow { rva: pc as u64, cfa_reg: row.cfa_reg, cfa_off: row.cfa_off, regs: Seq::empty() }
}

/// Runs the FDE's instructions from `st.cursor` up to `end`; every
/// instruction that moves the location closes the current row.
pub open spec fn spec_run_fde(
    s: Seq<u8>,
    enc: u8,
    ca: i16,
    da: i16,
    st: RuleState,
    end: int,
    rows: Seq<FrameRow>,
) -> Result<(Seq<FrameRow>, RuleState), UnwindError>
    decreases (if st.cursor < end { end - st.cursor } else { 0 }),
{
    if st.cursor >= end {
        Ok((rows, st))
    } else {
        match spec_read_rule(s, enc, ca, da, st) {
            Err(x) => Err(x),
            Ok((adv, st2)) => {
                if st2.cursor > st.cursor {
                    if adv {
                        spec_run_fde(s, enc, ca, da, RuleState { row: next_row(st2.pc, st2.row), ..st2 }, end, rows.push(st2.row))
                    } else {
                        spec_run_fde(s, enc, ca, da, st2, end, rows)
                    }
                } else {
                    Ok((rows, st2))
                }
            },
        }
    }
}

/// Rows whose start addresses never fall.
pub open spec fn rows_ordered(rows: Seq<FrameRow>) -> bool {
    forall|i: int, j: int| 0 <= i <= j < rows.len() ==> rows[i].rva <= rows[j].rva
}

proof fn lemma_read_rule_keeps_rva(s: Seq<u8>, enc: u8, ca: i16, da: i16, st: RuleState)
    requires
        spec_read_rule(s, enc, ca, da, st) is Ok,
    ensures
        spec_read_rule(s, enc, ca, da, st)->Ok_0.1.row.rva == st.row.rva,
{
}

/// Running an FDE's instructions from a location that is not negative,
/// with the current row starting there, closes rows in address order: the
/// rows closed before keep their place, and every row closed afterwards,
/// the open one included, starts at or after the current row.
pub proof fn lemma_run_fde_ordered(
    s: Seq<u8>,
    enc: u8,
    ca: i16,
    da: i16,
    st: RuleState,
    end: int,
    rows: Seq<FrameRow>,
)
    requires
        st.pc >= 0,
        st.row.rva == st.pc as u64,
        rows_ordered(rows),
        forall|i: int| 0 <= i < rows.len() ==> #[trigger] rows[i].rva <= st.row.rva,
        spec_run_fde(s, enc, ca, da, st, end, rows) is Ok,
    ensures
        ({
            let (rs, last) = spec_run_fde(s, enc, ca, da, st, end, rows)->Ok_0;
            let all = rs.push(last.row);
            &&& rows_ordered(all)
            &&& rows.len() <= rs.len()
            &&& forall|i: int| 0 <= i < rows.len() ==> #[trigger] rs[i] == rows[i]
            &&& forall|i: int| rows.len() <= i < all.len() ==> #[trigger] all[i].rva >= st.row.rva
            &&& all[rows.len() as int].rva == st.row.rva
        }),
    decreases (if st.cursor < end { end - st.cursor } else { 0 }),
{
    if st.cursor < end {
        lemma_read_rule_progress(s, enc, ca, da, st);
        lemma_read_rule_keeps_rva(s, enc, ca, da, st);
        let (adv, st2) = spec_read_rule(s, enc, ca, da, st)->Ok_0;
        if adv {
            let nrows = rows.push(st2.row);
            let nst = RuleState { row: next_row(st2.pc, st2.row), ..st2 };
            assert(st2.pc as u64 >= st.pc as u64);
            assert forall|i: int| 0 <= i < nrows.len() implies #[trigger] nrows[i].rva <= nst.row.rva by {
                if i < rows.len() {
                    assert(rows[i].rva <= st.row.rva);
                }
            }
            assert forall|i: int, j: int| 0 <= i <= j < nrows.len() implies nrows[i].rva <= nrows[j].rva by {
                if j < rows.len() {
                    assert(rows[i].rva <= rows[j].rva);
                } else if i < rows.len() {
                    assert(rows[i].rva <= st.row.rva);
                }
            }
            lemma_run_fde_ordered(s, enc, ca, da, nst, end, nrows);
            let (rs, last) = spec_run_fde(s, enc, ca, da, nst, end, nrows)->Ok_0;
            assert(forall|i: int| 0 <= i < nrows.len() ==> #[trigger] rs[i] == nrows[i]);
            assert forall|i: int| 0 <= i < rows.len() implies #[trigger] rs[i] == rows[i] by {
                assert(rs[i] == nrows[i]);
            }
            assert(rs[rows.len() as int] == nrows[rows.len() as int]);
        } else {
            lemma_run_fde_ordered(s, enc, ca, da, st2, end, rows);
        }
    }
}

proof fn lemma_run_fde_first(s: Seq<u8>, enc: u8, ca: i16, da: i16, st: RuleState, end: int, rows: Seq<FrameRow>)
    requires
        spec_run_fde(s, enc, ca, da, st, end, rows) is Ok,
    ensures
        ({
            let (rs, last) = spec_run_fde(s, enc, ca, da, st, end, rows)->Ok_0;
            &&& rows.len() <= rs.len()
            &&& rs.push(last.row)[rows.len() as int].rva == st.row.rva
        }),
    decreases (if st.cursor < end { end - st.cursor } else { 0 }),
{
    if st.cursor < end {
        lemma_read_rule_keeps_rva(s, enc, ca, da, st);
        let (adv, st2) = spec_read_rule(s, enc, ca, da, st)->Ok_0;
        if st2.cursor > st.cursor {
            if adv {
                let nrows = rows.push(st2.row);
                let nst = RuleState { row: next_row(st2.pc, st2.row), ..st2 };
                lemma_run_fde_ordered_prefix(s, enc, ca, da, nst, end, nrows);
            } else {
                lemma_run_fde_first(s, enc, ca, da, st2, end, rows);
            }
        }
    }
}

proof fn lemma_run_fde_ordered_prefix(
    s: Seq<u8>,
    enc: u8,
    ca: i16,
    da: i16,
    st: RuleState,
    end: int,
    rows: Seq<FrameRow>,
)
    requires
        spec_run_fde(s, enc, ca, da, st, end, rows) is Ok,
    ensures
        ({
            let (rs, last) = spec_run_fde(s, enc, ca, da, st, end, rows)->Ok_0;
            &&& rows.len() <= rs.len()
            &&& forall|i: int| 0 <= i < rows.len() ==> #[trigger] rs[i] == rows[i]
        }),
    decreases (if st.cursor < end { end - st.cursor } else { 0 }),
{
    if st.cursor < end {
        let (adv, st2) = spec_read_rule(s, enc, ca, da, st)->Ok_0;
        if st2.cursor > st.cursor {
            if adv {
                let nrows = rows.push(st2.row);
                let nst = RuleState { row: next_row(st2.pc, st2.row), ..st2 };
                lemma_run_fde_ordered_prefix(s, enc, ca, da, nst, end, nrows);
                let rs = spec_run_fde(s, enc, ca, da, nst, end, nrows)->Ok_0.0;
                assert forall|i: int| 0 <= i < rows.len() implies #[trigger] rs[i] == rows[i] by {
                    assert(rs[i] == nrows[i]);
                }
            } else {
                lemma_run_fde_ordered_prefix(s, enc, ca, da, st2, end, rows);
            }
        }
    }
}

proof fn lemma_run_cie_keeps_rva(s: Seq<u8>, enc: u8, ca: i16, da: i16, st: RuleState, end: int)
    requires
        spec_run_cie(s, enc, ca, da, st, end) is Ok,
    ensures
        spec_run_cie(s, enc, ca, da, st, end)->Ok_0.row.rva == st.row.rva,
    decreases (if st.cursor < end { end - st.cursor } else { 0 }),
{
    if st.cursor < end {
        lemma_read_rule_keeps_rva(s, enc, ca, da, st);
        let (_adv, st2) = spec_read_rule(s, enc, ca, da, st)->Ok_0;
        if st2.cursor > st.cursor {
            lemma_run_cie_keeps_rva(s, enc, ca, da, st2, end);
        }
    }
}

/// What loading the rules of an FDE produces.
pub struct LoadedRules {
    pub pc_size: u64,
    pub ret_reg: u8,
    pub rows: Seq<FrameRow>,
}

/// Loads the FDE at `fde` of `image` and its CIE: the CIE sits
/// `cie offset` bytes back from the FDE's CIE pointer field; the FDE holds
/// the start address, the address range, optional augmentation data and the
/// instructions; the CIE's initial instructions apply first.
pub open spec fn spec_load_rules(image: Seq<u8>, fde: u64) -> Result<LoadedRules, UnwindError> {
    match spec_frame_entry(image, fde as int) {
        Err(x) => Err(x),
        Ok(fde_len) => {
            let fs = image.subrange(fde as int, fde + fde_len);
            if fde_len < 8 {
                Err(UnwindError::FdeTooSmall)
            } else if le32_at(fs, 4) == 0 {
                Err(UnwindError::InvalidCieOffset)
            } else {
                let cie_pos = fde.wrapping_add(4).wrapping_sub(le32_at(fs, 4) as u64);
                match spec_frame_entry(image, cie_pos as int) {
                    Err(x) => Err(x),
                    Ok(cie_len) => {
                        let cs = image.subrange(cie_pos as int, cie_pos + cie_len);
                        match spec_parse_cie(cs, DW_EH_PE_UDATA8, false) {
                            Err(x) => Err(x),
                            Ok(cie) => match spec_read_value(cie.enc, fde as i64, fs, 8) {
                                Err(x) => Err(x),
                                Ok((pc_start, c1)) => match spec_read_value(cie.enc, -12i64, fs, c1) {
                                    Err(x) => Err(x),
                                    Ok((pc_size, c2)) => {
                                        let skipped = if cie.has_aug_data {
                                            match spec_read_uleb(fs, c2) {
                                                Err(x) => Err(x),
                                                Ok((size, c)) => spec_skip(c, size),
                                            }
                                        } else {
                                            Ok(((), c2))
                                        };
                                        match skipped {
                                            Err(x) => Err(x),
                                            Ok((_u, c3)) => {
                                                let row0 = FrameRow { rva: pc_start as u64, cfa_reg: 0, cfa_off: 0, regs: Seq::empty() };
                                                match spec_run_cie(cs, cie.enc, cie.code_align, cie.data_align,
                                                    rule_state(pc_start, row0, Seq::empty(), cie.end), cie_len) {
                                                    Err(x) => Err(x),
                                                    Ok(st1) => match spec_run_fde(fs, cie.enc, cie.code_align, cie.data_align,
                                                        rule_state(pc_start, st1.row, st1.stack, c3), fde_len, Seq::empty()) {
                                                        Err(x) => Err(x),
                                                        Ok((rows, st2)) => Ok(LoadedRules {
                                                            pc_size: pc_size as u64,
                                                            ret_reg: cie.ret_reg,
                                                            rows: rows.push(st2.row),
                                                        }),
                                                    },
                                                }
                                            },
                                        }
                                    },
                                },
                            },
                        }
                    },
                }
            }
        },
    }
}

/// The rows of a loaded FDE come in address order and the first starts at
/// the FDE's initial location, when that location is not negative as a
/// signed address (every row then starts at or after it).
pub proof fn lemma_loaded_rows_ordered(image: Seq<u8>, fde: u64)
    requires
        spec_load_rules(image, fde) is Ok,
        spec_load_rules(image, fde)->Ok_0.rows[0].rva <= i64::MAX,
    ensures
        spec_load_rules(image, fde)->Ok_0.rows.len() >= 1,
        rows_ordered(spec_load_rules(image, fde)->Ok_0.rows),
{
    let fde_len = spec_frame_entry(image, fde as int)->Ok_0;
    let fs = image.subrange(fde as int, fde + fde_len);
    let cie_pos = fde.wrapping_add(4).wrapping_sub(le32_at(fs, 4) as u64);
    let cie_len = spec_frame_entry(image, cie_pos as int)->Ok_0;
    let cs = image.subrange(cie_pos as int, cie_pos + cie_len);
    let cie = spec_parse_cie(cs, DW_EH_PE_UDATA8, false)->Ok_0;
    let (pc_start, c1) = spec_read_value(cie.enc, fde as i64, fs, 8)->Ok_0;
    let (_pc_size, c2) = spec_read_value(cie.enc, -12i64, fs, c1)->Ok_0;
    let skipped = if cie.has_aug_data {
        match spec_read_uleb(fs, c2) {
            Err(x) => Err(x),
            Ok((size, c)) => spec_skip(c, size),
        }
    } else {
        Ok(((), c2))
    };
    let c3 = skipped->Ok_0.1;
    let row0 = FrameRow { rva: pc_start as u64, cfa_reg: 0, cfa_off: 0, regs: Seq::empty() };
    let st0 = rule_state(pc_start, row0, Seq::empty(), cie.end);
    lemma_run_cie_keeps_rva(cs, cie.enc, cie.code_align, cie.data_align, st0, cie_len);
    let st1 = spec_run_cie(cs, cie.enc, cie.code_align, cie.data_align, st0, cie_len)->Ok_0;
    let stf = rule_state(pc_start, st1.row, st1.stack, c3);
    lemma_run_fde_first(fs, cie.enc, cie.code_align, cie.data_align, stf, fde_len, Seq::empty());
    let u = pc_start as u64;
    assert(u <= 0x7fff_ffff_ffff_ffff ==> pc_start >= 0) by (bit_vector)
        requires
            u == pc_start as u64,
    ;
    lemma_run_fde_ordered(fs, cie.enc, cie.code_align, cie.data_align, stf, fde_len, Seq::empty());
}

/// Runs the CIE's initial instructions from `start` to the end of `slice`.
#[verifier::loop_isolation(false)]
fn run_cie_rules(
    slice: &[u8],
    start: usize,
    pc: &mut i64,
    frame: &mut FrameState,
    options: &mut FrameOptions,
) -> (r: Result<(), UnwindError>)
    ensures
        final(options).enc == old(options).enc,
        final(options).code_align == old(options).code_align,
        final(options).data_align == old(options).data_align,
        final(options).has_aug_data == old(options).has_aug_data,
        match spec_run_cie(slice@, old(options).enc, old(options).code_align, old(options).data_align,
            rule_state(*old(pc), old(frame)@, old(options).cfa_stack@, start as int), slice@.len() as int) {
            Ok(st) => r is Ok && *final(pc) == st.pc && final(frame)@ == st.row && final(options).cfa_stack@ == st.stack,
            Err(x) => r == Err::<(), UnwindError>(x),
        },
{
    let ghost enc = options.enc;
    let ghost ca = options.code_align;
    let ghost da = options.data_align;
    let ghost ha = options.has_aug_data;
    let ghost result = spec_run_cie(slice@, enc, ca, da, rule_state(*pc, frame@, options.cfa_stack@, start as int), slice@.len() as int);
    let mut cursor = start;
    while cursor < slice.len()
        invariant
            options.enc == enc,
            options.code_align == ca,
            options.data_align == da,
            options.has_aug_data == ha,
            result == spec_run_cie(slice@, enc, ca, da, rule_state(*pc, frame@, options.cfa_stack@, cursor as int), slice@.len() as int),
        decreases (if cursor < slice@.len() { slice@.len() - cursor } else { 0 }),
    {
        let _ = read_rule(pc, frame, slice, &mut cursor, options)?;
    }
    Ok(())
}

/// Runs the FDE's instructions from `start` to the end of `slice`, appending
/// a row to `states` whenever the location moves.
#[verifier::loop_isolation(false)]
fn run_fde_rules(
    slice: &[u8],
    start: usize,
    pc: &mut i64,
    frame: &mut FrameState,
    options: &mut FrameOptions,
    states: &mut Vec<FrameState>,
) -> (r: Result<(), UnwindError>)
    ensures
        match spec_run_fde(slice@, old(options).enc, old(options).code_align, old(options).data_align,
            rule_state(*old(pc), old(frame)@, old(options).cfa_stack@, start as int), slice@.len() as int, Seq::empty()) {
            Ok((rows, st)) => r is Ok && *final(pc) == st.pc && final(frame)@ == st.row
                && rows_of(final(states)@) == rows_of(old(states)@) + rows,
            Err(x) => r == Err::<(), UnwindError>(x),
        },
{
    let ghost enc = options.enc;
    let ghost ca = options.code_align;
    let ghost da = options.data_align;
    let ghost old_rows = rows_of(states@);
    let ghost result = spec_run_fde(slice@, enc, ca, da, rule_state(*pc, frame@, options.cfa_stack@, start as int), slice@.len() as int, Seq::empty());
    let ghost mut rows: Seq<FrameRow> = Seq::empty();
    let mut cursor = start;
    while cursor < slice.len()
        invariant
            options.enc == enc,
            options.code_align == ca,
            options.data_align == da,
            rows_of(states@) == old_rows + rows,
            result == spec_run_fde(slice@, enc, ca, da, rule_state(*pc, frame@, options.cfa_stack@, cursor as int), slice@.len() as int, rows),
        decreases (if cursor < slice@.len() { slice@.len() - cursor } else { 0 }),
    {
        let ghost before = rows_of(states@);
        if read_rule(pc, frame, slice, &mut cursor, options)? {
            let cfa_reg = frame.cfa_reg;
            let cfa_off = frame.cfa_off;
            let ghost closed = frame@;
            let mut done = FrameState::new(*pc as u64, cfa_reg, cfa_off);
            std::mem::swap(frame, &mut done);
            states.push(done);
            proof {
                rows = rows.push(closed);
                assert(rows_of(states@) =~= before.push(closed));
                assert(old_rows + rows =~= (old_rows + rows.drop_last()).push(closed));
            }
        }
    }
    Ok(())
}

pub const STATE_UNPARSED: u8 = 0;
pub const STATE_INVALID: u8 = 1;
pub const STATE_VALID: u8 = 2;

/// The rows of a sequence of frame states.
pub open spec fn rows_of(v: Seq<FrameState>) -> Seq<FrameRow> {
    v.map_values(|f: FrameState| f@)
}

/// An entry of the frame lookup table: the function start address, the
/// FDE's position in the image, and the rules once they are loaded.
pub struct FrameOffset {
    pub rva: u64,
    pub fde: u64,
    pub pc_size: u64,
    state: u8,
    ret_reg: u8,
    frame_states: Vec<FrameState>,
}

/// Mathematical form of a `FrameOffset`.
pub struct FrameOffsetView {
    pub rva: u64,
    pub fde: u64,
    pub pc_size: u64,
    pub state: u8,
    pub ret_reg: u8,
    pub rows: Seq<FrameRow>,
}

impl View for FrameOffset {
    type V = FrameOffsetView;

    closed spec fn view(&self) -> FrameOffsetView {
        FrameOffsetView {
            rva: self.rva,
            fde: self.fde,
            pc_size: self.pc_size,
            state: self.state,
            ret_reg: self.ret_reg,
            rows: rows_of(self.frame_states@),
        }
    }
}

impl FrameOffset {
    pub fn new(rva: u64, fde: u64) -> (o: Self)
        ensures
            o@ == (FrameOffsetView { rva, fde, pc_size: 0, state: STATE_UNPARSED, ret_reg: 0, rows: Seq::empty() }),
    {
        let o = FrameOffset { rva, fde, pc_size: 0, state: STATE_UNPARSED, ret_reg: 0, frame_states: Vec::new() };
        assert(rows_of(o.frame_states@) =~= Seq::empty());
        o
    }

    pub fn is_unparsed(&self) -> (r: bool)
        ensures
            r == (self@.state == STATE_UNPARSED),
    {
        self.state == STATE_UNPARSED
    }

    pub fn is_valid(&self) -> (r: bool)
        ensures
            r == (self@.state == STATE_VALID),
    {
        self.state == STATE_VALID
    }

    pub fn mark_invalid(&mut self)
        ensures
            final(self)@ == (FrameOffsetView { state: STATE_INVALID, ..old(self)@ }),
    {
        self.state = STATE_INVALID;
    }

    fn mark_valid(&mut self)
        ensures
            final(self)@ == (FrameOffsetView { state: STATE_VALID, ..old(self)@ }),
            final(self).rva == old(self).rva,
            final(self).fde == old(self).fde,
            final(self).pc_size == old(self).pc_size,
    {
        self.state = STATE_VALID;
    }

    /// Loads the rules of this entry's FDE from `image`, appending its rows;
    /// the entry is valid afterwards exactly when loading succeeded.
    #[verifier::rlimit(50)]
    fn load_rules(&mut self, image: &[u8], fde_buf: &mut Vec<u8>, cie_buf: &mut Vec<u8>) -> (r: Result<(), UnwindError>)
        ensures
            final(self).rva == old(self).rva,
            final(self).fde == old(self).fde,
            final(self)@.rva == old(self)@.rva,
            final(self)@.fde == old(self)@.fde,
            match spec_load_rules(image@, old(self).fde) {
                Ok(lr) => r is Ok && final(self)@.state == STATE_VALID && final(self).pc_size == lr.pc_size
                    && final(self)@.pc_size == lr.pc_size
                    && final(self)@.ret_reg == lr.ret_reg && final(self)@.rows == old(self)@.rows + lr.rows,
                Err(x) => r == Err::<(), UnwindError>(x) && final(self)@.state == STATE_INVALID,
            },
    {
        self.mark_invalid();
        let fde_len = read_frame_entry(image, self.fde, fde_buf)?;
        if fde_len < 8 {
            return Err(UnwindError::FdeTooSmall);
        }
        let fde_slice = &fde_buf.as_slice()[0..fde_len];
        assert(fde_slice@ == image@.subrange(self.fde as int, self.fde + fde_len));
        let cie_offset = u32_from_le_bytes(&fde_slice[4..8]);
        if cie_offset == 0 {
            return Err(UnwindError::InvalidCieOffset);
        }
        let cie_pos = self.fde.wrapping_add(4).wrapping_sub(cie_offset as u64);
        let cie_len = read_frame_entry(image, cie_pos, cie_buf)?;
        let cie_slice = &cie_buf.as_slice()[0..cie_len];
        assert(cie_slice@ == image@.subrange(cie_pos as int, cie_pos + cie_len));
        let mut options = FrameOptions::new();
        let mut ret_reg: u8 = 0;
        let cie_cursor = parse_cie(cie_slice, &mut options, &mut ret_reg)?;
        self.ret_reg = ret_reg;
        let mut cursor: usize = 8;
        let pc_start = read_value(options.enc, self.fde as i64, fde_slice, &mut cursor)?;
        let pc_size = read_value(options.enc, -12, fde_slice, &mut cursor)?;
        self.pc_size = pc_size as u64;
        if options.has_aug_data {
            let size = read_uleb(fde_slice, &mut cursor)?;
            skip_block(&mut cursor, size)?;
        }
        let mut frame = FrameState::new(pc_start as u64, 0, 0);
        let mut pc = pc_start;
        run_cie_rules(cie_slice, cie_cursor, &mut pc, &mut frame, &mut options)?;
        let mut pc = pc_start;
        run_fde_rules(fde_slice, cursor, &mut pc, &mut frame, &mut options, &mut self.frame_states)?;
        let ghost last = frame@;
        let ghost pre = rows_of(self.frame_states@);
        self.frame_states.push(frame);
        assert(rows_of(self.frame_states@) =~= pre.push(last));
        self.mark_valid();
        Ok(())
    }
}


/// Where the CFA and the saved registers are, for one address.
pub struct UnwindCFA {
    pub reg: u8,
    pub off: i16,
    pub off_mask: u64,
}

impl UnwindCFA {
    pub fn new() -> (c: Self)
        ensures
            c.reg == 0,
            c.off == 0,
            c.off_mask == 0,
    {
        UnwindCFA { reg: 0, off: 0, off_mask: 0 }
    }
}

impl Default for UnwindCFA {
    fn default() -> (c: Self)
        ensures
            c.reg == 0,
            c.off == 0,
            c.off_mask == 0,
    {
        Self::new()
    }
}

/// The CFA rule, the mask of registers saved at a CFA offset, and the
/// offsets, while the rows are applied.
pub struct CfaAcc {
    pub reg: u8,
    pub off: i16,
    pub mask: u64,
    pub offsets: Seq<i16>,
}

/// Applies one register rule: registers at or above `max_reg` are ignored;
/// an undefined register loses its offset bit; an offset rule records the
/// offset and sets the register's bit; other rules change nothing.
pub open spec fn reg_step(acc: CfaAcc, rs: RegState, max_reg: u8) -> CfaAcc {
    if rs.reg >= max_reg {
        acc
    } else if rs.val_type == VALUE_TYPE_UNDEFINED {
        CfaAcc { mask: acc.mask & !(1u64 << rs.reg), ..acc }
    } else if rs.val_type != VALUE_TYPE_OFFSET {
        acc
    } else {
        CfaAcc { offsets: acc.offsets.update(rs.reg as int, rs.val), mask: acc.mask | (1u64 << rs.reg), ..acc }
    }
}

/// Bit `j` of `m`.
pub open spec fn mask_bit(m: u64, j: u64) -> u64 {
    (m >> j) & 1u64
}

proof fn lemma_clear_bit(m: u64, r: u8, j: u64)
    requires
        r < 64,
        j < 64,
    ensures
        mask_bit(m & !(1u64 << r), j) == if j == r as u64 { 0u64 } else { mask_bit(m, j) },
        mask_bit(m | (1u64 << r), j) == if j == r as u64 { 1u64 } else { mask_bit(m, j) },
{
    assert(((m & !(1u64 << r)) >> j) & 1u64 == if j == r as u64 { 0u64 } else { (m >> j) & 1u64 }) by (bit_vector)
        requires
            r < 64,
            j < 64,
    ;
    assert(((m | (1u64 << r)) >> j) & 1u64 == if j == r as u64 { 1u64 } else { (m >> j) & 1u64 }) by (bit_vector)
        requires
            r < 64,
            j < 64,
    ;
}

/// What one register rule does while unwinding, for a register below
/// `max_reg` whose bit fits in the mask: an undefined rule clears exactly
/// that register's bit (its value cannot be recovered); an offset rule
/// records the offset for the register and sets exactly its bit; any other
/// rule, and any rule for a register at or above `max_reg`, changes
/// nothing. The CFA rule is never changed by a register rule.
pub proof fn lemma_register_rule_effect(acc: CfaAcc, rs: RegState, max_reg: u8)
    requires
        rs.reg < 64,
    ensures
        ({
            let next = reg_step(acc, rs, max_reg);
            &&& next.reg == acc.reg && next.off == acc.off
            &&& rs.reg >= max_reg ==> next == acc
            &&& rs.reg < max_reg && rs.val_type == VALUE_TYPE_UNDEFINED ==> {
                &&& mask_bit(next.mask, rs.reg as u64) == 0
                &&& forall|j: u64| j < 64 && j != rs.reg ==> #[trigger] mask_bit(next.mask, j) == mask_bit(acc.mask, j)
                &&& next.offsets == acc.offsets
            }
            &&& rs.reg < max_reg && rs.val_type == VALUE_TYPE_OFFSET ==> {
                &&& mask_bit(next.mask, rs.reg as u64) == 1
                &&& forall|j: u64| j < 64 && j != rs.reg ==> #[trigger] mask_bit(next.mask, j) == mask_bit(acc.mask, j)
                &&& next.offsets == acc.offsets.update(rs.reg as int, rs.val)
            }
            &&& rs.reg < max_reg && rs.val_type != VALUE_TYPE_UNDEFINED && rs.val_type != VALUE_TYPE_OFFSET ==> next == acc
        }),
{
    lemma_clear_bit(acc.mask, rs.reg, rs.reg as u64);
    let next = reg_step(acc, rs, max_reg);
    if rs.reg < max_reg && rs.val_type == VALUE_TYPE_UNDEFINED {
        assert(next.mask == acc.mask & !(1u64 << rs.reg));
        assert(mask_bit(next.mask, rs.reg as u64) == 0);
        assert forall|j: u64| j < 64 && j != rs.reg implies #[trigger] mask_bit(next.mask, j) == mask_bit(acc.mask, j) by {
            lemma_clear_bit(acc.mask, rs.reg, j);
        }
    }
    if rs.reg < max_reg && rs.val_type == VALUE_TYPE_OFFSET {
        assert(next.mask == acc.mask | (1u64 << rs.reg));
        assert(mask_bit(next.mask, rs.reg as u64) == 1);
        assert forall|j: u64| j < 64 && j != rs.reg implies #[trigger] mask_bit(next.mask, j) == mask_bit(acc.mask, j) by {
            lemma_clear_bit(acc.mask, rs.reg, j);
        }
    }
}

/// Applies the register rules from index `j` on, in order.
pub open spec fn regs_fold(regs: Seq<RegState>, j: int, acc: CfaAcc, max_reg: u8) -> CfaAcc
    decreases regs.len() - j,
{
    if j < 0 || j >= regs.len() {
        acc
    } else {
        regs_fold(regs, j + 1, reg_step(acc, regs[j], max_reg), max_reg)
    }
}

/// Applies the rows from index `k` on, in order, stopping at the first row
/// that starts after `rva`: each row sets the CFA rule, then its register
/// rules apply.
pub open spec fn rows_fold(rows: Seq<FrameRow>, k: int, rva: u64, acc: CfaAcc, max_reg: u8) -> CfaAcc
    decreases rows.len() - k,
{
    if k < 0 || k >= rows.len() || rows[k].rva > rva {
        acc
    } else {
        rows_fold(rows, k + 1, rva, regs_fold(rows[k].regs, 0, CfaAcc { reg: rows[k].cfa_reg, off: rows[k].cfa_off, ..acc }, max_reg), max_reg)
    }
}

/// The result of unwinding to `rva` with register offsets `offsets`.
pub open spec fn spec_unwind(rows: Seq<FrameRow>, rva: u64, offsets: Seq<i16>) -> CfaAcc {
    rows_fold(rows, 0, rva, CfaAcc { reg: 0, off: 0, mask: 0, offsets }, offsets.len() as u8)
}

proof fn lemma_regs_fold_keeps_cfa(regs: Seq<RegState>, j: int, acc: CfaAcc, max_reg: u8)
    ensures
        regs_fold(regs, j, acc, max_reg).reg == acc.reg,
        regs_fold(regs, j, acc, max_reg).off == acc.off,
    decreases regs.len() - j,
{
    if 0 <= j < regs.len() {
        lemma_regs_fold_keeps_cfa(regs, j + 1, reg_step(acc, regs[j], max_reg), max_reg);
    }
}

proof fn lemma_rows_fold_cfa(rows: Seq<FrameRow>, j: int, rva: u64, acc: CfaAcc, max_reg: u8, k: int)
    requires
        0 <= j <= k + 1,
        -1 <= k < rows.len(),
        forall|i: int| j <= i <= k ==> #[trigger] rows[i].rva <= rva,
        k + 1 < rows.len() ==> rows[k + 1].rva > rva,
        j == k + 1 && k >= 0 ==> acc.reg == rows[k].cfa_reg && acc.off == rows[k].cfa_off,
    ensures
        k >= 0 ==> rows_fold(rows, j, rva, acc, max_reg).reg == rows[k].cfa_reg && rows_fold(rows, j, rva, acc, max_reg).off
            == rows[k].cfa_off,
        k < 0 ==> rows_fold(rows, j, rva, acc, max_reg).reg == acc.reg && rows_fold(rows, j, rva, acc, max_reg).off == acc.off,
    decreases rows.len() - j,
{
    if j <= k {
        let next = regs_fold(rows[j].regs, 0, CfaAcc { reg: rows[j].cfa_reg, off: rows[j].cfa_off, ..acc }, max_reg);
        lemma_regs_fold_keeps_cfa(rows[j].regs, 0, CfaAcc { reg: rows[j].cfa_reg, off: rows[j].cfa_off, ..acc }, max_reg);
        lemma_rows_fold_cfa(rows, j + 1, rva, next, max_reg, k);
    }
}

/// The CFA rule in force at `rva` is that of the last row of the run of
/// rows from the first one that start at or below `rva` (for rows in
/// address order, the last row that starts at or below `rva`); before the
/// first row there is no rule (register 0, offset 0). Register rules never
/// change the CFA rule.
pub proof fn lemma_unwind_cfa_rule(rows: Seq<FrameRow>, rva: u64, offsets: Seq<i16>, k: int)
    requires
        -1 <= k < rows.len(),
        forall|i: int| 0 <= i <= k ==> #[trigger] rows[i].rva <= rva,
        k + 1 < rows.len() ==> rows[k + 1].rva > rva,
    ensures
        k >= 0 ==> spec_unwind(rows, rva, offsets).reg == rows[k].cfa_reg && spec_unwind(rows, rva, offsets).off
            == rows[k].cfa_off,
        k < 0 ==> spec_unwind(rows, rva, offsets).reg == 0 && spec_unwind(rows, rva, offsets).off == 0,
{
    lemma_rows_fold_cfa(rows, 0, rva, CfaAcc { reg: 0, off: 0, mask: 0, offsets }, offsets.len() as u8, k);
}

/// Rows `0..=k` all start at or below `rva`, so unwinding to `rva` applies
/// row `k`.
pub open spec fn row_reached(rows: Seq<FrameRow>, k: int, rva: u64) -> bool {
    0 <= k < rows.len() && forall|i: int| 0 <= i <= k ==> #[trigger] rows[i].rva <= rva
}

/// Every offset or undefined rule that unwinding to `rva` applies to a
/// register below `max_reg` names a register whose bit fits in the mask.
pub open spec fn unwind_regs_fit(rows: Seq<FrameRow>, rva: u64, max_reg: u8) -> bool {
    forall|k: int, j: int|
        row_reached(rows, k, rva) && 0 <= j < rows[k].regs.len() && (#[trigger] rows[k].regs[j]).reg < max_reg && (
        rows[k].regs[j].val_type == VALUE_TYPE_UNDEFINED || rows[k].regs[j].val_type == VALUE_TYPE_OFFSET) ==> rows[k].regs[j].reg
            < 64
}

impl FrameOffset {
    /// The CFA rule in force at `rva`, recording in `reg_offsets` the CFA
    /// offset of every register saved on the stack (their bits are set in
    /// the returned mask). Only registers below the number of offsets
    /// (taken modulo 256) are looked at.
    #[verifier::loop_isolation(false)]
    pub fn unwind_to_cfa(&self, reg_offsets: &mut Vec<i16>, rva: u64) -> (c: UnwindCFA)
        requires
            unwind_regs_fit(self@.rows, rva, old(reg_offsets)@.len() as u8),
        ensures
            ({
                let acc = spec_unwind(self@.rows, rva, old(reg_offsets)@);
                c.reg == acc.reg && c.off == acc.off && c.off_mask == acc.mask && final(reg_offsets)@ == acc.offsets
            }),
    {
        let mut cfa_data = UnwindCFA::new();
        let max_reg: u8 = reg_offsets.len() as u8;
        let ghost len = reg_offsets.len();
        assert((len as u8) as usize <= len) by (bit_vector);
        let ghost rows = self@.rows;
        let ghost result = spec_unwind(rows, rva, reg_offsets@);
        let n = self.frame_states.len();
        let mut k: usize = 0;
        while k < n && self.frame_states[k].rva <= rva
            invariant
                k <= n,
                n == self.frame_states@.len(),
                reg_offsets@.len() == old(reg_offsets)@.len(),
                max_reg == old(reg_offsets)@.len() as u8,
                max_reg <= old(reg_offsets)@.len(),
                unwind_regs_fit(rows, rva, max_reg),
                forall|i: int| 0 <= i < k ==> #[trigger] rows[i].rva <= rva,
                result == rows_fold(rows, k as int, rva, CfaAcc { reg: cfa_data.reg, off: cfa_data.off, mask: cfa_data.off_mask, offsets: reg_offsets@ }, max_reg),
            decreases n - k,
        {
            let state = &self.frame_states[k];
            assert(rows[k as int] == state@);
            assert(row_reached(rows, k as int, rva));
            cfa_data.reg = state.cfa_reg;
            cfa_data.off = state.cfa_off;
            let m = state.reg_states.len();
            let mut j: usize = 0;
            let ghost start_acc = CfaAcc { reg: cfa_data.reg, off: cfa_data.off, mask: cfa_data.off_mask, offsets: reg_offsets@ };
            let ghost row_result = regs_fold(state.reg_states@, 0, start_acc, max_reg);
            while j < m
                invariant
                    j <= m,
                    m == state.reg_states@.len(),
                    reg_offsets@.len() == old(reg_offsets)@.len(),
                    row_result == regs_fold(state.reg_states@, j as int, CfaAcc { reg: cfa_data.reg, off: cfa_data.off, mask: cfa_data.off_mask, offsets: reg_offsets@ }, max_reg),
                decreases m - j,
            {
                let rs = state.reg_states[j];
                if rs.reg < max_reg {
                    if rs.val_type == VALUE_TYPE_UNDEFINED {
                        cfa_data.off_mask = cfa_data.off_mask & !(1u64 << rs.reg as u64);
                    } else if rs.val_type == VALUE_TYPE_OFFSET {
                        reg_offsets.set(rs.reg as usize, rs.val);
                        cfa_data.off_mask = cfa_data.off_mask | (1u64 << rs.reg as u64);
                    }
                }
                j = j + 1;
            }
            k = k + 1;
        }
        cfa_data
    }

    /// The index of the entry that covers `rva`: the last entry whose start
    /// address is at most `rva`, found by binary search over entries sorted
    /// by start address.
    pub fn find(rva: u64, offsets: &Vec<FrameOffset>) -> (r: Option<usize>)
        ensures
            r matches Some(i) ==> i < offsets@.len() && offsets@[i as int]@.rva <= rva && (i + 1 == offsets@.len()
                || offsets@[i + 1]@.rva > rva),
            r is None ==> offsets@.len() == 0 || offsets@[0]@.rva > rva,
            (forall|a: int, b: int| 0 <= a <= b < offsets@.len() ==> offsets@[a]@.rva <= offsets@[b]@.rva) ==> (r is None
                <==> (offsets@.len() == 0 || offsets@[0]@.rva > rva)),
    {
        if offsets.len() == 0 {
            return None;
        }
        let mut lo: usize = 0;
        let mut hi: usize = offsets.len();
        while lo < hi
            invariant
                lo <= hi <= offsets@.len(),
                lo > 0 ==> offsets@[lo - 1]@.rva <= rva,
                hi < offsets@.len() ==> offsets@[hi as int]@.rva > rva,
                (forall|a: int, b: int| 0 <= a <= b < offsets@.len() ==> offsets@[a]@.rva <= offsets@[b]@.rva) ==> (
                    offsets@[0]@.rva <= rva ==> hi > 0),
            decreases hi - lo,
        {
            let mid = lo + (hi - lo) / 2;
            if offsets[mid].rva <= rva {
                lo = mid + 1;
            } else {
                hi = mid;
            }
        }
        let index = if lo > 0 { lo - 1 } else { 0 };
        if offsets[index].rva <= rva {
            Some(index)
        } else {
            None
        }
    }
}


/// A section of an ELF image: where it lies and its name.
pub struct SectionMetadata {
    pub offset: u64,
    pub size: u64,
    pub name: Vec<u8>,
}

/// The view of a freshly created lookup entry.
pub open spec fn fresh_offset(rva: u64, fde: u64) -> FrameOffsetView {
    FrameOffsetView { rva, fde, pc_size: 0, state: STATE_UNPARSED, ret_reg: 0, rows: Seq::empty() }
}

/// The views of a sequence of lookup entries.
pub open spec fn offsets_view(v: Seq<FrameOffset>) -> Seq<FrameOffsetView> {
    v.map_values(|o: FrameOffset| o@)
}

/// The (start address, FDE position) pairs of `remaining` table entries
/// from `pos` on, and the error that stopped the reading, if any. FDE
/// positions are made relative to the `.eh_frame` section (wrapping).
pub open spec fn spec_loc_entries(
    b: Seq<u8>,
    enc: u8,
    data: i64,
    pos: int,
    remaining: int,
    sec_ptr: u64,
    eh_offset: u64,
) -> (Seq<(u64, u64)>, Option<UnwindError>)
    decreases remaining,
{
    if remaining <= 0 {
        (Seq::empty(), None)
    } else {
        match spec_read_value(enc, data, b, pos) {
            Err(x) => (Seq::empty(), Some(x)),
            Ok((rva, p1)) => match spec_read_value(enc, data, b, p1) {
                Err(x) => (Seq::empty(), Some(x)),
                Ok((fde, p2)) => {
                    let e = (rva as u64, eh_offset.wrapping_add((fde as u64).wrapping_sub(sec_ptr)));
                    let rest = spec_loc_entries(b, enc, data, p2, remaining - 1, sec_ptr, eh_offset);
                    (seq![e] + rest.0, rest.1)
                },
            },
        }
    }
}

/// The entries of the `.eh_frame_hdr` lookup table held in
/// `image[offset..offset + size]`: version 1, then the encodings of the
/// section pointer, the entry count and the table; an unknown version or an
/// omitted encoding gives no entries.
pub open spec fn spec_loc_table(image: Seq<u8>, offset: u64, size: u64, eh_offset: u64) -> (Seq<(u64, u64)>, Option<UnwindError>) {
    if offset + size > image.len() {
        (Seq::empty(), Some(UnwindError::UnexpectedEof))
    } else {
        let b = image.subrange(offset as int, offset + size);
        if b.len() == 0 {
            (Seq::empty(), Some(UnwindError::Truncated))
        } else if b[0] != 1 {
            (Seq::empty(), None)
        } else if b.len() < 4 {
            (Seq::empty(), Some(UnwindError::Truncated))
        } else if b[1] == DW_EH_PE_OMIT || b[2] == DW_EH_PE_OMIT || b[3] == DW_EH_PE_OMIT {
            (Seq::empty(), None)
        } else {
            let data = offset as i64;
            match spec_read_value(b[1], data, b, 4) {
                Err(x) => (Seq::empty(), Some(x)),
                Ok((sec_ptr, c1)) => match spec_read_value(b[2], data, b, c1) {
                    Err(x) => (Seq::empty(), Some(x)),
                    Ok((count, c2)) => spec_loc_entries(b, b[3], data, c2, count as int, sec_ptr as u64, eh_offset),
                },
            }
        }
    }
}

/// A pointer in the table encoding `0x03` (a four-byte absolute value).
proof fn lemma_udata4_value(data: i64, b: Seq<u8>, pos: int)
    requires
        0 <= pos,
        pos + 4 <= b.len(),
    ensures
        spec_read_value(0x03u8, data, b, pos) == Ok::<(i64, int), UnwindError>((le32_at(b, pos) as i64, pos + 4)),
{
    assert(0x03u8 & DW_EH_PE_FORMAT_MASK == 0x03u8 && 0x03u8 & DW_EH_PE_APPL_MASK == 0u8) by (bit_vector);
}

proof fn lemma_udata4_entries(b: Seq<u8>, data: i64, pos: int, remaining: int, sec_ptr: u64, eh_offset: u64)
    requires
        0 <= pos,
        0 <= remaining,
        pos + 8 * remaining <= b.len(),
    ensures
        ({
            let (entries, err) = spec_loc_entries(b, 0x03u8, data, pos, remaining, sec_ptr, eh_offset);
            &&& err is None
            &&& entries.len() == remaining
            &&& forall|k: int|
                0 <= k < remaining ==> #[trigger] entries[k] == (
                    le32_at(b, pos + 8 * k) as u64,
                    eh_offset.wrapping_add((le32_at(b, pos + 8 * k + 4) as u64).wrapping_sub(sec_ptr)),
                )
        }),
    decreases remaining,
{
    if remaining > 0 {
        lemma_udata4_value(data, b, pos);
        lemma_udata4_value(data, b, pos + 4);
        lemma_udata4_entries(b, data, pos + 8, remaining - 1, sec_ptr, eh_offset);
        let rest = spec_loc_entries(b, 0x03u8, data, pos + 8, remaining - 1, sec_ptr, eh_offset).0;
        let (entries, _err) = spec_loc_entries(b, 0x03u8, data, pos, remaining, sec_ptr, eh_offset);
        assert forall|k: int| 1 <= k < remaining implies #[trigger] entries[k] == (
            le32_at(b, pos + 8 * k) as u64,
            eh_offset.wrapping_add((le32_at(b, pos + 8 * k + 4) as u64).wrapping_sub(sec_ptr)),
        ) by {
            assert(entries[k] == rest[k - 1]);
            assert(pos + 8 + 8 * (k - 1) == pos + 8 * k);
        }
    }
}

/// The lookup table of an `.eh_frame_hdr` whose pointers are all four-byte
/// absolute values (encodings 0x03): the header's bytes are the version,
/// the three encodings, the `.eh_frame` pointer and the entry count, then
/// one row of (start address, FDE address) per entry. Each entry gives the
/// row's start address and the FDE's position in the image: the offset of
/// the `.eh_frame` section plus the FDE address's distance from the
/// `.eh_frame` pointer (wrapping).
pub proof fn lemma_udata4_loc_table(image: Seq<u8>, offset: u64, size: u64, eh_offset: u64)
    requires
        offset + size <= image.len(),
        size >= 12,
        image[offset as int] == 1,
        image[offset + 1] == 0x03u8,
        image[offset + 2] == 0x03u8,
        image[offset + 3] == 0x03u8,
        12 + 8 * le32_at(image.subrange(offset as int, offset + size), 8) <= size,
    ensures
        ({
            let b = image.subrange(offset as int, offset + size);
            let count = le32_at(b, 8) as int;
            let (entries, err) = spec_loc_table(image, offset, size, eh_offset);
            &&& err is None
            &&& entries.len() == count
            &&& forall|k: int|
                0 <= k < count ==> #[trigger] entries[k] == (
                    le32_at(b, 12 + 8 * k) as u64,
                    eh_offset.wrapping_add((le32_at(b, 16 + 8 * k) as u64).wrapping_sub(le32_at(b, 4) as u64)),
                )
        }),
{
    let b = image.subrange(offset as int, offset + size);
    let data = offset as i64;
    lemma_udata4_value(data, b, 4);
    lemma_udata4_value(data, b, 8);
    let count = le32_at(b, 8) as int;
    lemma_udata4_entries(b, data, 12, count, le32_at(b, 4) as i64 as u64, eh_offset);
    let (entries, _err) = spec_loc_table(image, offset, size, eh_offset);
    assert(le32_at(b, 4) as i64 as u64 == le32_at(b, 4) as u64);
    assert forall|k: int| 0 <= k < count implies #[trigger] entries[k] == (
        le32_at(b, 12 + 8 * k) as u64,
        eh_offset.wrapping_add((le32_at(b, 16 + 8 * k) as u64).wrapping_sub(le32_at(b, 4) as u64)),
    ) by {
        assert(12 + 8 * k + 4 == 16 + 8 * k);
    }
}

proof fn lemma_loc_entries_shift(b: Seq<u8>, enc: u8, data: i64, pos: int, remaining: int, sec_ptr: u64, eh_offset: u64)
    ensures
        ({
            let (moved, err) = spec_loc_entries(b, enc, data, pos, remaining, sec_ptr, eh_offset);
            let (based, err0) = spec_loc_entries(b, enc, data, pos, remaining, sec_ptr, 0);
            &&& err == err0
            &&& moved.len() == based.len()
            &&& forall|k: int| 0 <= k < moved.len() ==> #[trigger] moved[k] == (based[k].0, eh_offset.wrapping_add(based[k].1))
        }),
    decreases remaining,
{
    if remaining > 0 {
        match spec_read_value(enc, data, b, pos) {
            Err(_) => {},
            Ok((_rva, p1)) => match spec_read_value(enc, data, b, p1) {
                Err(_) => {},
                Ok((_fde, p2)) => {
                    lemma_loc_entries_shift(b, enc, data, p2, remaining - 1, sec_ptr, eh_offset);
                    let (moved, _e) = spec_loc_entries(b, enc, data, pos, remaining, sec_ptr, eh_offset);
                    let (based, _e0) = spec_loc_entries(b, enc, data, pos, remaining, sec_ptr, 0);
                    let mr = spec_loc_entries(b, enc, data, p2, remaining - 1, sec_ptr, eh_offset).0;
                    let br = spec_loc_entries(b, enc, data, p2, remaining - 1, sec_ptr, 0).0;
                    assert forall|k: int| 1 <= k < moved.len() implies #[trigger] moved[k] == (
                        based[k].0,
                        eh_offset.wrapping_add(based[k].1),
                    ) by {
                        assert(moved[k] == mr[k - 1]);
                        assert(based[k] == br[k - 1]);
                    }
                },
            },
        }
    }
}

/// Where `.eh_frame` lies decides only the FDE positions: reading the same
/// lookup table with the `.eh_frame` section at `eh_offset` instead of at 0
/// gives the same start addresses, the same error, and every FDE position
/// moved up by `eh_offset` (wrapping).
pub proof fn lemma_loc_table_follows_eh_frame(image: Seq<u8>, offset: u64, size: u64, eh_offset: u64)
    ensures
        ({
            let (moved, err) = spec_loc_table(image, offset, size, eh_offset);
            let (based, err0) = spec_loc_table(image, offset, size, 0);
            &&& err == err0
            &&& moved.len() == based.len()
            &&& forall|k: int|
                0 <= k < moved.len() ==> #[trigger] moved[k].0 == based[k].0 && moved[k].1 == eh_offset.wrapping_add(based[k].1)
        }),
{
    if offset + size <= image.len() {
        let b = image.subrange(offset as int, offset + size);
        if b.len() >= 4 && b[0] == 1 && b[1] != DW_EH_PE_OMIT && b[2] != DW_EH_PE_OMIT && b[3] != DW_EH_PE_OMIT {
            let data = offset as i64;
            match spec_read_value(b[1], data, b, 4) {
                Err(_) => {},
                Ok((sec_ptr, c1)) => match spec_read_value(b[2], data, b, c1) {
                    Err(_) => {},
                    Ok((count, c2)) => {
                        lemma_loc_entries_shift(b, b[3], data, c2, count as int, sec_ptr as u64, eh_offset);
                    },
                },
            }
        }
    }
}

/// Reads `count` table rows from `start`, appending an unparsed entry for each.
fn read_loc_entries(
    b: &[u8],
    table_enc: u8,
    data: i64,
    start: usize,
    count: i64,
    sec_ptr: u64,
    eh_offset: u64,
    offsets: &mut Vec<FrameOffset>,
) -> (r: Result<(), UnwindError>)
    ensures
        ({
            let (entries, err) = spec_loc_entries(b@, table_enc, data, start as int, count as int, sec_ptr, eh_offset);
            &&& offsets_view(final(offsets)@) == offsets_view(old(offsets)@) + entries.map_values(
                |e: (u64, u64)| fresh_offset(e.0, e.1),
            )
            &&& match err {
                Some(x) => r == Err::<(), UnwindError>(x),
                None => r is Ok,
            }
        }),
{
    let ghost old_view = offsets_view(offsets@);
    let ghost mut done: Seq<(u64, u64)> = Seq::empty();
    let mut cursor = start;
    let mut i: i64 = 0;
    while i < count
        invariant
            0 <= i,
            i <= count || count < 0,
            done.len() == i,
            old_view == offsets_view(old(offsets)@),
            offsets_view(offsets@) == old_view + done.map_values(|e: (u64, u64)| fresh_offset(e.0, e.1)),
            spec_loc_entries(b@, table_enc, data, start as int, count as int, sec_ptr, eh_offset).0 == done
                + spec_loc_entries(b@, table_enc, data, cursor as int, count - i, sec_ptr, eh_offset).0,
            spec_loc_entries(b@, table_enc, data, start as int, count as int, sec_ptr, eh_offset).1
                == spec_loc_entries(b@, table_enc, data, cursor as int, count - i, sec_ptr, eh_offset).1,
        decreases count - i,
    {
        let ghost before = offsets_view(offsets@);
        proof {
            assert(done + Seq::<(u64, u64)>::empty() =~= done);
        }
        let rva = read_value(table_enc, data, b, &mut cursor)? as u64;
        let fde = read_value(table_enc, data, b, &mut cursor)? as u64;
        let fde = eh_offset.wrapping_add(fde.wrapping_sub(sec_ptr));
        offsets.push(FrameOffset::new(rva, fde));
        proof {
            let e = (rva, fde);
            assert(offsets_view(offsets@) =~= before.push(fresh_offset(rva, fde)));
            assert(done.push(e).map_values(|e: (u64, u64)| fresh_offset(e.0, e.1)) =~= done.map_values(
                |e: (u64, u64)| fresh_offset(e.0, e.1),
            ).push(fresh_offset(rva, fde)));
            assert(done + seq![e] + spec_loc_entries(b@, table_enc, data, cursor as int, count - i - 1, sec_ptr, eh_offset).0
                =~= done.push(e) + spec_loc_entries(b@, table_enc, data, cursor as int, count - i - 1, sec_ptr, eh_offset).0);
            done = done.push(e);
        }
        i = i + 1;
    }
    assert(done + Seq::<(u64, u64)>::empty() =~= done);
    Ok(())
}

/// Reads the lookup table of the `.eh_frame_hdr` section `metadata`,
/// appending one unparsed entry per table row to `offsets`.
fn parse_loc_table(
    image: &[u8],
    metadata: &SectionMetadata,
    eh_offset: u64,
    offsets: &mut Vec<FrameOffset>,
    buf: &mut Vec<u8>,
) -> (r: Result<(), UnwindError>)
    ensures
        ({
            let (entries, err) = spec_loc_table(image@, metadata.offset, metadata.size, eh_offset);
            &&& offsets_view(final(offsets)@) == offsets_view(old(offsets)@) + entries.map_values(
                |e: (u64, u64)| fresh_offset(e.0, e.1),
            )
            &&& match err {
                Some(x) => r == Err::<(), UnwindError>(x),
                None => r is Ok,
            }
        }),
{
    if metadata.offset > image.len() as u64 || metadata.size > image.len() as u64 - metadata.offset {
        return Err(UnwindError::UnexpectedEof);
    }
    let start = metadata.offset as usize;
    let end = start + metadata.size as usize;
    buf.clear();
    buf.extend_from_slice(&image[start..end]);
    let b = buf.as_slice();
    assert(b@ =~= image@.subrange(metadata.offset as int, metadata.offset + metadata.size));
    if b.len() == 0 {
        return Err(UnwindError::Truncated);
    }
    if b[0] != 1 {
        return Ok(());
    }
    if b.len() < 4 {
        return Err(UnwindError::Truncated);
    }
    let section_enc = b[1];
    let count_enc = b[2];
    let table_enc = b[3];
    if section_enc == DW_EH_PE_OMIT || count_enc == DW_EH_PE_OMIT || table_enc == DW_EH_PE_OMIT {
        return Ok(());
    }
    let mut cursor: usize = 4;
    let data: i64 = metadata.offset as i64;
    let sec_ptr = read_value(section_enc, data, b, &mut cursor)? as u64;
    let count = read_value(count_enc, data, b, &mut cursor)?;
    read_loc_entries(b, table_enc, data, cursor, count, sec_ptr, eh_offset, offsets)
}

/// The bytes of the name `.eh_frame`.
pub open spec fn eh_frame_name() -> Seq<u8> {
    seq![0x2eu8, 0x65u8, 0x68u8, 0x5fu8, 0x66u8, 0x72u8, 0x61u8, 0x6du8, 0x65u8]
}

/// The bytes of the name `.eh_frame_hdr`.
pub open spec fn eh_frame_hdr_name() -> Seq<u8> {
    eh_frame_name() + seq![0x5fu8, 0x68u8, 0x64u8, 0x72u8]
}

fn bytes_equal(a: &[u8], b: &[u8]) -> (r: bool)
    ensures
        r == (a@ == b@),
{
    if a.len() != b.len() {
        return false;
    }
    let mut i: usize = 0;
    while i < a.len()
        invariant
            i <= a@.len(),
            a@.len() == b@.len(),
            forall|k: int| 0 <= k < i ==> a@[k] == b@[k],
        decreases a.len() - i,
    {
        if a[i] != b[i] {
            return false;
        }
        i = i + 1;
    }
    assert(a@ =~= b@);
    true
}

/// Index of the first section named `name`.
pub open spec fn first_named(sections: Seq<SectionMetadata>, name: Seq<u8>) -> Option<int> {
    if exists|i: int| 0 <= i < sections.len() && sections[i].name@ == name {
        Some(choose|i: int| 0 <= i < sections.len() && sections[i].name@ == name
            && forall|j: int| 0 <= j < i ==> sections[j].name@ != name)
    } else {
        None
    }
}

fn find_named(sections: &Vec<SectionMetadata>, name: &[u8]) -> (r: Option<usize>)
    ensures
        r matches Some(i) ==> i < sections@.len() && sections@[i as int].name@ == name@ && forall|j: int|
            0 <= j < i ==> sections@[j].name@ != name@,
        r is None ==> forall|j: int| 0 <= j < sections@.len() ==> sections@[j].name@ != name@,
{
    let mut i: usize = 0;
    while i < sections.len()
        invariant
            i <= sections@.len(),
            forall|j: int| 0 <= j < i ==> sections@[j].name@ != name@,
        decreases sections.len() - i,
    {
        if bytes_equal(sections[i].name.as_slice(), name) {
            return Some(i);
        }
        i = i + 1;
    }
    None
}

/// Buffers for reading frame tables.
pub struct FrameHeaderTable {
    fde_buf: Vec<u8>,
    cie_buf: Vec<u8>,
}

impl FrameHeaderTable {
    pub fn new() -> Self {
        FrameHeaderTable { fde_buf: Vec::new(), cie_buf: Vec::new() }
    }

    /// Loads the rules of `offset` from `image`; the entry is valid
    /// afterwards exactly when this succeeds.
    pub fn parse_offset(&mut self, image: &[u8], offset: &mut FrameOffset) -> (r: Result<(), UnwindError>)
        ensures
            final(offset)@.rva == old(offset)@.rva,
            final(offset)@.fde == old(offset)@.fde,
            match spec_load_rules(image@, old(offset)@.fde) {
                Ok(lr) => r is Ok && final(offset)@.state == STATE_VALID && final(offset)@.pc_size == lr.pc_size
                    && final(offset)@.ret_reg == lr.ret_reg && final(offset)@.rows == old(offset)@.rows + lr.rows,
                Err(x) => r == Err::<(), UnwindError>(x) && final(offset)@.state == STATE_INVALID,
            },
    {
        offset.load_rules(image, &mut self.fde_buf, &mut self.cie_buf)
    }

    /// Reads the frame lookup table of `image`, whose sections are
    /// `sections`: the first `.eh_frame_hdr` section's table is appended to
    /// `frame_offsets`, with FDE positions based at the first `.eh_frame`
    /// section (0 when there is none). Nothing is added when there is no
    /// `.eh_frame_hdr` section.
    pub fn parse(&mut self, image: &[u8], sections: &Vec<SectionMetadata>, frame_offsets: &mut Vec<FrameOffset>) -> (r: Result<(), UnwindError>)
        ensures
            ({
                let eh_offset = match first_named(sections@, eh_frame_name()) {
                    Some(i) => sections@[i].offset,
                    None => 0u64,
                };
                match first_named(sections@, eh_frame_hdr_name()) {
                    None => r is Ok && offsets_view(final(frame_offsets)@) == offsets_view(old(frame_offsets)@),
                    Some(h) => {
                        let (entries, err) = spec_loc_table(image@, sections@[h].offset, sections@[h].size, eh_offset);
                        &&& offsets_view(final(frame_offsets)@) == offsets_view(old(frame_offsets)@) + entries.map_values(
                            |e: (u64, u64)| fresh_offset(e.0, e.1),
                        )
                        &&& match err {
                            Some(x) => r == Err::<(), UnwindError>(x),
                            None => r is Ok,
                        }
                    },
                }
            }),
    {
        let eh_name = vec![0x2eu8, 0x65u8, 0x68u8, 0x5fu8, 0x66u8, 0x72u8, 0x61u8, 0x6du8, 0x65u8];
        let hdr_name = vec![0x2eu8, 0x65u8, 0x68u8, 0x5fu8, 0x66u8, 0x72u8, 0x61u8, 0x6du8, 0x65u8, 0x5fu8, 0x68u8, 0x64u8, 0x72u8];
        assert(eh_name@ =~= eh_frame_name());
        assert(hdr_name@ =~= eh_frame_hdr_name());
        let eh_offset: u64 = match find_named(sections, eh_name.as_slice()) {
            Some(i) => sections[i].offset,
            None => 0,
        };
        proof {
            match first_named(sections@, eh_frame_name()) {
                Some(i) => {
                    let j = choose|i: int| 0 <= i < sections@.len() && sections@[i].name@ == eh_frame_name()
                        && forall|j: int| 0 <= j < i ==> sections@[j].name@ != eh_frame_name();
                    assert(j == i);
                },
                None => {},
            }
        }
        match find_named(sections, hdr_name.as_slice()) {
            Some(h) => {
                parse_loc_table(image, &sections[h], eh_offset, frame_offsets, &mut self.cie_buf)
            },
            None => Ok(()),
        }
    }
}

} // verus!
