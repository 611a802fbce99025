use one_collect::dwarf::{read_sleb, read_uleb, FrameHeaderTable, FrameOffset, UnwindCFA, UnwindError};

fn image() -> Vec<u8> {
    let mut img = Vec::new();
    /* CIE at 0: length 20, id 0, version 1, "zR", code 1, data -8, ret 16, aug len 1, enc udata4 */
    img.extend_from_slice(&20u32.to_le_bytes());
    img.extend_from_slice(&0u32.to_le_bytes());
    img.extend_from_slice(&[1, b'z', b'R', 0, 0x01, 0x78, 0x10, 0x01, 0x03]);
    /* def_cfa r7+8; offset r16 at cfa-8; nop */
    img.extend_from_slice(&[0x0c, 7, 8, 0x90, 1, 0, 0]);
    assert_eq!(24, img.len());
    /* FDE at 24: length 20, CIE pointer 28, pc 0x1000, range 0x100, aug len 0 */
    img.extend_from_slice(&20u32.to_le_bytes());
    img.extend_from_slice(&28u32.to_le_bytes());
    img.extend_from_slice(&0x1000u32.to_le_bytes());
    img.extend_from_slice(&0x100u32.to_le_bytes());
    img.push(0);
    /* advance 4; def_cfa_offset 16; offset r6 at cfa-16; nop */
    img.extend_from_slice(&[0x44, 0x0e, 16, 0x86, 2, 0, 0]);
    /* terminator */
    img.extend_from_slice(&0u32.to_le_bytes());
    img
}

#[test]
fn parse_offset_and_unwind() {
    let img = image();
    let mut table = FrameHeaderTable::new();
    let mut offset = FrameOffset::new(0x1000, 24);
    assert!(offset.is_unparsed());
    assert_eq!(Ok(()), table.parse_offset(&img, &mut offset));
    assert!(offset.is_valid());
    assert_eq!(0x100, offset.pc_size);

    let mut regs = vec![0i16; 17];
    let cfa = offset.unwind_to_cfa(&mut regs, 0x1002);
    assert_eq!((7, 8, 1u64 << 16), (cfa.reg, cfa.off, cfa.off_mask));
    assert_eq!(-8, regs[16]);

    let cfa = offset.unwind_to_cfa(&mut regs, 0x1004);
    assert_eq!((7, 16, (1u64 << 16) | (1u64 << 6)), (cfa.reg, cfa.off, cfa.off_mask));
    assert_eq!(-16, regs[6]);

    let cfa = offset.unwind_to_cfa(&mut regs, 0xfff);
    assert_eq!((0, 0, 0), (cfa.reg, cfa.off, cfa.off_mask));
}

#[test]
fn unwind_with_many_register_slots() {
    let img = image();
    let mut table = FrameHeaderTable::new();
    let mut offset = FrameOffset::new(0x1000, 24);
    assert_eq!(Ok(()), table.parse_offset(&img, &mut offset));
    let mut regs = vec![0i16; 100];
    let cfa = offset.unwind_to_cfa(&mut regs, 0x1004);
    assert_eq!((7, 16, (1u64 << 16) | (1u64 << 6)), (cfa.reg, cfa.off, cfa.off_mask));
    assert_eq!((-8, -16), (regs[16], regs[6]));
}

#[test]
fn parse_offset_rejects_bad_entries() {
    let mut img = image();
    let mut table = FrameHeaderTable::new();
    let mut offset = FrameOffset::new(0x1000, 48);
    assert_eq!(Err(UnwindError::ZeroLength), table.parse_offset(&img, &mut offset));
    assert!(!offset.is_valid());
    assert!(!offset.is_unparsed());

    img[8] = 2;
    let mut offset = FrameOffset::new(0x1000, 24);
    assert_eq!(Err(UnwindError::InvalidVersion), table.parse_offset(&img, &mut offset));
    offset.mark_invalid();
    assert!(!offset.is_valid());
}

#[test]
fn find_picks_covering_entry() {
    let offsets = vec![FrameOffset::new(0x100, 0), FrameOffset::new(0x200, 0), FrameOffset::new(0x300, 0)];
    assert_eq!(None, FrameOffset::find(0xff, &offsets));
    assert_eq!(Some(0), FrameOffset::find(0x100, &offsets));
    assert_eq!(Some(1), FrameOffset::find(0x2ff, &offsets));
    assert_eq!(Some(2), FrameOffset::find(u64::MAX, &offsets));
    assert_eq!(None, FrameOffset::find(0x100, &Vec::new()));
}

#[test]
fn leb128_values() {
    let data = [0xe5u8, 0x8e, 0x26, 0x7f, 0x80, 0x7f];
    let mut cursor = 0;
    assert_eq!(Ok(624485), read_uleb(&data, &mut cursor));
    assert_eq!(3, cursor);
    assert_eq!(Ok(-1), read_sleb(&data, &mut cursor));
    assert_eq!(Ok(-128), read_sleb(&data, &mut cursor));
    assert_eq!(6, cursor);
    assert!(read_uleb(&data, &mut cursor).is_err());
    assert_eq!(6, cursor);
}

#[test]
fn unwind_cfa_starts_empty() {
    let c = UnwindCFA::default();
    assert_eq!((0, 0, 0), (c.reg, c.off, c.off_mask));
}

use one_collect::dwarf::FrameState;

const CIE_BODY: [u8; 13] = [0, 0, 0, 0, 1, b'z', b'R', 0, 0x01, 0x78, 0x10, 0x01, 0x03];

/// An image of one CIE with body `cie` and one FDE whose body follows the
/// CIE pointer with `fde`; the FDE sits at the returned position.
fn entries(cie: &[u8], fde: &[u8]) -> (Vec<u8>, u64) {
    let mut img = Vec::new();
    img.extend_from_slice(&(cie.len() as u32).to_le_bytes());
    img.extend_from_slice(cie);
    let fde_pos = img.len() as u64;
    img.extend_from_slice(&((fde.len() + 4) as u32).to_le_bytes());
    img.extend_from_slice(&((fde_pos + 4) as u32).to_le_bytes());
    img.extend_from_slice(fde);
    img.extend_from_slice(&0u32.to_le_bytes());
    (img, fde_pos)
}

fn fde_with(instructions: &[u8]) -> Vec<u8> {
    let mut fde = Vec::new();
    fde.extend_from_slice(&0x1000u32.to_le_bytes());
    fde.extend_from_slice(&0x100u32.to_le_bytes());
    fde.push(0);
    fde.extend_from_slice(instructions);
    fde
}

fn parse(img: &[u8], fde_pos: u64) -> Result<(), UnwindError> {
    let mut table = FrameHeaderTable::new();
    let mut offset = FrameOffset::new(0x1000, fde_pos);
    let r = table.parse_offset(img, &mut offset);
    assert_eq!(r.is_ok(), offset.is_valid());
    r
}

#[test]
fn well_formed_entries_parse() {
    let (img, pos) = entries(&CIE_BODY, &fde_with(&[0x44, 0x0e, 16]));
    assert_eq!(Ok(()), parse(&img, pos));
}

#[test]
fn cie_errors() {
    let (img, pos) = entries(&[0, 0], &fde_with(&[]));
    assert_eq!(Err(UnwindError::CieTooSmall), parse(&img, pos));

    let mut cie = CIE_BODY;
    cie[0] = 1;
    let (img, pos) = entries(&cie, &fde_with(&[]));
    assert_eq!(Err(UnwindError::InvalidCie), parse(&img, pos));

    let mut cie = CIE_BODY.to_vec();
    cie.splice(8..9, [0x80, 0x80, 0x02]);
    let (img, pos) = entries(&cie, &fde_with(&[]));
    assert_eq!(Err(UnwindError::AlignmentOutOfRange), parse(&img, pos));

    let (img, pos) = entries(&[0, 0, 0, 0, 1, b'z', b'R'], &fde_with(&[]));
    assert_eq!(Err(UnwindError::Truncated), parse(&img, pos));
}

#[test]
fn entry_length_errors() {
    let (img, _) = entries(&CIE_BODY, &fde_with(&[]));
    assert_eq!(Err(UnwindError::CannotReadLength), parse(&img, img.len() as u64 - 2));

    let mut big = img.clone();
    big.extend_from_slice(&3000u32.to_le_bytes());
    big.extend_from_slice(&[0u8; 8]);
    assert_eq!(Err(UnwindError::TooLargeLength), parse(&big, img.len() as u64));

    let mut short = img.clone();
    short.extend_from_slice(&100u32.to_le_bytes());
    short.extend_from_slice(&[0u8; 8]);
    assert_eq!(Err(UnwindError::UnexpectedEof), parse(&short, img.len() as u64));
}

#[test]
fn fde_errors() {
    let mut img = Vec::new();
    img.extend_from_slice(&2u32.to_le_bytes());
    img.extend_from_slice(&[0u8; 2]);
    img.extend_from_slice(&0u32.to_le_bytes());
    assert_eq!(Err(UnwindError::FdeTooSmall), parse(&img, 0));

    let (mut img, pos) = entries(&CIE_BODY, &fde_with(&[]));
    let p = pos as usize + 4;
    img[p..p + 4].copy_from_slice(&0u32.to_le_bytes());
    assert_eq!(Err(UnwindError::InvalidCieOffset), parse(&img, pos));
}

#[test]
fn instruction_errors() {
    let (img, pos) = entries(&CIE_BODY, &fde_with(&[0x0b]));
    assert_eq!(Err(UnwindError::UnbalancedStateRestore), parse(&img, pos));

    let (img, pos) = entries(&CIE_BODY, &fde_with(&[0x0f, 0x01, 0x00]));
    assert_eq!(Err(UnwindError::CfaExpressionNotSupported), parse(&img, pos));

    let (img, pos) = entries(&CIE_BODY, &fde_with(&[0x30]));
    assert_eq!(Err(UnwindError::UnknownExtendedOpcode), parse(&img, pos));

    let (img, pos) = entries(&CIE_BODY, &fde_with(&[0x0e]));
    assert_eq!(Err(UnwindError::Truncated), parse(&img, pos));
}

#[test]
fn long_leb_is_refused() {
    let data = [0x80u8; 11];
    let mut cursor = 0;
    assert_eq!(Err(UnwindError::LebTooLong), read_uleb(&data, &mut cursor));
    assert_eq!(0, cursor);
}

#[test]
fn frame_state_range_errors() {
    let mut f = FrameState::new(0x10, 7, 8);
    assert_eq!(Err(UnwindError::RegOutOfRange), f.set_cfa_reg(256));
    assert_eq!(Ok(()), f.set_cfa_reg(6));
    assert_eq!(6, f.cfa_reg);
    assert_eq!(Err(UnwindError::OffsetOutOfRange), f.set_cfa_offset(40000));
    assert_eq!(Ok(()), f.set_cfa_offset(-16));
    assert_eq!(-16, f.cfa_off);
    assert_eq!(Err(UnwindError::RegValueOutOfRange), f.add_reg_value(300, 0, 0));
    assert_eq!(Err(UnwindError::RegValueOutOfRange), f.add_reg_value(3, 40000, 0));
    assert_eq!(Ok(()), f.add_reg_value(3, -24, 0));
    assert_eq!(1, f.reg_states.len());
}
