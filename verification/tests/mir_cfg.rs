use yktrace::trace_mapping::bytes::{native_endian, order_of_probe, Endian, SectionCursor};
use yktrace::trace_mapping::errors::TraceMappingError;
use yktrace::trace_mapping::mir_cfg::{
    cursor_from_section, find_section, MirCfg, TerminatorKind, _KnownMirLoc, ABORT, ASSERT_WITH_CLEANUP,
    CALL_NO_CLEANUP, CALL_UNKNOWN_WITH_CLEANUP, CALL_WITH_CLEANUP, DROP_AND_REPLACE_NO_UNWIND,
    DROP_WITH_UNWIND, FALSE_UNWIND, GENERATOR_DROP, GOTO, MIR_CFG_SECTION_NAME, NO_MIR, RETURN,
    SENTINAL, SWITCHINT, YIELD_WITH_DROP,
};
use yktrace::trace_mapping::MirLoc;

/// Builds a section in a byte order.
struct Section {
    big: bool,
    bytes: Vec<u8>,
}

impl Section {
    fn new(big: bool) -> Self {
        let mut s = Section { big, bytes: Vec::new() };
        s.u16(0);
        s
    }
    fn u8(&mut self, v: u8) -> &mut Self {
        self.bytes.push(v);
        self
    }
    fn u16(&mut self, v: u16) -> &mut Self {
        let b = if self.big { v.to_be_bytes() } else { v.to_le_bytes() };
        self.bytes.extend_from_slice(&b);
        self
    }
    fn u32(&mut self, v: u32) -> &mut Self {
        let b = if self.big { v.to_be_bytes() } else { v.to_le_bytes() };
        self.bytes.extend_from_slice(&b);
        self
    }
    fn u64(&mut self, v: u64) -> &mut Self {
        let b = if self.big { v.to_be_bytes() } else { v.to_le_bytes() };
        self.bytes.extend_from_slice(&b);
        self
    }
    fn loc(&mut self, kind: u8, hash: u64, idx: u32, bb: u32) -> &mut Self {
        self.u8(kind).u64(hash).u32(idx).u32(bb)
    }
}

fn parse(bytes: &[u8], order: Endian) -> Result<MirCfg, TraceMappingError> {
    let mut curs = SectionCursor::new(bytes, 0);
    MirCfg::parse(&mut curs, order)
}

fn has_mir(cfg: &MirCfg, loc: MirLoc) -> TerminatorKind {
    match cfg._get(&loc) {
        Ok(_KnownMirLoc::HasMir(t)) => t.clone(),
        _ => panic!("no MIR for the location"),
    }
}

#[test]
fn section_name() {
    assert_eq!(MIR_CFG_SECTION_NAME, ".yk_mir_cfg");
}

#[test]
fn empty_section_little_and_big() {
    for big in [false, true] {
        let mut s = Section::new(big);
        s.u8(SENTINAL);
        let order = if big { Endian::Big } else { Endian::Little };
        let cfg = parse(&s.bytes, order).unwrap();
        assert!(cfg._get(&MirLoc::new(1, 2, 3)).is_err());
    }
}

#[test]
fn goto_record_is_found() {
    let mut s = Section::new(false);
    s.loc(GOTO, 0xAABB, 7, 1).u32(5).u8(SENTINAL);
    let cfg = parse(&s.bytes, Endian::Little).unwrap();
    assert_eq!(has_mir(&cfg, MirLoc::new(0xAABB, 7, 1)), TerminatorKind::Goto { target_bb: 5 });
    assert!(cfg._get(&MirLoc::new(0xAABB, 7, 2)).is_err());
}

#[test]
fn big_endian_fields() {
    let mut s = Section::new(true);
    s.loc(GOTO, 0x0102_0304_0506_0708, 0x0A0B_0C0D, 9).u32(0x1122_3344).u8(SENTINAL);
    let cfg = parse(&s.bytes, Endian::Big).unwrap();
    assert_eq!(
        has_mir(&cfg, MirLoc::new(0x0102_0304_0506_0708, 0x0A0B_0C0D, 9)),
        TerminatorKind::Goto { target_bb: 0x1122_3344 }
    );
    // Read in the other order, the same bytes name another block.
    let other = parse(&s.bytes, Endian::Little).unwrap();
    assert!(other._get(&MirLoc::new(0x0102_0304_0506_0708, 0x0A0B_0C0D, 9)).is_err());
    assert_eq!(
        has_mir(&other, MirLoc::new(0x0807_0605_0403_0201, 0x0D0C_0B0A, 0x0900_0000)),
        TerminatorKind::Goto { target_bb: 0x4433_2211 }
    );
}

#[test]
fn switch_record_reads_its_targets() {
    let mut s = Section::new(false);
    s.loc(SWITCHINT, 1, 2, 3).u64(3).u32(10).u32(20).u32(30);
    s.loc(SWITCHINT, 1, 2, 4).u64(0);
    s.u8(SENTINAL);
    let cfg = parse(&s.bytes, Endian::Little).unwrap();
    assert_eq!(
        has_mir(&cfg, MirLoc::new(1, 2, 3)),
        TerminatorKind::SwitchInt { targets: vec![10, 20, 30] }
    );
    assert_eq!(has_mir(&cfg, MirLoc::new(1, 2, 4)), TerminatorKind::SwitchInt { targets: vec![] });
}

#[test]
fn every_record_kind() {
    let mut s = Section::new(false);
    s.loc(ABORT, 1, 1, 0);
    s.loc(RETURN, 1, 1, 1);
    s.loc(DROP_WITH_UNWIND, 1, 1, 2).u32(4).u32(9);
    s.loc(DROP_AND_REPLACE_NO_UNWIND, 1, 1, 3).u32(6);
    s.loc(CALL_NO_CLEANUP, 1, 1, 4).u64(77).u32(8);
    s.loc(CALL_WITH_CLEANUP, 1, 1, 5).u64(78).u32(9).u32(11);
    s.loc(CALL_UNKNOWN_WITH_CLEANUP, 1, 1, 6).u32(12);
    s.loc(ASSERT_WITH_CLEANUP, 1, 1, 7).u32(13).u32(14);
    s.loc(GENERATOR_DROP, 1, 1, 8);
    s.loc(FALSE_UNWIND, 1, 1, 9).u32(15);
    s.u8(SENTINAL);
    let cfg = parse(&s.bytes, Endian::Little).unwrap();
    let at = |bb| has_mir(&cfg, MirLoc::new(1, 1, bb));
    assert_eq!(at(0), TerminatorKind::Abort);
    assert_eq!(at(1), TerminatorKind::Return);
    assert_eq!(at(2), TerminatorKind::Drop { target_bb: 4, unwind_bb: Some(9) });
    assert_eq!(at(3), TerminatorKind::DropAndReplace { target_bb: 6, unwind_bb: None });
    assert_eq!(at(4), TerminatorKind::Call { target: Some((77, 8)), cleanup_bb: None });
    assert_eq!(at(5), TerminatorKind::Call { target: Some((78, 9)), cleanup_bb: Some(11) });
    assert_eq!(at(6), TerminatorKind::Call { target: None, cleanup_bb: Some(12) });
    assert_eq!(at(7), TerminatorKind::Assert { target_bb: 13, cleanup_bb: Some(14) });
    assert_eq!(at(8), TerminatorKind::GeneratorDrop);
    assert_eq!(at(9), TerminatorKind::FalseUnwind { real_target_bb: 15 });
}

#[test]
fn yield_with_drop_has_no_drop_block() {
    let mut s = Section::new(false);
    s.loc(YIELD_WITH_DROP, 3, 3, 3).u32(21).u8(SENTINAL);
    let cfg = parse(&s.bytes, Endian::Little).unwrap();
    assert_eq!(
        has_mir(&cfg, MirLoc::new(3, 3, 3)),
        TerminatorKind::Yield { resume_bb: 21, drop_bb: None }
    );
}

#[test]
fn no_mir_definitions() {
    let mut s = Section::new(false);
    s.u8(NO_MIR).u64(42).u32(6).u8(SENTINAL);
    let cfg = parse(&s.bytes, Endian::Little).unwrap();
    assert!(matches!(cfg._get(&MirLoc::new(42, 6, 0)), Ok(_KnownMirLoc::NoMir)));
    assert!(matches!(cfg._get(&MirLoc::new(42, 6, 99)), Ok(_KnownMirLoc::NoMir)));
    assert!(cfg._get(&MirLoc::new(42, 7, 0)).is_err());
}

#[test]
fn block_with_mir_wins_over_no_mir() {
    let mut s = Section::new(false);
    s.u8(NO_MIR).u64(42).u32(6);
    s.loc(RETURN, 42, 6, 1).u8(SENTINAL);
    let cfg = parse(&s.bytes, Endian::Little).unwrap();
    assert_eq!(has_mir(&cfg, MirLoc::new(42, 6, 1)), TerminatorKind::Return);
    assert!(matches!(cfg._get(&MirLoc::new(42, 6, 2)), Ok(_KnownMirLoc::NoMir)));
}

#[test]
fn identical_duplicate_is_accepted() {
    let mut s = Section::new(false);
    s.loc(GOTO, 5, 5, 5).u32(1);
    s.loc(GOTO, 5, 5, 5).u32(1);
    s.u8(SENTINAL);
    let cfg = parse(&s.bytes, Endian::Little).unwrap();
    assert_eq!(has_mir(&cfg, MirLoc::new(5, 5, 5)), TerminatorKind::Goto { target_bb: 1 });
}

#[test]
fn conflicting_duplicate_is_refused() {
    let mut s = Section::new(false);
    s.loc(GOTO, 5, 5, 5).u32(1);
    s.loc(GOTO, 5, 5, 5).u32(2);
    s.u8(SENTINAL);
    assert_eq!(parse(&s.bytes, Endian::Little).err(), Some(TraceMappingError::ConflictingTerminator));
    let mut t = Section::new(false);
    t.loc(SWITCHINT, 5, 5, 5).u64(1).u32(1);
    t.loc(SWITCHINT, 5, 5, 5).u64(2).u32(1).u32(2);
    t.u8(SENTINAL);
    assert_eq!(parse(&t.bytes, Endian::Little).err(), Some(TraceMappingError::ConflictingTerminator));
}

#[test]
fn version_mismatch() {
    let mut s = Section { big: false, bytes: Vec::new() };
    s.u16(1).u8(SENTINAL);
    assert_eq!(parse(&s.bytes, Endian::Little).err(), Some(TraceMappingError::VersionMismatch));
}

#[test]
fn truncated_sections() {
    assert_eq!(parse(&[0], Endian::Little).err(), Some(TraceMappingError::Truncated));
    assert_eq!(parse(&[0, 0], Endian::Little).err(), Some(TraceMappingError::Truncated));
    let mut s = Section::new(false);
    s.loc(GOTO, 1, 2, 3);
    assert_eq!(parse(&s.bytes, Endian::Little).err(), Some(TraceMappingError::Truncated));
    let mut t = Section::new(false);
    t.loc(SWITCHINT, 1, 2, 3).u64(2).u32(1);
    assert_eq!(parse(&t.bytes, Endian::Little).err(), Some(TraceMappingError::Truncated));
}

#[test]
fn unknown_kind() {
    let mut s = Section::new(false);
    s.u8(21).u8(SENTINAL);
    assert_eq!(parse(&s.bytes, Endian::Little).err(), Some(TraceMappingError::UnknownKind(21)));
}

#[test]
fn records_after_the_end_marker_are_not_read() {
    let mut s = Section::new(false);
    s.u8(SENTINAL).u8(200).u8(7);
    assert!(parse(&s.bytes, Endian::Little).is_ok());
}

#[test]
fn missing_section() {
    assert_eq!(MirCfg::new(None).err(), Some(TraceMappingError::NoCfg));
    assert!(cursor_from_section(None, 0).is_err());
}

#[test]
fn native_order_section() {
    let order = native_endian();
    let mut s = Section::new(order == Endian::Big);
    s.loc(GOTO, 9, 8, 7).u32(6).u8(SENTINAL);
    let cfg = MirCfg::new(Some(&s.bytes)).unwrap();
    assert_eq!(has_mir(&cfg, MirLoc::new(9, 8, 7)), TerminatorKind::Goto { target_bb: 6 });
    assert_eq!(order == Endian::Little, u16::from_ne_bytes([1, 0]) == 1);
}

#[test]
fn cursor_reads() {
    let bytes = [1u8, 2, 3, 4, 5, 6, 7, 8, 9];
    let mut c = SectionCursor::new(&bytes, 0);
    assert_eq!(c.read_u8(), Ok(1));
    assert_eq!(c.read_u16(Endian::Little), Ok(0x0302));
    assert_eq!(c.read_u16(Endian::Big), Ok(0x0405));
    assert_eq!(c.read_u32(Endian::Little), Ok(0x0908_0706));
    assert_eq!(c.pos, 9);
    assert_eq!(c.read_u8(), Err(TraceMappingError::Truncated));
    let mut d = SectionCursor::new(&bytes, 2);
    assert_eq!(d.read_u64(Endian::Big), Err(TraceMappingError::Truncated));
    assert_eq!(d.pos, 2);
    assert_eq!(d.read_uint(7, Endian::Big), Ok(0x0003_0405_0607_0809));
    let mut e = SectionCursor::new(&bytes, 100);
    assert_eq!(e.read_u8(), Err(TraceMappingError::Truncated));
}

#[test]
fn terminator_comparison() {
    let a = TerminatorKind::SwitchInt { targets: vec![1, 2] };
    assert!(a.same_as(&TerminatorKind::SwitchInt { targets: vec![1, 2] }));
    assert!(!a.same_as(&TerminatorKind::SwitchInt { targets: vec![1] }));
    assert!(!a.same_as(&TerminatorKind::Return));
    let c = TerminatorKind::Call { target: Some((1, 2)), cleanup_bb: None };
    assert!(c.same_as(&TerminatorKind::Call { target: Some((1, 2)), cleanup_bb: None }));
    assert!(!c.same_as(&TerminatorKind::Call { target: Some((1, 3)), cleanup_bb: None }));
}

#[test]
fn mir_loc_accessors_and_keys() {
    let l = MirLoc::new(0xDEAD_BEEF, 17, 4);
    assert_eq!(l._crate_hash(), 0xDEAD_BEEF);
    assert_eq!(l._def_idx(), 17);
    assert_eq!(l._basic_block(), 4);
    assert_eq!(l.key(), (0xDEAD_BEEFu128 << 64) | (17u128 << 32) | 4);
    assert_eq!(l.def_key(), (0xDEAD_BEEFu128 << 32) | 17);
    assert_ne!(MirLoc::new(1, 0, 0).key(), MirLoc::new(0, 1, 0).key());
}

#[test]
fn probe_value_gives_the_order() {
    assert_eq!(order_of_probe(1), Endian::Little);
    assert_eq!(order_of_probe(256), Endian::Big);
}

#[test]
fn sections_by_name() {
    let mut s = Section::new(false);
    s.loc(GOTO, 4, 4, 4).u32(8).u8(SENTINAL);
    let sections = vec![
        (".text".to_string(), vec![1u8, 2, 3]),
        (MIR_CFG_SECTION_NAME.to_string(), s.bytes.clone()),
        (MIR_CFG_SECTION_NAME.to_string(), vec![9u8]),
    ];
    assert_eq!(find_section(&sections, ".text"), Some(&[1u8, 2, 3][..]));
    assert_eq!(find_section(&sections, MIR_CFG_SECTION_NAME), Some(&s.bytes[..]));
    assert_eq!(find_section(&sections, ".data"), None);
    if native_endian() == Endian::Little {
        let cfg = MirCfg::from_sections(&sections).unwrap();
        assert_eq!(has_mir(&cfg, MirLoc::new(4, 4, 4)), TerminatorKind::Goto { target_bb: 8 });
    }
    let without = vec![(".text".to_string(), vec![1u8])];
    assert_eq!(MirCfg::from_sections(&without).err(), Some(TraceMappingError::NoCfg));
}

#[test]
fn mir_loc_debug_text() {
    assert_eq!(MirLoc::new(0xAB, 7, 12).debug_text(), "MirLoc(0x000000ab, 7, 12)");
    assert_eq!(MirLoc::new(0, 0, 0).debug_text(), "MirLoc(0x00000000, 0, 0)");
    let l = MirLoc::new(0x0123_4567_89AB_CDEF, u32::MAX, 4_000_000_000);
    assert_eq!(
        l.debug_text(),
        format!("MirLoc(0x{:08x}, {}, {})", l.crate_hash, l.idx, l.bb)
    );
}
