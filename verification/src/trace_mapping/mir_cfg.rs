//! Reading the MIR control flow graph that `ykrustc` encodes into a section of the binaries it
//! compiles.
//!
//! The section holds a 16-bit format version, then records, each a kind byte and fields in the
//! machine's byte order, up to an end marker. A location is a crate hash (64 bits), a
//! definition index (32 bits) and a basic block number (32 bits).

use std::collections::{HashMap, HashSet};
use vstd::prelude::*;

use super::bytes::{
    field, lemma_byte_ranges, lemma_value_below_range, native_endian, native_order, Endian,
    SectionCursor,
};
use super::errors::TraceMappingError;
use super::{def_key, lemma_def_key_injective, lemma_key_injective, MirLoc};

verus! {

/// The name of the section that holds the MIR CFG.
pub const MIR_CFG_SECTION_NAME: &'static str = ".yk_mir_cfg";
/// The format version this reader knows.
pub const MIR_CFG_SECTION_VERSION: u16 = 0;

// Record kinds.
pub const GOTO: u8 = 0;
pub const SWITCHINT: u8 = 1;
pub const RESUME: u8 = 2;
pub const ABORT: u8 = 3;
pub const RETURN: u8 = 4;
pub const UNREACHABLE: u8 = 5;
pub const DROP_NO_UNWIND: u8 = 6;
pub const DROP_WITH_UNWIND: u8 = 7;
pub const DROP_AND_REPLACE_NO_UNWIND: u8 = 8;
pub const DROP_AND_REPLACE_WITH_UNWIND: u8 = 9;
pub const CALL_NO_CLEANUP: u8 = 10;
pub const CALL_WITH_CLEANUP: u8 = 11;
pub const CALL_UNKNOWN_NO_CLEANUP: u8 = 12;
pub const CALL_UNKNOWN_WITH_CLEANUP: u8 = 13;
pub const ASSERT_NO_CLEANUP: u8 = 14;
pub const ASSERT_WITH_CLEANUP: u8 = 15;
pub const YIELD_NO_DROP: u8 = 16;
pub const YIELD_WITH_DROP: u8 = 17;
pub const GENERATOR_DROP: u8 = 18;
pub const FALSE_EDGES: u8 = 19;
pub const FALSE_UNWIND: u8 = 20;
/// A definition without MIR: crate hash and definition index, no block.
pub const NO_MIR: u8 = 254;
/// The end marker.
pub const SENTINAL: u8 = 255;

/// A block terminator, as the MIR CFG describes it (it mirrors rustc's type of the same name).
#[derive(Debug, Eq, PartialEq, Clone)]
pub enum TerminatorKind {
    Goto { target_bb: u32 },
    SwitchInt { targets: Vec<u32> },
    Resume,
    Abort,
    Return,
    Unreachable,
    Drop { target_bb: u32, unwind_bb: Option<u32> },
    DropAndReplace { target_bb: u32, unwind_bb: Option<u32> },
    Call { target: Option<(u64, u32)>, cleanup_bb: Option<u32> },
    Assert { target_bb: u32, cleanup_bb: Option<u32> },
    Yield { resume_bb: u32, drop_bb: Option<u32> },
    GeneratorDrop,
    FalseEdges { real_target_bb: u32 },
    FalseUnwind { real_target_bb: u32 },
}

/// A block terminator as a mathematical value: `TerminatorKind` with a sequence of switch
/// targets.
pub enum Terminator {
    Goto { target_bb: u32 },
    SwitchInt { targets: Seq<u32> },
    Resume,
    Abort,
    Return,
    Unreachable,
    Drop { target_bb: u32, unwind_bb: Option<u32> },
    DropAndReplace { target_bb: u32, unwind_bb: Option<u32> },
    Call { target: Option<(u64, u32)>, cleanup_bb: Option<u32> },
    Assert { target_bb: u32, cleanup_bb: Option<u32> },
    Yield { resume_bb: u32, drop_bb: Option<u32> },
    GeneratorDrop,
    FalseEdges { real_target_bb: u32 },
    FalseUnwind { real_target_bb: u32 },
}

impl View for TerminatorKind {
    type V = Terminator;

    open spec fn view(&self) -> Terminator {
        match self {
            TerminatorKind::Goto { target_bb } => Terminator::Goto { target_bb: *target_bb },
            TerminatorKind::SwitchInt { targets } => Terminator::SwitchInt { targets: targets@ },
            TerminatorKind::Resume => Terminator::Resume,
            TerminatorKind::Abort => Terminator::Abort,
            TerminatorKind::Return => Terminator::Return,
            TerminatorKind::Unreachable => Terminator::Unreachable,
            TerminatorKind::Drop { target_bb, unwind_bb } => Terminator::Drop {
                target_bb: *target_bb,
                unwind_bb: *unwind_bb,
            },
            TerminatorKind::DropAndReplace { target_bb, unwind_bb } => Terminator::DropAndReplace {
                target_bb: *target_bb,
                unwind_bb: *unwind_bb,
            },
            TerminatorKind::Call { target, cleanup_bb } => Terminator::Call {
                target: *target,
                cleanup_bb: *cleanup_bb,
            },
            TerminatorKind::Assert { target_bb, cleanup_bb } => Terminator::Assert {
                target_bb: *target_bb,
                cleanup_bb: *cleanup_bb,
            },
            TerminatorKind::Yield { resume_bb, drop_bb } => Terminator::Yield {
                resume_bb: *resume_bb,
                drop_bb: *drop_bb,
            },
            TerminatorKind::GeneratorDrop => Terminator::GeneratorDrop,
            TerminatorKind::FalseEdges { real_target_bb } => Terminator::FalseEdges {
                real_target_bb: *real_target_bb,
            },
            TerminatorKind::FalseUnwind { real_target_bb } => Terminator::FalseUnwind {
                real_target_bb: *real_target_bb,
            },
        }
    }
}

fn same_block(a: Option<u32>, b: Option<u32>) -> (r: bool)
    ensures
        r == (a == b),
{
    match (a, b) {
        (Some(x), Some(y)) => x == y,
        (None, None) => true,
        _ => false,
    }
}

fn same_target(a: Option<(u64, u32)>, b: Option<(u64, u32)>) -> (r: bool)
    ensures
        r == (a == b),
{
    match (a, b) {
        (Some((h, i)), Some((g, j))) => h == g && i == j,
        (None, None) => true,
        _ => false,
    }
}

fn same_targets(a: &Vec<u32>, b: &Vec<u32>) -> (r: bool)
    ensures
        r == (a@ == b@),
{
    if a.len() != b.len() {
        return false;
    }
    let mut i: usize = 0;
    while i < a.len()
        invariant
            a.len() == b.len(),
            i <= a.len(),
            forall|j: int| 0 <= j < i ==> a@[j] == b@[j],
        decreases a.len() - i,
    {
        if a[i] != b[i] {
            return false;
        }
        i = i + 1;
    }
    assert(a@ =~= b@);
    true
}

impl TerminatorKind {
    /// Whether the two terminators are the same.
    pub fn same_as(&self, other: &TerminatorKind) -> (r: bool)
        ensures
            r == (self@ == other@),
    {
        match (self, other) {
            (TerminatorKind::Goto { target_bb: a }, TerminatorKind::Goto { target_bb: b }) => *a
                == *b,
            (TerminatorKind::SwitchInt { targets: a }, TerminatorKind::SwitchInt { targets: b }) =>
                same_targets(a, b),
            (TerminatorKind::Resume, TerminatorKind::Resume) => true,
            (TerminatorKind::Abort, TerminatorKind::Abort) => true,
            (TerminatorKind::Return, TerminatorKind::Return) => true,
            (TerminatorKind::Unreachable, TerminatorKind::Unreachable) => true,
            (
                TerminatorKind::Drop { target_bb: a, unwind_bb: c },
                TerminatorKind::Drop { target_bb: b, unwind_bb: d },
            ) => *a == *b && same_block(*c, *d),
            (
                TerminatorKind::DropAndReplace { target_bb: a, unwind_bb: c },
                TerminatorKind::DropAndReplace { target_bb: b, unwind_bb: d },
            ) => *a == *b && same_block(*c, *d),
            (
                TerminatorKind::Call { target: a, cleanup_bb: c },
                TerminatorKind::Call { target: b, cleanup_bb: d },
            ) => same_target(*a, *b) && same_block(*c, *d),
            (
                TerminatorKind::Assert { target_bb: a, cleanup_bb: c },
                TerminatorKind::Assert { target_bb: b, cleanup_bb: d },
            ) => *a == *b && same_block(*c, *d),
            (
                TerminatorKind::Yield { resume_bb: a, drop_bb: c },
                TerminatorKind::Yield { resume_bb: b, drop_bb: d },
            ) => *a == *b && same_block(*c, *d),
            (TerminatorKind::GeneratorDrop, TerminatorKind::GeneratorDrop) => true,
            (
                TerminatorKind::FalseEdges { real_target_bb: a },
                TerminatorKind::FalseEdges { real_target_bb: b },
            ) => *a == *b,
            (
                TerminatorKind::FalseUnwind { real_target_bb: a },
                TerminatorKind::FalseUnwind { real_target_bb: b },
            ) => *a == *b,
            _ => false,
        }
    }
}


/// `kind` names a record kind.
pub open spec fn known_kind(kind: u8) -> bool {
    kind <= FALSE_UNWIND || kind == NO_MIR || kind == SENTINAL
}

/// The number of bytes that follow the kind byte of a record of a known kind (for a switch,
/// those before its targets).
pub open spec fn body_len(kind: u8) -> int {
    if kind == NO_MIR {
        12
    } else if kind == SENTINAL {
        0
    } else if kind == SWITCHINT || kind == DROP_WITH_UNWIND || kind == DROP_AND_REPLACE_WITH_UNWIND
        || kind == ASSERT_WITH_CLEANUP {
        24
    } else if kind == RESUME || kind == ABORT || kind == RETURN || kind == UNREACHABLE || kind
        == CALL_UNKNOWN_NO_CLEANUP || kind == GENERATOR_DROP {
        16
    } else if kind == CALL_NO_CLEANUP {
        28
    } else if kind == CALL_WITH_CLEANUP {
        32
    } else {
        20
    }
}

/// The end of the body of a record of kind `kind` whose body starts at `body`: a switch's body
/// runs on over as many 32-bit targets as its 64-bit count (at `body + 16`) says.
pub open spec fn body_end(kind: u8, data: Seq<u8>, body: int, order: Endian) -> int {
    if kind == SWITCHINT && body + 24 <= data.len() {
        body + 24 + 4 * field(data, body + 16, 8, order)
    } else {
        body + body_len(kind)
    }
}

/// The 32-bit field at `at`.
pub open spec fn u32_at(data: Seq<u8>, at: int, order: Endian) -> u32 {
    field(data, at, 4, order) as u32
}

/// The 64-bit field at `at`.
pub open spec fn u64_at(data: Seq<u8>, at: int, order: Endian) -> u64 {
    field(data, at, 8, order) as u64
}

/// The location encoded at `at`.
pub open spec fn loc_at(data: Seq<u8>, at: int, order: Endian) -> MirLoc {
    MirLoc {
        crate_hash: u64_at(data, at, order),
        idx: u32_at(data, at + 8, order),
        bb: u32_at(data, at + 12, order),
    }
}

/// The optional block at `at`, present when `present` holds.
pub open spec fn opt_u32_at(present: bool, data: Seq<u8>, at: int, order: Endian) -> Option<u32> {
    if present {
        Some(u32_at(data, at, order))
    } else {
        None
    }
}

/// The terminator of a block record of kind `kind` whose body starts at `body`; its fields
/// follow the location, at `body + 16`. A yield's drop block is never read.
pub open spec fn terminator_at(kind: u8, data: Seq<u8>, body: int, order: Endian) -> Terminator {
    let at: int = body + 16;
    if kind == GOTO {
        Terminator::Goto { target_bb: u32_at(data, at, order) }
    } else if kind == SWITCHINT {
        Terminator::SwitchInt {
            targets: Seq::new(
                field(data, at, 8, order),
                |j: int| u32_at(data, at + 8 + 4 * j, order),
            ),
        }
    } else if kind == RESUME {
        Terminator::Resume
    } else if kind == ABORT {
        Terminator::Abort
    } else if kind == RETURN {
        Terminator::Return
    } else if kind == UNREACHABLE {
        Terminator::Unreachable
    } else if kind == DROP_NO_UNWIND || kind == DROP_WITH_UNWIND {
        Terminator::Drop {
            target_bb: u32_at(data, at, order),
            unwind_bb: opt_u32_at(kind == DROP_WITH_UNWIND, data, at + 4, order),
        }
    } else if kind == DROP_AND_REPLACE_NO_UNWIND || kind == DROP_AND_REPLACE_WITH_UNWIND {
        Terminator::DropAndReplace {
            target_bb: u32_at(data, at, order),
            unwind_bb: opt_u32_at(kind == DROP_AND_REPLACE_WITH_UNWIND, data, at + 4, order),
        }
    } else if kind == CALL_NO_CLEANUP || kind == CALL_WITH_CLEANUP {
        Terminator::Call {
            target: Some((u64_at(data, at, order), u32_at(data, at + 8, order))),
            cleanup_bb: opt_u32_at(kind == CALL_WITH_CLEANUP, data, at + 12, order),
        }
    } else if kind == CALL_UNKNOWN_NO_CLEANUP || kind == CALL_UNKNOWN_WITH_CLEANUP {
        Terminator::Call {
            target: None,
            cleanup_bb: opt_u32_at(kind == CALL_UNKNOWN_WITH_CLEANUP, data, at, order),
        }
    } else if kind == ASSERT_NO_CLEANUP || kind == ASSERT_WITH_CLEANUP {
        Terminator::Assert {
            target_bb: u32_at(data, at, order),
            cleanup_bb: opt_u32_at(kind == ASSERT_WITH_CLEANUP, data, at + 4, order),
        }
    } else if kind == YIELD_NO_DROP || kind == YIELD_WITH_DROP {
        Terminator::Yield { resume_bb: u32_at(data, at, order), drop_bb: None }
    } else if kind == GENERATOR_DROP {
        Terminator::GeneratorDrop
    } else if kind == FALSE_EDGES {
        Terminator::FalseEdges { real_target_bb: u32_at(data, at, order) }
    } else {
        Terminator::FalseUnwind { real_target_bb: u32_at(data, at, order) }
    }
}

/// What a MIR CFG section says: the terminator of each block, and the definitions that have no
/// MIR (by crate hash and definition index).
pub struct CfgModel {
    pub blocks: Map<MirLoc, Terminator>,
    pub no_mir: Set<(u64, u32)>,
}

/// Nothing read yet.
pub open spec fn empty_model() -> CfgModel {
    CfgModel { blocks: Map::empty(), no_mir: Set::empty() }
}

/// Reads the records from `pos` on into `model`, up to the end marker. A block that occurs
/// again must have the same terminator; a repeat adds nothing.
pub open spec fn parse_records(data: Seq<u8>, pos: int, order: Endian, model: CfgModel) -> Result<
    CfgModel,
    TraceMappingError,
>
    decreases data.len() - pos,
{
    if !(0 <= pos < data.len()) {
        Err(TraceMappingError::Truncated)
    } else {
        let kind: u8 = data[pos];
        let end: int = body_end(kind, data, pos + 1, order);
        if !known_kind(kind) {
            Err(TraceMappingError::UnknownKind(kind))
        } else if end > data.len() {
            Err(TraceMappingError::Truncated)
        } else if kind == SENTINAL {
            Ok(model)
        } else if kind == NO_MIR {
            let def = (u64_at(data, pos + 1, order), u32_at(data, pos + 9, order));
            parse_records(
                data,
                end,
                order,
                CfgModel { blocks: model.blocks, no_mir: model.no_mir.insert(def) },
            )
        } else {
            let loc = loc_at(data, pos + 1, order);
            let term = terminator_at(kind, data, pos + 1, order);
            if model.blocks.contains_key(loc) && model.blocks[loc] != term {
                Err(TraceMappingError::ConflictingTerminator)
            } else {
                parse_records(
                    data,
                    end,
                    order,
                    CfgModel { blocks: model.blocks.insert(loc, term), no_mir: model.no_mir },
                )
            }
        }
    }
}

/// Reads a MIR CFG section whose version field starts at `start`.
pub open spec fn parse_section(data: Seq<u8>, start: int, order: Endian) -> Result<
    CfgModel,
    TraceMappingError,
> {
    if !(0 <= start && start + 2 <= data.len()) {
        Err(TraceMappingError::Truncated)
    } else if field(data, start, 2, order) != MIR_CFG_SECTION_VERSION {
        Err(TraceMappingError::VersionMismatch)
    } else {
        parse_records(data, start + 2, order, empty_model())
    }
}



/// Reads a location: crate hash, definition index, basic block.
fn parse_loc(curs: &mut SectionCursor, order: Endian) -> (r: Result<MirLoc, TraceMappingError>)
    ensures
        final(curs).data@ == old(curs).data@,
        old(curs).has(16) ==> r == Ok::<MirLoc, TraceMappingError>(
            loc_at(old(curs).data@, old(curs).pos as int, order),
        ) && final(curs).pos == old(curs).pos + 16,
        !old(curs).has(16) ==> r == Err::<MirLoc, TraceMappingError>(TraceMappingError::Truncated),
{
    let crate_hash: u64 = curs.read_u64(order)?;
    let def_idx: u32 = curs.read_u32(order)?;
    let bb: u32 = curs.read_u32(order)?;
    Ok(MirLoc::new(crate_hash, def_idx, bb))
}

/// Reads a location and a basic block number.
fn parse_loc_and_target_bb(curs: &mut SectionCursor, order: Endian) -> (r: Result<
    (MirLoc, u32),
    TraceMappingError,
>)
    ensures
        final(curs).data@ == old(curs).data@,
        old(curs).has(20) ==> r == Ok::<(MirLoc, u32), TraceMappingError>(
            (
                loc_at(old(curs).data@, old(curs).pos as int, order),
                u32_at(old(curs).data@, old(curs).pos + 16, order),
            ),
        ) && final(curs).pos == old(curs).pos + 20,
        !old(curs).has(20) ==> r == Err::<(MirLoc, u32), TraceMappingError>(
            TraceMappingError::Truncated,
        ),
{
    let block = parse_loc(curs, order)?;
    let to_bb: u32 = curs.read_u32(order)?;
    Ok((block, to_bb))
}

/// Reads a basic block number if `present`, and nothing otherwise.
fn parse_opt_bb(curs: &mut SectionCursor, present: bool, order: Endian) -> (r: Result<
    Option<u32>,
    TraceMappingError,
>)
    ensures
        final(curs).data@ == old(curs).data@,
        !present ==> r == Ok::<Option<u32>, TraceMappingError>(None) && final(curs).pos == old(
            curs,
        ).pos,
        present && old(curs).has(4) ==> r == Ok::<Option<u32>, TraceMappingError>(
            Some(u32_at(old(curs).data@, old(curs).pos as int, order)),
        ) && final(curs).pos == old(curs).pos + 4,
        present && !old(curs).has(4) ==> r == Err::<Option<u32>, TraceMappingError>(
            TraceMappingError::Truncated,
        ),
{
    if present {
        let bb: u32 = curs.read_u32(order)?;
        Ok(Some(bb))
    } else {
        Ok(None)
    }
}

/// Reads the body of a block record of kind `kind`: its location and terminator.
fn parse_block(curs: &mut SectionCursor, kind: u8, order: Endian) -> (r: Result<
    (MirLoc, TerminatorKind),
    TraceMappingError,
>)
    requires
        kind <= FALSE_UNWIND,
    ensures
        final(curs).data@ == old(curs).data@,
        ({
            let data = old(curs).data@;
            let body: int = old(curs).pos as int;
            let end: int = body_end(kind, data, body, order);
            &&& end <= data.len() ==> (r matches Ok((loc, term)) && loc == loc_at(data, body, order)
                && term@ == terminator_at(kind, data, body, order) && final(curs).pos == end)
            &&& end > data.len() ==> r == Err::<(MirLoc, TerminatorKind), TraceMappingError>(
                TraceMappingError::Truncated,
            )
        }),
{
    let ghost data = curs.data@;
    let ghost body = curs.pos as int;
    if kind == GOTO {
        let (blk, target_bb) = parse_loc_and_target_bb(curs, order)?;
        Ok((blk, TerminatorKind::Goto { target_bb }))
    } else if kind == SWITCHINT {
        let blk = parse_loc(curs, order)?;
        let ghost count_field = field(data, body + 16, 8, order);
        proof {
            if body + 24 <= data.len() {
                lemma_value_below_range(data.subrange(body + 16, body + 24));
                lemma_byte_ranges();
            }
        }
        let num_targets: u64 = curs.read_uint(8, order)?;
        let ghost first = body + 24;
        let mut targets: Vec<u32> = Vec::new();
        let mut i: u64 = 0;
        while i < num_targets
            invariant
                curs.data@ == data,
                data == old(curs).data@,
                body == old(curs).pos as int,
                kind == SWITCHINT,
                first == body + 24,
                first <= data.len(),
                curs.pos <= data.len(),
                first + 4 * count_field == body_end(kind, data, body, order),
                num_targets == count_field,
                i <= num_targets,
                curs.pos == first + 4 * i,
                targets@ == Seq::new(i as nat, |j: int| u32_at(data, first + 4 * j, order)),
            decreases num_targets - i,
        {
            let t: u32 = curs.read_u32(order)?;
            targets.push(t);
            i = i + 1;
            assert(targets@ =~= Seq::new(i as nat, |j: int| u32_at(data, first + 4 * j, order)));
        }
        assert(targets@ =~= Seq::new(
            field(data, body + 16, 8, order),
            |j: int| u32_at(data, body + 16 + 8 + 4 * j, order),
        ));
        Ok((blk, TerminatorKind::SwitchInt { targets }))
    } else if kind == RESUME || kind == ABORT || kind == RETURN || kind == UNREACHABLE {
        let blk = parse_loc(curs, order)?;
        let term = if kind == RESUME {
            TerminatorKind::Resume
        } else if kind == ABORT {
            TerminatorKind::Abort
        } else if kind == RETURN {
            TerminatorKind::Return
        } else {
            TerminatorKind::Unreachable
        };
        Ok((blk, term))
    } else if kind == DROP_NO_UNWIND || kind == DROP_WITH_UNWIND || kind
        == DROP_AND_REPLACE_NO_UNWIND || kind == DROP_AND_REPLACE_WITH_UNWIND {
        let (blk, target_bb) = parse_loc_and_target_bb(curs, order)?;
        let unwind_bb = parse_opt_bb(
            curs,
            kind == DROP_WITH_UNWIND || kind == DROP_AND_REPLACE_WITH_UNWIND,
            order,
        )?;
        let term = if kind == DROP_NO_UNWIND || kind == DROP_WITH_UNWIND {
            TerminatorKind::Drop { target_bb, unwind_bb }
        } else {
            TerminatorKind::DropAndReplace { target_bb, unwind_bb }
        };
        Ok((blk, term))
    } else if kind == CALL_NO_CLEANUP || kind == CALL_WITH_CLEANUP || kind
        == CALL_UNKNOWN_NO_CLEANUP || kind == CALL_UNKNOWN_WITH_CLEANUP {
        let blk = parse_loc(curs, order)?;
        let target = if kind != CALL_UNKNOWN_NO_CLEANUP && kind != CALL_UNKNOWN_WITH_CLEANUP {
            // A known callee: its definition's crate hash and index.
            let t_krate_hash: u64 = curs.read_u64(order)?;
            let t_idx: u32 = curs.read_u32(order)?;
            Some((t_krate_hash, t_idx))
        } else {
            None
        };
        let cleanup_bb = parse_opt_bb(
            curs,
            kind == CALL_WITH_CLEANUP || kind == CALL_UNKNOWN_WITH_CLEANUP,
            order,
        )?;
        Ok((blk, TerminatorKind::Call { target, cleanup_bb }))
    } else if kind == ASSERT_NO_CLEANUP || kind == ASSERT_WITH_CLEANUP {
        let (blk, target_bb) = parse_loc_and_target_bb(curs, order)?;
        let cleanup_bb = parse_opt_bb(curs, kind == ASSERT_WITH_CLEANUP, order)?;
        Ok((blk, TerminatorKind::Assert { target_bb, cleanup_bb }))
    } else if kind == YIELD_NO_DROP || kind == YIELD_WITH_DROP {
        // The drop block of a yield is not read: a yield is taken to have none, so bytes
        // written for one are read as the start of the next record.
        let (blk, resume_bb) = parse_loc_and_target_bb(curs, order)?;
        Ok((blk, TerminatorKind::Yield { resume_bb, drop_bb: None }))
    } else if kind == GENERATOR_DROP {
        let blk = parse_loc(curs, order)?;
        Ok((blk, TerminatorKind::GeneratorDrop))
    } else {
        let (blk, real_target_bb) = parse_loc_and_target_bb(curs, order)?;
        let term = if kind == FALSE_EDGES {
            TerminatorKind::FalseEdges { real_target_bb }
        } else {
            TerminatorKind::FalseUnwind { real_target_bb }
        };
        Ok((blk, term))
    }
}


/// The model of a CFG held as a map from location keys to terminators and a set of definition
/// keys.
pub open spec fn model_of(map: Map<u128, TerminatorKind>, no_mir: Set<u128>) -> CfgModel {
    CfgModel {
        blocks: Map::new(
            |loc: MirLoc| map.contains_key(loc.spec_key()),
            |loc: MirLoc| map[loc.spec_key()]@,
        ),
        no_mir: Set::new(|def: (u64, u32)| no_mir.contains(def_key(def.0, def.1))),
    }
}

/// The MIR CFG read from a section, held like a hash map: the terminator of each block, and
/// the definitions for which there was no MIR at compile time.
pub struct MirCfg {
    _map: HashMap<u128, TerminatorKind>,
    _no_mir_def_ids: HashSet<u128>,
}

impl View for MirCfg {
    type V = CfgModel;

    closed spec fn view(&self) -> CfgModel {
        model_of(self._map@, self._no_mir_def_ids@)
    }
}

/// What is known of a MIR location.
#[derive(Debug)]
pub enum _KnownMirLoc<'a> {
    /// The location is known and has MIR, ending in this terminator.
    HasMir(&'a TerminatorKind),
    /// The location's definition is known and has no MIR.
    NoMir,
}

/// The result of reading a section agrees with the model's outcome.
pub open spec fn agrees(r: Result<MirCfg, TraceMappingError>, outcome: Result<CfgModel, TraceMappingError>) -> bool {
    match r {
        Ok(cfg) => outcome == Ok::<CfgModel, TraceMappingError>(cfg@),
        Err(e) => outcome == Err::<CfgModel, TraceMappingError>(e),
    }
}

proof fn lemma_model_empty()
    ensures
        model_of(Map::empty(), Set::empty()) == empty_model(),
{
    assert(model_of(Map::empty(), Set::empty()).blocks =~= empty_model().blocks);
    assert(model_of(Map::empty(), Set::empty()).no_mir =~= empty_model().no_mir);
}

proof fn lemma_model_insert_block(
    map: Map<u128, TerminatorKind>,
    no_mir: Set<u128>,
    loc: MirLoc,
    term: TerminatorKind,
)
    ensures
        model_of(map.insert(loc.spec_key(), term), no_mir) == (CfgModel {
            blocks: model_of(map, no_mir).blocks.insert(loc, term@),
            no_mir: model_of(map, no_mir).no_mir,
        }),
{
    let after = model_of(map.insert(loc.spec_key(), term), no_mir);
    let before = model_of(map, no_mir);
    assert forall|other: MirLoc| other.spec_key() == loc.spec_key() implies other == loc by {
        lemma_key_injective(other, loc);
    }
    assert(after.blocks =~= before.blocks.insert(loc, term@));
    assert(after.no_mir =~= before.no_mir);
}

proof fn lemma_model_insert_def(
    map: Map<u128, TerminatorKind>,
    no_mir: Set<u128>,
    crate_hash: u64,
    idx: u32,
)
    ensures
        model_of(map, no_mir.insert(def_key(crate_hash, idx))) == (CfgModel {
            blocks: model_of(map, no_mir).blocks,
            no_mir: model_of(map, no_mir).no_mir.insert((crate_hash, idx)),
        }),
{
    let after = model_of(map, no_mir.insert(def_key(crate_hash, idx)));
    let before = model_of(map, no_mir);
    assert forall|def: (u64, u32)| def_key(def.0, def.1) == def_key(crate_hash, idx) implies def
        == (crate_hash, idx) by {
        lemma_def_key_injective(def.0, def.1, crate_hash, idx);
    }
    assert(after.blocks =~= before.blocks);
    assert(after.no_mir =~= before.no_mir.insert((crate_hash, idx)));
}

proof fn lemma_model_same_block(
    map: Map<u128, TerminatorKind>,
    no_mir: Set<u128>,
    loc: MirLoc,
    term: Terminator,
)
    requires
        map.contains_key(loc.spec_key()),
        map[loc.spec_key()]@ == term,
    ensures
        model_of(map, no_mir) == (CfgModel {
            blocks: model_of(map, no_mir).blocks.insert(loc, term),
            no_mir: model_of(map, no_mir).no_mir,
        }),
{
    let m = model_of(map, no_mir);
    assert(m.blocks.insert(loc, term) =~= m.blocks);
}

/// Positions a cursor at `start_pos` in the section's data, if the binary has the section.
pub fn cursor_from_section<'a>(section: Option<&'a [u8]>, start_pos: u64) -> (r: Result<
    SectionCursor<'a>,
    TraceMappingError,
>)
    ensures
        section is None ==> r == Err::<SectionCursor<'a>, TraceMappingError>(
            TraceMappingError::NoCfg,
        ),
        section matches Some(data) ==> (r matches Ok(c) && c.data@ == data@ && c.pos == start_pos),
{
    if let Some(data) = section {
        Ok(SectionCursor::new(data, start_pos))
    } else {
        Err(TraceMappingError::NoCfg)
    }
}

impl MirCfg {
    /// Reads the MIR CFG from a binary's section (`None` where the binary has none), in the
    /// machine's byte order.
    pub fn new(section: Option<&[u8]>) -> (r: Result<Self, TraceMappingError>)
        ensures
            section is None ==> r == Err::<Self, TraceMappingError>(TraceMappingError::NoCfg),
            section matches Some(data) ==> exists|order: Endian|
                agrees(r, #[trigger] parse_section(data@, 0, order)),
            section matches Some(data) ==> agrees(r, parse_section(data@, 0, native_order())),
    {
        let mut curs = cursor_from_section(section, 0)?;
        let order = native_endian();
        let r = Self::parse(&mut curs, order);
        assert(agrees(r, parse_section(section.unwrap()@, 0, order)));
        r
    }

    /// Reads the MIR CFG from the cursor's position on, in byte order `order`: the version,
    /// then the records up to the end marker.
    pub fn parse(curs: &mut SectionCursor, order: Endian) -> (r: Result<Self, TraceMappingError>)
        ensures
            agrees(r, parse_section(old(curs).data@, old(curs).pos as int, order)),
    {
        let ghost data = curs.data@;
        let ghost start = curs.pos as int;
        proof {
            if start + 2 <= data.len() {
                lemma_value_below_range(data.subrange(start, start + 2));
                lemma_byte_ranges();
            }
        }
        let vers: u16 = curs.read_u16(order)?;
        if vers != MIR_CFG_SECTION_VERSION {
            return Err(TraceMappingError::VersionMismatch);
        }
        let mut map: HashMap<u128, TerminatorKind> = HashMap::new();
        let mut no_mir_def_ids: HashSet<u128> = HashSet::new();
        proof {
            lemma_model_empty();
        }
        loop
            invariant
                curs.data@ == data,
                data == old(curs).data@,
                start == old(curs).pos as int,
                curs.pos <= data.len(),
                parse_section(data, start, order) == parse_records(
                    data,
                    curs.pos as int,
                    order,
                    model_of(map@, no_mir_def_ids@),
                ),
            decreases data.len() - curs.pos,
        {
            let ghost pos = curs.pos as int;
            let ghost model = model_of(map@, no_mir_def_ids@);
            let typ: u8 = curs.read_u8()?;
            if typ == SENTINAL {
                return Ok(MirCfg { _map: map, _no_mir_def_ids: no_mir_def_ids });
            }
            if typ == NO_MIR {
                let crate_hash: u64 = curs.read_u64(order)?;
                let idx: u32 = curs.read_u32(order)?;
                let def: u128 = MirLoc::new(crate_hash, idx, 0).def_key();
                proof {
                    lemma_model_insert_def(map@, no_mir_def_ids@, crate_hash, idx);
                }
                no_mir_def_ids.insert(def);
                continue ;
            }
            if typ > FALSE_UNWIND {
                return Err(TraceMappingError::UnknownKind(typ));
            }
            let (blk, term) = parse_block(&mut *curs, typ, order)?;
            let key: u128 = blk.key();
            match map.get(&key) {
                Some(old_term) => {
                    // The same block may be described more than once, but always alike.
                    if !old_term.same_as(&term) {
                        return Err(TraceMappingError::ConflictingTerminator);
                    }
                    proof {
                        lemma_model_same_block(map@, no_mir_def_ids@, blk, term@);
                    }
                },
                None => {
                    proof {
                        lemma_model_insert_block(map@, no_mir_def_ids@, blk, term);
                    }
                    map.insert(key, term);
                },
            }
        }
    }

    /// Looks up what the CFG says of a MIR location: its terminator, or that its definition has
    /// no MIR, or (`Err`) nothing.
    pub fn _get(&self, key: &MirLoc) -> (r: Result<_KnownMirLoc, ()>)
        ensures
            self@.blocks.contains_key(*key) ==> (r matches Ok(_KnownMirLoc::HasMir(t)) && t@
                == self@.blocks[*key]),
            !self@.blocks.contains_key(*key) && self@.no_mir.contains((key.crate_hash, key.idx))
                ==> r == Ok::<_KnownMirLoc, ()>(_KnownMirLoc::NoMir),
            !self@.blocks.contains_key(*key) && !self@.no_mir.contains((key.crate_hash, key.idx))
                ==> r == Err::<_KnownMirLoc, ()>(()),
    {
        let k: u128 = key.key();
        match self._map.get(&k) {
            Some(t) => Ok(_KnownMirLoc::HasMir(t)),
            None => {
                let d: u128 = key.def_key();
                if self._no_mir_def_ids.contains(&d) {
                    Ok(_KnownMirLoc::NoMir)
                } else {
                    Err(())
                }
            },
        }
    }
}


/// The position of the record `n` records after the one at `pos`.
pub open spec fn nth_record(data: Seq<u8>, pos: int, order: Endian, n: nat) -> int
    decreases n,
{
    if n == 0 {
        pos
    } else {
        nth_record(data, body_end(data[pos], data, pos + 1, order), order, (n - 1) as nat)
    }
}

/// The `n` records from `pos` on lie inside `data` and none of them is the end marker.
pub open spec fn before_end(data: Seq<u8>, pos: int, order: Endian, n: nat) -> bool
    decreases n,
{
    n == 0 || (0 <= pos < data.len() && data[pos] != SENTINAL && before_end(
        data,
        body_end(data[pos], data, pos + 1, order),
        order,
        (n - 1) as nat,
    ))
}

/// Reading records keeps what was read before: every block keeps its terminator, and every
/// definition without MIR stays known.
pub proof fn lemma_parse_keeps(data: Seq<u8>, pos: int, order: Endian, model: CfgModel)
    ensures
        parse_records(data, pos, order, model) matches Ok(result) ==> {
            &&& forall|loc: MirLoc| #[trigger]
                model.blocks.contains_key(loc) ==> result.blocks.contains_key(loc)
                    && result.blocks[loc] == model.blocks[loc]
            &&& forall|def: (u64, u32)| #[trigger] model.no_mir.contains(def) ==> result.no_mir.contains(def)
        },
    decreases data.len() - pos,
{
    if 0 <= pos < data.len() {
        let kind: u8 = data[pos];
        let end: int = body_end(kind, data, pos + 1, order);
        if known_kind(kind) && end <= data.len() && kind != SENTINAL {
            if kind == NO_MIR {
                let def = (u64_at(data, pos + 1, order), u32_at(data, pos + 9, order));
                let next = CfgModel { blocks: model.blocks, no_mir: model.no_mir.insert(def) };
                lemma_parse_keeps(data, end, order, next);
                if let Ok(result) = parse_records(data, pos, order, model) {
                    assert forall|loc: MirLoc| #[trigger]
                        model.blocks.contains_key(loc) implies result.blocks.contains_key(loc)
                        && result.blocks[loc] == model.blocks[loc] by {
                        assert(next.blocks.contains_key(loc));
                    }
                    assert forall|d: (u64, u32)| #[trigger]
                        model.no_mir.contains(d) implies result.no_mir.contains(d) by {
                        assert(next.no_mir.contains(d));
                    }
                }
            } else {
                let loc = loc_at(data, pos + 1, order);
                let term = terminator_at(kind, data, pos + 1, order);
                let next = CfgModel { blocks: model.blocks.insert(loc, term), no_mir: model.no_mir };
                lemma_parse_keeps(data, end, order, next);
                if let Ok(result) = parse_records(data, pos, order, model) {
                    assert forall|l: MirLoc| #[trigger]
                        model.blocks.contains_key(l) implies result.blocks.contains_key(l)
                        && result.blocks[l] == model.blocks[l] by {
                        assert(next.blocks.contains_key(l));
                    }
                    assert forall|d: (u64, u32)| #[trigger]
                        model.no_mir.contains(d) implies result.no_mir.contains(d) by {
                        assert(next.no_mir.contains(d));
                    }
                }
            }
        }
    }
}

/// Every record of a section that reads without error is in what it reads to: a block record's
/// block has the record's terminator, and a record of a definition without MIR makes that
/// definition known. `n` counts the records before it, none of which is the end marker.
pub proof fn lemma_record_found(
    data: Seq<u8>,
    pos: int,
    order: Endian,
    model: CfgModel,
    n: nat,
)
    requires
        before_end(data, pos, order, n),
        0 <= nth_record(data, pos, order, n) < data.len(),
        parse_records(data, pos, order, model) is Ok,
    ensures
        ({
            let result = parse_records(data, pos, order, model)->Ok_0;
            let at: int = nth_record(data, pos, order, n);
            let kind: u8 = data[at];
            &&& kind <= FALSE_UNWIND ==> result.blocks.contains_key(loc_at(data, at + 1, order))
                && result.blocks[loc_at(data, at + 1, order)] == terminator_at(
                kind,
                data,
                at + 1,
                order,
            )
            &&& kind == NO_MIR ==> result.no_mir.contains(
                (u64_at(data, at + 1, order), u32_at(data, at + 9, order)),
            )
        }),
    decreases n,
{
    let kind: u8 = data[pos];
    let end: int = body_end(kind, data, pos + 1, order);
    if kind == NO_MIR {
        let def = (u64_at(data, pos + 1, order), u32_at(data, pos + 9, order));
        let next = CfgModel { blocks: model.blocks, no_mir: model.no_mir.insert(def) };
        assert(parse_records(data, pos, order, model) == parse_records(data, end, order, next));
        if n == 0 {
            lemma_parse_keeps(data, end, order, next);
            assert(next.no_mir.contains(def));
        } else {
            lemma_record_found(data, end, order, next, (n - 1) as nat);
        }
    } else if kind <= FALSE_UNWIND {
        let loc = loc_at(data, pos + 1, order);
        let term = terminator_at(kind, data, pos + 1, order);
        let next = CfgModel { blocks: model.blocks.insert(loc, term), no_mir: model.no_mir };
        assert(parse_records(data, pos, order, model) == parse_records(data, end, order, next));
        if n == 0 {
            lemma_parse_keeps(data, end, order, next);
            assert(next.blocks.contains_key(loc));
        } else {
            lemma_record_found(data, end, order, next, (n - 1) as nat);
        }
    }
}


/// The location of the record at `at`, if it is a block record.
pub open spec fn record_block(data: Seq<u8>, at: int, order: Endian) -> Option<MirLoc> {
    if data[at] <= FALSE_UNWIND {
        Some(loc_at(data, at + 1, order))
    } else {
        None
    }
}

/// Everything a section reads to comes from its records: each block of the result was known
/// before or is the block of a record before the end marker.
pub proof fn lemma_blocks_from_records(data: Seq<u8>, pos: int, order: Endian, model: CfgModel)
    ensures
        parse_records(data, pos, order, model) matches Ok(result) ==> forall|loc: MirLoc|
            #[trigger] result.blocks.contains_key(loc) ==> model.blocks.contains_key(loc) || exists|
                n: nat,
            |
                before_end(data, pos, order, n) && record_block(
                    data,
                    #[trigger] nth_record(data, pos, order, n),
                    order,
                ) == Some(loc),
    decreases data.len() - pos,
{
    if 0 <= pos < data.len() {
        let kind: u8 = data[pos];
        let end: int = body_end(kind, data, pos + 1, order);
        if known_kind(kind) && end <= data.len() && kind != SENTINAL {
            let next = if kind == NO_MIR {
                let def = (u64_at(data, pos + 1, order), u32_at(data, pos + 9, order));
                CfgModel { blocks: model.blocks, no_mir: model.no_mir.insert(def) }
            } else {
                let loc = loc_at(data, pos + 1, order);
                let term = terminator_at(kind, data, pos + 1, order);
                CfgModel { blocks: model.blocks.insert(loc, term), no_mir: model.no_mir }
            };
            lemma_blocks_from_records(data, end, order, next);
            if let Ok(result) = parse_records(data, pos, order, model) {
                assert(parse_records(data, pos, order, model) == parse_records(
                    data,
                    end,
                    order,
                    next,
                ));
                assert forall|loc: MirLoc| #[trigger]
                    result.blocks.contains_key(loc) implies model.blocks.contains_key(loc)
                    || exists|n: nat|
                    before_end(data, pos, order, n) && record_block(
                        data,
                        #[trigger] nth_record(data, pos, order, n),
                        order,
                    ) == Some(loc) by {
                    if !model.blocks.contains_key(loc) {
                        if next.blocks.contains_key(loc) {
                            assert(before_end(data, pos, order, 0));
                            assert(nth_record(data, pos, order, 0) == pos);
                            assert(record_block(data, nth_record(data, pos, order, 0), order)
                                == Some(loc));
                        } else {
                            let m: nat = choose|m: nat|
                                before_end(data, end, order, m) && record_block(
                                    data,
                                    #[trigger] nth_record(data, end, order, m),
                                    order,
                                ) == Some(loc);
                            assert(nth_record(data, pos, order, m + 1) == nth_record(
                                data,
                                end,
                                order,
                                m,
                            ));
                            assert(before_end(data, pos, order, m + 1));
                            assert(record_block(data, nth_record(data, pos, order, m + 1), order)
                                == Some(loc));
                        }
                    }
                }
            }
        }
    }
}


proof fn lemma_field_in_prefix(data: Seq<u8>, extra: Seq<u8>, at: int, width: int, order: Endian)
    requires
        0 <= at,
        0 <= width,
        at + width <= data.len(),
    ensures
        field(data + extra, at, width, order) == field(data, at, width, order),
{
    assert((data + extra).subrange(at, at + width) =~= data.subrange(at, at + width));
}

/// A section reads the same whatever bytes follow its end marker: they are never read.
pub proof fn lemma_parse_ignores_tail(
    data: Seq<u8>,
    extra: Seq<u8>,
    pos: int,
    order: Endian,
    model: CfgModel,
)
    requires
        parse_records(data, pos, order, model) is Ok,
    ensures
        parse_records(data + extra, pos, order, model) == parse_records(data, pos, order, model),
    decreases data.len() - pos,
{
    let whole = data + extra;
    let kind: u8 = data[pos];
    let body = pos + 1;
    let end: int = body_end(kind, data, body, order);
    assert(whole[pos] == kind);
    if kind == SWITCHINT {
        lemma_field_in_prefix(data, extra, body + 16, 8, order);
    }
    assert(body_end(kind, whole, body, order) == end);
    if kind != SENTINAL {
        let next = if kind == NO_MIR {
            lemma_field_in_prefix(data, extra, body, 8, order);
            lemma_field_in_prefix(data, extra, body + 8, 4, order);
            let def = (u64_at(data, body, order), u32_at(data, pos + 9, order));
            CfgModel { blocks: model.blocks, no_mir: model.no_mir.insert(def) }
        } else {
            lemma_field_in_prefix(data, extra, body, 8, order);
            lemma_field_in_prefix(data, extra, body + 8, 4, order);
            lemma_field_in_prefix(data, extra, body + 12, 4, order);
            assert(loc_at(whole, body, order) == loc_at(data, body, order));
            let at = body + 16;
            if kind == SWITCHINT {
                let n = field(data, at, 8, order);
                assert forall|j: int| 0 <= j < n implies #[trigger] u32_at(whole, at + 8 + 4 * j, order)
                    == u32_at(data, at + 8 + 4 * j, order) by {
                    lemma_field_in_prefix(data, extra, at + 8 + 4 * j, 4, order);
                }
                assert(Seq::new(n, |j: int| u32_at(whole, at + 8 + 4 * j, order)) =~= Seq::new(
                    n,
                    |j: int| u32_at(data, at + 8 + 4 * j, order),
                ));
            } else if kind == CALL_NO_CLEANUP || kind == CALL_WITH_CLEANUP {
                lemma_field_in_prefix(data, extra, at, 8, order);
                lemma_field_in_prefix(data, extra, at + 8, 4, order);
                if kind == CALL_WITH_CLEANUP {
                    lemma_field_in_prefix(data, extra, at + 12, 4, order);
                }
            } else if kind != RESUME && kind != ABORT && kind != RETURN && kind != UNREACHABLE
                && kind != GENERATOR_DROP && kind != CALL_UNKNOWN_NO_CLEANUP {
                lemma_field_in_prefix(data, extra, at, 4, order);
                if kind == DROP_WITH_UNWIND || kind == DROP_AND_REPLACE_WITH_UNWIND || kind
                    == ASSERT_WITH_CLEANUP {
                    lemma_field_in_prefix(data, extra, at + 4, 4, order);
                }
            }
            assert(terminator_at(kind, whole, body, order) == terminator_at(kind, data, body, order));
            let loc = loc_at(data, body, order);
            let term = terminator_at(kind, data, body, order);
            CfgModel { blocks: model.blocks.insert(loc, term), no_mir: model.no_mir }
        };
        lemma_parse_ignores_tail(data, extra, end, order, next);
    }
}


/// The definition of the record at `at`, if it is a record of a definition without MIR.
pub open spec fn record_def(data: Seq<u8>, at: int, order: Endian) -> Option<(u64, u32)> {
    if data[at] == NO_MIR {
        Some((u64_at(data, at + 1, order), u32_at(data, at + 9, order)))
    } else {
        None
    }
}

/// Each definition without MIR that a section reads to was known before or comes from a
/// record of a definition without MIR before the end marker.
pub proof fn lemma_no_mir_from_records(data: Seq<u8>, pos: int, order: Endian, model: CfgModel)
    ensures
        parse_records(data, pos, order, model) matches Ok(result) ==> forall|def: (u64, u32)|
            #[trigger] result.no_mir.contains(def) ==> model.no_mir.contains(def) || exists|
                n: nat,
            |
                before_end(data, pos, order, n) && record_def(
                    data,
                    #[trigger] nth_record(data, pos, order, n),
                    order,
                ) == Some(def),
    decreases data.len() - pos,
{
    if 0 <= pos < data.len() {
        let kind: u8 = data[pos];
        let end: int = body_end(kind, data, pos + 1, order);
        if known_kind(kind) && end <= data.len() && kind != SENTINAL {
            let next = if kind == NO_MIR {
                let def = (u64_at(data, pos + 1, order), u32_at(data, pos + 9, order));
                CfgModel { blocks: model.blocks, no_mir: model.no_mir.insert(def) }
            } else {
                let loc = loc_at(data, pos + 1, order);
                let term = terminator_at(kind, data, pos + 1, order);
                CfgModel { blocks: model.blocks.insert(loc, term), no_mir: model.no_mir }
            };
            lemma_no_mir_from_records(data, end, order, next);
            if let Ok(result) = parse_records(data, pos, order, model) {
                assert(parse_records(data, pos, order, model) == parse_records(
                    data,
                    end,
                    order,
                    next,
                ));
                assert forall|def: (u64, u32)| #[trigger]
                    result.no_mir.contains(def) implies model.no_mir.contains(def) || exists|n: nat|
                    before_end(data, pos, order, n) && record_def(
                        data,
                        #[trigger] nth_record(data, pos, order, n),
                        order,
                    ) == Some(def) by {
                    if !model.no_mir.contains(def) {
                        if next.no_mir.contains(def) {
                            assert(before_end(data, pos, order, 0));
                            assert(nth_record(data, pos, order, 0) == pos);
                            assert(record_def(data, nth_record(data, pos, order, 0), order)
                                == Some(def));
                        } else {
                            let m: nat = choose|m: nat|
                                before_end(data, end, order, m) && record_def(
                                    data,
                                    #[trigger] nth_record(data, end, order, m),
                                    order,
                                ) == Some(def);
                            assert(nth_record(data, pos, order, m + 1) == nth_record(
                                data,
                                end,
                                order,
                                m,
                            ));
                            assert(before_end(data, pos, order, m + 1));
                            assert(record_def(data, nth_record(data, pos, order, m + 1), order)
                                == Some(def));
                        }
                    }
                }
            }
        }
    }
}

/// What a section that reads without error says of a location, in terms of its records
/// (numbered from the first after the version): the location has a terminator exactly when
/// some record before the end marker is a block record for it, and then that record's
/// terminator; its definition is known to have no MIR exactly when some record before the end
/// marker says so. With `MirCfg::parse` and `MirCfg::_get` this fixes every lookup.
pub proof fn lemma_section_lookup(
    data: Seq<u8>,
    start: int,
    order: Endian,
    loc: MirLoc,
    n: nat,
)
    requires
        parse_section(data, start, order) is Ok,
    ensures
        ({
            let result = parse_section(data, start, order)->Ok_0;
            let first = start + 2;
            &&& result.blocks.contains_key(loc) <==> exists|m: nat|
                before_end(data, first, order, m) && record_block(
                    data,
                    #[trigger] nth_record(data, first, order, m),
                    order,
                ) == Some(loc)
            &&& result.no_mir.contains((loc.crate_hash, loc.idx)) <==> exists|m: nat|
                before_end(data, first, order, m) && record_def(
                    data,
                    #[trigger] nth_record(data, first, order, m),
                    order,
                ) == Some((loc.crate_hash, loc.idx))
            &&& before_end(data, first, order, n) && record_block(
                data,
                nth_record(data, first, order, n),
                order,
            ) == Some(loc) ==> result.blocks[loc] == terminator_at(
                data[nth_record(data, first, order, n)],
                data,
                nth_record(data, first, order, n) + 1,
                order,
            )
        }),
{
    let first = start + 2;
    let result = parse_section(data, start, order)->Ok_0;
    lemma_blocks_from_records(data, first, order, empty_model());
    lemma_no_mir_from_records(data, first, order, empty_model());
    lemma_before_end_inside(data, first, order, empty_model(), n);
    if before_end(data, first, order, n) && record_block(
        data,
        nth_record(data, first, order, n),
        order,
    ) == Some(loc) {
        lemma_record_found(data, first, order, empty_model(), n);
    }
    if exists|m: nat|
        before_end(data, first, order, m) && record_block(
            data,
            #[trigger] nth_record(data, first, order, m),
            order,
        ) == Some(loc) {
        let m: nat = choose|m: nat|
            before_end(data, first, order, m) && record_block(
                data,
                #[trigger] nth_record(data, first, order, m),
                order,
            ) == Some(loc);
        lemma_before_end_inside(data, first, order, empty_model(), m);
        lemma_record_found(data, first, order, empty_model(), m);
    }
    let def = (loc.crate_hash, loc.idx);
    if exists|m: nat|
        before_end(data, first, order, m) && record_def(
            data,
            #[trigger] nth_record(data, first, order, m),
            order,
        ) == Some(def) {
        let m: nat = choose|m: nat|
            before_end(data, first, order, m) && record_def(
                data,
                #[trigger] nth_record(data, first, order, m),
                order,
            ) == Some(def);
        lemma_before_end_inside(data, first, order, empty_model(), m);
        lemma_record_found(data, first, order, empty_model(), m);
    }
}

/// In a section that reads without error, the record after `n` records that are not the end
/// marker lies inside the data.
proof fn lemma_before_end_inside(data: Seq<u8>, pos: int, order: Endian, model: CfgModel, n: nat)
    requires
        parse_records(data, pos, order, model) is Ok,
    ensures
        before_end(data, pos, order, n) ==> 0 <= nth_record(data, pos, order, n) < data.len(),
    decreases n,
{
    if n > 0 && before_end(data, pos, order, n) {
        let kind: u8 = data[pos];
        let end: int = body_end(kind, data, pos + 1, order);
        let next = if kind == NO_MIR {
            let def = (u64_at(data, pos + 1, order), u32_at(data, pos + 9, order));
            CfgModel { blocks: model.blocks, no_mir: model.no_mir.insert(def) }
        } else {
            let loc = loc_at(data, pos + 1, order);
            let term = terminator_at(kind, data, pos + 1, order);
            CfgModel { blocks: model.blocks.insert(loc, term), no_mir: model.no_mir }
        };
        assert(parse_records(data, pos, order, model) == parse_records(data, end, order, next));
        lemma_before_end_inside(data, end, order, next, (n - 1) as nat);
    }
}


/// A binary's sections as names and data.
pub open spec fn sections_view(sections: Seq<(String, Vec<u8>)>) -> Seq<(Seq<char>, Seq<u8>)> {
    sections.map_values(|section: (String, Vec<u8>)| (section.0@, section.1@))
}

/// The data of the first section called `name`, if any.
pub open spec fn section_named(sections: Seq<(Seq<char>, Seq<u8>)>, name: Seq<char>) -> Option<
    Seq<u8>,
>
    decreases sections.len(),
{
    if sections.len() == 0 {
        None
    } else if sections[0].0 == name {
        Some(sections[0].1)
    } else {
        section_named(sections.drop_first(), name)
    }
}

/// Finds the data of the first section called `name`.
pub fn find_section<'a>(sections: &'a [(String, Vec<u8>)], name: &str) -> (r: Option<&'a [u8]>)
    ensures
        r is None <==> section_named(sections_view(sections@), name@) is None,
        r matches Some(data) ==> section_named(sections_view(sections@), name@) == Some(data@),
        r matches Some(data) ==> exists|i: int|
            0 <= i < sections@.len() && (#[trigger] sections@[i]).0@ == name@ && sections@[i].1@
                == data@ && forall|j: int| 0 <= j < i ==> (#[trigger] sections@[j]).0@ != name@,
        r is None ==> forall|i: int| 0 <= i < sections@.len() ==> (#[trigger] sections@[i]).0@ != name@,
{
    let wanted: String = name.to_owned();
    let ghost all = sections_view(sections@);
    let mut i: usize = 0;
    assert(all.skip(0) =~= all);
    while i < sections.len()
        invariant
            i <= sections@.len(),
            all == sections_view(sections@),
            wanted@ == name@,
            section_named(all, name@) == section_named(all.skip(i as int), name@),
            forall|j: int| 0 <= j < i ==> (#[trigger] sections@[j]).0@ != name@,
        decreases sections.len() - i,
    {
        let section = &sections[i];
        assert(all.skip(i as int).drop_first() =~= all.skip(i + 1));
        assert(all.skip(i as int)[0] == (section.0@, section.1@));
        if section.0 == wanted {
            assert(sections@[i as int].0@ == name@);
            return Some(section.1.as_slice());
        }
        i = i + 1;
    }
    assert(all.skip(i as int).len() == 0);
    None
}

impl MirCfg {
    /// Reads the MIR CFG from a binary's sections (as names and data): from the first section
    /// called `MIR_CFG_SECTION_NAME`, in the machine's byte order.
    pub fn from_sections(sections: &[(String, Vec<u8>)]) -> (r: Result<Self, TraceMappingError>)
        ensures
            section_named(sections_view(sections@), MIR_CFG_SECTION_NAME@) is None ==> r == Err::<
                Self,
                TraceMappingError,
            >(TraceMappingError::NoCfg),
            section_named(sections_view(sections@), MIR_CFG_SECTION_NAME@) matches Some(data)
                ==> exists|order: Endian| agrees(r, #[trigger] parse_section(data, 0, order)),
            section_named(sections_view(sections@), MIR_CFG_SECTION_NAME@) matches Some(data)
                ==> agrees(r, parse_section(data, 0, native_order())),
            (forall|i: int|
                0 <= i < sections@.len() ==> (#[trigger] sections@[i]).0@ != MIR_CFG_SECTION_NAME@)
                ==> r == Err::<Self, TraceMappingError>(TraceMappingError::NoCfg),
            forall|i: int|
                0 <= i < sections@.len() && (#[trigger] sections@[i]).0@ == MIR_CFG_SECTION_NAME@
                    && (forall|j: int|
                    0 <= j < i ==> (#[trigger] sections@[j]).0@ != MIR_CFG_SECTION_NAME@) ==> agrees(
                    r,
                    parse_section(sections@[i].1@, 0, native_order()),
                ),
    {
        let section = find_section(sections, MIR_CFG_SECTION_NAME);
        let r = Self::new(section);
        proof {
            if let Some(data) = section {
                let order = choose|order: Endian| agrees(r, #[trigger] parse_section(data@, 0, order));
                let d = section_named(sections_view(sections@), MIR_CFG_SECTION_NAME@)->Some_0;
                assert(agrees(r, parse_section(d, 0, order)));
                let k = choose|k: int|
                    0 <= k < sections@.len() && (#[trigger] sections@[k]).0@ == MIR_CFG_SECTION_NAME@
                        && sections@[k].1@ == data@ && forall|j: int|
                        0 <= j < k ==> (#[trigger] sections@[j]).0@ != MIR_CFG_SECTION_NAME@;
                assert forall|i: int|
                    0 <= i < sections@.len() && (#[trigger] sections@[i]).0@ == MIR_CFG_SECTION_NAME@
                        && (forall|j: int|
                        0 <= j < i ==> (#[trigger] sections@[j]).0@ != MIR_CFG_SECTION_NAME@) implies agrees(
                    r,
                    parse_section(sections@[i].1@, 0, native_order()),
                ) by {
                    if i < k {
                        assert(sections@[i].0@ != MIR_CFG_SECTION_NAME@);
                    } else if i > k {
                        assert(sections@[k].0@ != MIR_CFG_SECTION_NAME@);
                    }
                }
            }
        }
        assert(section_named(sections_view(sections@), MIR_CFG_SECTION_NAME@) matches Some(data)
                ==> exists|order: Endian| agrees(r, #[trigger] parse_section(data, 0, order)));
        r
    }
}

/// The section called `name` is the first one with exactly that name: `section_named` gives the
/// data of a section whose name equals `name` and before which no section has that name, and
/// gives nothing only when no section has that name.
pub proof fn lemma_section_named_first(sections: Seq<(Seq<char>, Seq<u8>)>, name: Seq<char>)
    ensures
        section_named(sections, name) matches Some(data) ==> exists|i: int|
            0 <= i < sections.len() && (#[trigger] sections[i]).0 == name && sections[i].1 == data
                && forall|j: int| 0 <= j < i ==> (#[trigger] sections[j]).0 != name,
        section_named(sections, name) is None ==> forall|i: int|
            0 <= i < sections.len() ==> (#[trigger] sections[i]).0 != name,
    decreases sections.len(),
{
    if sections.len() > 0 && sections[0].0 != name {
        let rest = sections.drop_first();
        lemma_section_named_first(rest, name);
        if let Some(data) = section_named(sections, name) {
            let k = choose|k: int|
                0 <= k < rest.len() && (#[trigger] rest[k]).0 == name && rest[k].1 == data
                    && forall|j: int| 0 <= j < k ==> (#[trigger] rest[j]).0 != name;
            assert(sections[k + 1] == rest[k]);
            assert forall|j: int| 0 <= j < k + 1 implies (#[trigger] sections[j]).0 != name by {
                if j > 0 {
                    assert(sections[j] == rest[j - 1]);
                }
            }
        } else {
            assert forall|i: int| 0 <= i < sections.len() implies (#[trigger] sections[i]).0 != name by {
                if i > 0 {
                    assert(sections[i] == rest[i - 1]);
                }
            }
        }
    } else if sections.len() > 0 {
        assert(sections[0].0 == name);
    }
}


/// The record kinds: which terminator each kind of block record gives, which optional blocks it
/// carries, where its fields lie after the 16 bytes of its location, and how long its body is.
/// Drops give `Drop` and drop-and-replaces `DropAndReplace`, each with an unwind block exactly
/// for its "with unwind" kind; known calls carry their callee, and calls and asserts carry a
/// cleanup block exactly for their "with cleanup" kinds; yields never carry a drop block.
pub proof fn lemma_record_kinds(kind: u8, data: Seq<u8>, body: int, order: Endian)
    requires
        kind <= FALSE_UNWIND,
    ensures
        ({
            let t = terminator_at(kind, data, body, order);
            let at = body + 16;
            &&& (t is Goto) == (kind == 0) && (t is SwitchInt) == (kind == 1)
            &&& (t is Resume) == (kind == 2) && (t is Abort) == (kind == 3)
            &&& (t is Return) == (kind == 4) && (t is Unreachable) == (kind == 5)
            &&& (t is Drop) == (kind == 6 || kind == 7)
            &&& (t is DropAndReplace) == (kind == 8 || kind == 9)
            &&& (t is Call) == (10 <= kind <= 13)
            &&& (t is Assert) == (kind == 14 || kind == 15)
            &&& (t is Yield) == (kind == 16 || kind == 17)
            &&& (t is GeneratorDrop) == (kind == 18)
            &&& (t is FalseEdges) == (kind == 19) && (t is FalseUnwind) == (kind == 20)
            &&& t matches Terminator::Goto { target_bb } ==> target_bb == u32_at(data, at, order)
            &&& t matches Terminator::SwitchInt { targets } ==> targets.len() == field(data, at, 8, order)
                && forall|j: int| 0 <= j < targets.len() ==> #[trigger] targets[j] == u32_at(data, at + 8 + 4 * j, order)
            &&& t matches Terminator::Drop { target_bb, unwind_bb } ==> target_bb == u32_at(data, at, order)
                && (unwind_bb is Some) == (kind == 7) && (kind == 7 ==> unwind_bb == Some(u32_at(data, at + 4, order)))
            &&& t matches Terminator::DropAndReplace { target_bb, unwind_bb } ==> target_bb == u32_at(data, at, order)
                && (unwind_bb is Some) == (kind == 9) && (kind == 9 ==> unwind_bb == Some(u32_at(data, at + 4, order)))
            &&& t matches Terminator::Call { target, cleanup_bb } ==> (target is Some) == (kind == 10 || kind == 11)
                && (target is Some ==> target == Some((u64_at(data, at, order), u32_at(data, at + 8, order))))
                && (cleanup_bb is Some) == (kind == 11 || kind == 13)
                && (kind == 11 ==> cleanup_bb == Some(u32_at(data, at + 12, order)))
                && (kind == 13 ==> cleanup_bb == Some(u32_at(data, at, order)))
            &&& t matches Terminator::Assert { target_bb, cleanup_bb } ==> target_bb == u32_at(data, at, order)
                && (cleanup_bb is Some) == (kind == 15) && (kind == 15 ==> cleanup_bb == Some(u32_at(data, at + 4, order)))
            &&& t matches Terminator::Yield { resume_bb, drop_bb } ==> resume_bb == u32_at(data, at, order) && drop_bb is None
            &&& t matches Terminator::FalseEdges { real_target_bb } ==> real_target_bb == u32_at(data, at, order)
            &&& t matches Terminator::FalseUnwind { real_target_bb } ==> real_target_bb == u32_at(data, at, order)
            &&& body_len(kind) == 16 + (if kind == 0 || kind == 6 || kind == 8 || kind == 14 || kind == 16
                || kind == 17 || kind == 19 || kind == 20 || kind == 13 { 4int }
                else if kind == 7 || kind == 9 || kind == 15 { 8int }
                else if kind == 1 { 8int }
                else if kind == 10 { 12int }
                else if kind == 11 { 16int }
                else { 0int })
        }),
{
}

} // verus!
