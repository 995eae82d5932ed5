//! Slot confirmation statuses and their wire codes.

use vstd::prelude::*;

verus! {

/// Confirmation level reported for a slot.
#[derive(Clone, Copy, Debug, PartialEq, Eq, Structural)]
pub enum SlotStatusKind {
    Processed,
    Confirmed,
    Rooted,
    Unknown,
}

/// The confirmation level a wire status code denotes: the three known
/// codes map to their levels, every other code to `Unknown`.
pub open spec fn status_kind_of(code: u64) -> SlotStatusKind {
    if code == 0 {
        SlotStatusKind::Processed
    } else if code == 1 {
        SlotStatusKind::Confirmed
    } else if code == 2 {
        SlotStatusKind::Rooted
    } else {
        SlotStatusKind::Unknown
    }
}

/// Display name of a confirmation level.
pub open spec fn status_name_of(kind: SlotStatusKind) -> Seq<char> {
    match kind {
        SlotStatusKind::Processed => "PROCESSED"@,
        SlotStatusKind::Confirmed => "CONFIRMED"@,
        SlotStatusKind::Rooted => "ROOTED"@,
        SlotStatusKind::Unknown => "UNKNOWN"@,
    }
}

/// Map a wire status code to its confirmation level.
pub fn status_from_code(code: u64) -> (r: SlotStatusKind)
    ensures
        r == status_kind_of(code),
{
    if code == 0 {
        SlotStatusKind::Processed
    } else if code == 1 {
        SlotStatusKind::Confirmed
    } else if code == 2 {
        SlotStatusKind::Rooted
    } else {
        SlotStatusKind::Unknown
    }
}

impl SlotStatusKind {
    /// Display name of this confirmation level.
    pub fn name(&self) -> (r: String)
        ensures
            r@ == status_name_of(*self),
    {
        match self {
            SlotStatusKind::Processed => String::from_str("PROCESSED"),
            SlotStatusKind::Confirmed => String::from_str("CONFIRMED"),
            SlotStatusKind::Rooted => String::from_str("ROOTED"),
            SlotStatusKind::Unknown => String::from_str("UNKNOWN"),
        }
    }
}

/// The status-code mapping is total: each of the three known codes maps
/// to its own confirmation level, and every other code maps to
/// `Unknown`.
pub proof fn lemma_status_mapping_total(code: u64)
    ensures
        code == 0 ==> status_kind_of(code) == SlotStatusKind::Processed,
        code == 1 ==> status_kind_of(code) == SlotStatusKind::Confirmed,
        code == 2 ==> status_kind_of(code) == SlotStatusKind::Rooted,
        code > 2 ==> status_kind_of(code) == SlotStatusKind::Unknown,
{
}

} // verus!
