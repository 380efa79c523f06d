//! The packed per-node matching state: a two-bit status over a 30-bit
//! payload.

use vstd::prelude::*;

verus! {

/// Mask of the 30-bit payload of a packed word.
pub const PAYLOAD_MASK: u32 = 0x3FFF_FFFF;

/// Mask of the two status bits of a packed word.
pub const STATUS_MASK: u32 = 0xC000_0000;

/// Exclusive upper bound on node indices: two bits of a word are reserved.
pub const MAX_NODES: u32 = 0x4000_0000;

/// Where a node stands in the matching.
#[derive(Clone, Copy, PartialEq, Eq, Structural, Debug)]
pub enum MatchStatus {
    Blue,
    Red,
    Dead,
    Matched,
}

impl MatchStatus {
    /// The two-bit code of the status.
    pub open spec fn code(self) -> u32 {
        match self {
            MatchStatus::Blue => 0,
            MatchStatus::Red => 1,
            MatchStatus::Dead => 2,
            MatchStatus::Matched => 3,
        }
    }

    /// The status whose code is `code % 4`.
    pub open spec fn from_code(code: u32) -> MatchStatus {
        if code % 4 == 0 {
            MatchStatus::Blue
        } else if code % 4 == 1 {
            MatchStatus::Red
        } else if code % 4 == 2 {
            MatchStatus::Dead
        } else {
            MatchStatus::Matched
        }
    }

    /// Still taking part in the matching: blue or red.
    pub open spec fn is_live(self) -> bool {
        self == MatchStatus::Blue || self == MatchStatus::Red
    }
}

/// One node's packed matching word: status in the two most significant bits,
/// the partner (or any other payload) in the 30 bits below.
#[derive(Clone, Copy, PartialEq, Eq, Structural, Debug)]
pub struct MatchState {
    pub packed_data: u32,
}

impl MatchState {
    /// The status held in the two top bits.
    #[verifier::opaque]
    pub open spec fn spec_status(self) -> MatchStatus {
        MatchStatus::from_code(self.packed_data >> 30)
    }

    /// The payload held in the 30 low bits.
    #[verifier::opaque]
    pub open spec fn spec_index(self) -> u32 {
        self.packed_data & PAYLOAD_MASK
    }

    /// The word that packs `status` over `match_index`.
    #[verifier::opaque]
    pub open spec fn spec_new(status: MatchStatus, match_index: u32) -> MatchState {
        MatchState { packed_data: (status.code() << 30) | match_index }
    }

    /// Packs a status and a payload below 2^30.
    pub fn new(status: MatchStatus, match_index: u32) -> (r: MatchState)
        requires
            match_index < MAX_NODES,
        ensures
            r == MatchState::spec_new(status, match_index),
            r.spec_status() == status,
            r.spec_index() == match_index,
    {
        reveal(MatchState::spec_new);
        reveal(MatchState::spec_status);
        reveal(MatchState::spec_index);
        let code: u32 = match status {
            MatchStatus::Blue => 0,
            MatchStatus::Red => 1,
            MatchStatus::Dead => 2,
            MatchStatus::Matched => 3,
        };
        let packed = (code << 30) | match_index;
        assert(((code << 30) | match_index) >> 30 == code) by (bit_vector)
            requires
                code < 4,
                match_index < 0x4000_0000u32,
        ;
        assert(((code << 30) | match_index) & 0x3FFF_FFFFu32 == match_index) by (bit_vector)
            requires
                code < 4,
                match_index < 0x4000_0000u32,
        ;
        MatchState { packed_data: packed }
    }

    /// Unpacking a packed word gives back its status and payload.
    pub proof fn lemma_spec_new(status: MatchStatus, match_index: u32)
        requires
            match_index < MAX_NODES,
        ensures
            MatchState::spec_new(status, match_index).spec_status() == status,
            MatchState::spec_new(status, match_index).spec_index() == match_index,
    {
        reveal(MatchState::spec_new);
        reveal(MatchState::spec_status);
        reveal(MatchState::spec_index);
        let code = status.code();
        assert(((code << 30) | match_index) >> 30 == code) by (bit_vector)
            requires
                code < 4,
                match_index < 0x4000_0000u32,
        ;
        assert(((code << 30) | match_index) & 0x3FFF_FFFFu32 == match_index) by (bit_vector)
            requires
                code < 4,
                match_index < 0x4000_0000u32,
        ;
    }

    /// The status of the node.
    pub fn status(&self) -> (r: MatchStatus)
        ensures
            r == self.spec_status(),
    {
        reveal(MatchState::spec_status);
        let w = self.packed_data;
        let code = w >> 30;
        assert(w >> 30 < 4) by (bit_vector);
        if code == 0 {
            MatchStatus::Blue
        } else if code == 1 {
            MatchStatus::Red
        } else if code == 2 {
            MatchStatus::Dead
        } else {
            MatchStatus::Matched
        }
    }

    /// The payload: the partner of a matched node.
    pub fn match_index(&self) -> (r: u32)
        ensures
            r == self.spec_index(),
            r < MAX_NODES,
    {
        reveal(MatchState::spec_index);
        let w = self.packed_data;
        let r = w & PAYLOAD_MASK;
        assert(w & 0x3FFF_FFFFu32 < 0x4000_0000u32) by (bit_vector);
        r
    }
}

} // verus!
