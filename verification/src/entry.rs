//! The value stored per ledger entry: whether the path has been resolved,
//! and if so whether the marker was found.
use vstd::prelude::*;

verus! {

#[derive(Clone, Copy, Debug, PartialEq, Eq, Structural)]
pub enum EntryState {
    /// Registered by the scan, not yet run through the analyzer.
    Unresolved,
    /// Analyzer ran; no marker in its output.
    NoMatch,
    /// Analyzer ran; at least one marker found.
    MatchFound,
}

/// The stored byte form of an entry state.
pub open spec fn value_of(st: EntryState) -> Seq<u8> {
    match st {
        EntryState::Unresolved => seq![0u8],
        EntryState::NoMatch => seq![1u8],
        EntryState::MatchFound => seq![2u8],
    }
}

/// The state a stored value denotes, if it is well formed.
pub open spec fn state_of(v: Seq<u8>) -> Option<EntryState> {
    if v == value_of(EntryState::Unresolved) {
        Some(EntryState::Unresolved)
    } else if v == value_of(EntryState::NoMatch) {
        Some(EntryState::NoMatch)
    } else if v == value_of(EntryState::MatchFound) {
        Some(EntryState::MatchFound)
    } else {
        None
    }
}

pub fn encode_state(st: EntryState) -> (v: Vec<u8>)
    ensures
        v@ == value_of(st),
{
    match st {
        EntryState::Unresolved => {
            let v: Vec<u8> = vec![0u8];
            assert(v@ =~= value_of(EntryState::Unresolved));
            v
        },
        EntryState::NoMatch => {
            let v: Vec<u8> = vec![1u8];
            assert(v@ =~= value_of(EntryState::NoMatch));
            v
        },
        EntryState::MatchFound => {
            let v: Vec<u8> = vec![2u8];
            assert(v@ =~= value_of(EntryState::MatchFound));
            v
        },
    }
}

pub fn parse_state(v: &Vec<u8>) -> (st: Option<EntryState>)
    ensures
        st == state_of(v@),
{
    if v.len() == 1 {
        if v[0] == 0 {
            assert(v@ =~= value_of(EntryState::Unresolved));
            Some(EntryState::Unresolved)
        } else if v[0] == 1 {
            assert(v@ =~= value_of(EntryState::NoMatch));
            Some(EntryState::NoMatch)
        } else if v[0] == 2 {
            assert(v@ =~= value_of(EntryState::MatchFound));
            Some(EntryState::MatchFound)
        } else {
            None
        }
    } else {
        None
    }
}

} // verus!
