//! How the scratch directory of one run is placed and kept.
use vstd::prelude::*;

use crate::text::str_eq;

verus! {

/// Where scratch files go and whether they outlive a failed run.
#[derive(Debug, Clone, Copy, PartialEq, Eq, Structural)]
pub enum TempMode {
    /// In `/dev/shm` when there is one, else the system temp directory; always removed.
    Normal,
    /// In the system temp directory; left in place when the run fails.
    KeepOnFailure,
    /// In `/dev/shm` when there is one, else the system temp directory; always removed
    /// when the process ends, never left behind.
    ShmDebug,
}

/// `shm`
pub open spec fn shm_word() -> Seq<char> {
    seq!['s', 'h', 'm']
}

/// The mode asked for by the value of the option that keeps scratch files: none is
/// the normal mode, `shm` keeps them in shared memory until exit, anything else keeps
/// them on failure.
pub open spec fn spec_temp_mode(option: Option<Seq<char>>) -> TempMode {
    match option {
        None => TempMode::Normal,
        Some(v) => if v == shm_word() {
            TempMode::ShmDebug
        } else {
            TempMode::KeepOnFailure
        },
    }
}

impl TempMode {
    /// The mode asked for by the value of the option that keeps scratch files.
    pub fn from_option(option: Option<&str>) -> (r: TempMode)
        ensures
            r == spec_temp_mode(
                match option {
                    Some(v) => Some(v@),
                    None => None,
                },
            ),
    {
        proof {
            reveal_strlit("shm");
        }
        let shm = "shm";
        assert(shm@ =~= shm_word());
        match option {
            None => TempMode::Normal,
            Some(v) => if str_eq(v, shm) {
                TempMode::ShmDebug
            } else {
                TempMode::KeepOnFailure
            },
        }
    }

    /// Whether the scratch directory goes to `/dev/shm` when that exists.
    pub fn prefers_shm(&self) -> (r: bool)
        ensures
            r == (*self == TempMode::Normal || *self == TempMode::ShmDebug),
    {
        match self {
            TempMode::Normal | TempMode::ShmDebug => true,
            TempMode::KeepOnFailure => false,
        }
    }

    /// Whether the scratch directory is kept when the run fails.
    pub fn keeps_on_failure(&self) -> (r: bool)
        ensures
            r == (*self == TempMode::KeepOnFailure),
    {
        match self {
            TempMode::KeepOnFailure => true,
            _ => false,
        }
    }
}

} // verus!
