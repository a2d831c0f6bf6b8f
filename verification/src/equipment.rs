//! Channel groups of the equipment model shared by the information and device-model
//! files: which analog channels carry a bus's voltages, a branch's currents, and so on.
//! Channel numbers are 1-based; 0 means "not configured".

use vstd::prelude::*;

use crate::text::{ascii_lower, ascii_lower_chars, chars_eq_str, str_chars, trim, trim_chars};

verus! {

/// Voltage channels of one set of measurements.
#[derive(Debug, Clone, Copy, Default, PartialEq, Eq, Structural)]
pub struct AcvChn {
    /// Phase-A voltage channel.
    pub ua_idx: usize,
    /// Phase-B voltage channel.
    pub ub_idx: usize,
    /// Phase-C voltage channel.
    pub uc_idx: usize,
    /// Neutral (zero-sequence) voltage channel.
    pub un_idx: usize,
    /// Line-voltage channel.
    pub ul_idx: usize,
}

impl AcvChn {
    /// Whether no channel is configured.
    pub fn is_empty(&self) -> (r: bool)
        ensures
            r == (self.ua_idx == 0 && self.ub_idx == 0 && self.uc_idx == 0 && self.un_idx == 0
                && self.ul_idx == 0),
    {
        self.ua_idx == 0 && self.ub_idx == 0 && self.uc_idx == 0 && self.un_idx == 0
            && self.ul_idx == 0
    }
}

/// Current channels of one branch, with the direction of the current.
#[derive(Debug, Clone, PartialEq)]
pub struct AccBran {
    /// Branch number, from 1.
    pub bran_idx: usize,
    /// Phase-A current channel.
    pub ia_idx: usize,
    /// Phase-B current channel.
    pub ib_idx: usize,
    /// Phase-C current channel.
    pub ic_idx: usize,
    /// Neutral (zero-sequence) current channel.
    pub in_idx: usize,
    /// Direction: `1` towards the protected object, `-1` away from it.
    pub dir: i32,
    /// The direction as it was spelled in the source (`POS`, `pos`, `-1`).
    pub dir_raw: String,
}

impl Default for AccBran {
    /// No channels, forward direction, no spelling.
    fn default() -> (r: Self)
        ensures
            r.bran_idx == 0 && r.ia_idx == 0 && r.ib_idx == 0 && r.ic_idx == 0 && r.in_idx == 0,
            r.dir == 1,
            r.dir_raw@ == Seq::<char>::empty(),
    {
        AccBran {
            bran_idx: 0,
            ia_idx: 0,
            ib_idx: 0,
            ic_idx: 0,
            in_idx: 0,
            dir: 1,
            dir_raw: String::new(),
        }
    }
}

impl AccBran {
    /// Whether no current channel is configured.
    pub fn is_empty(&self) -> (r: bool)
        ensures
            r == (self.ia_idx == 0 && self.ib_idx == 0 && self.ic_idx == 0 && self.in_idx == 0),
    {
        self.ia_idx == 0 && self.ib_idx == 0 && self.ic_idx == 0 && self.in_idx == 0
    }
}

/// Gap zero-sequence current channels of a transformer winding.
#[derive(Debug, Clone, Copy, Default, PartialEq, Eq, Structural)]
pub struct Igap {
    /// Gap zero-sequence current channel.
    pub zgap_idx: usize,
    /// Spare gap zero-sequence current channel.
    pub zsgap_idx: usize,
}

/// Side of a transformer that a winding sits on.
#[derive(Debug, Clone, Copy, PartialEq, Eq, Structural)]
pub enum WindingLocation {
    /// High-voltage side.
    High,
    /// Medium-voltage side.
    Medium,
    /// Low-voltage side.
    Low,
}

/// The canonical spelling of a side (`"High"`).
pub open spec fn location_text(w: WindingLocation) -> Seq<char> {
    match w {
        WindingLocation::High => seq!['H', 'i', 'g', 'h'],
        WindingLocation::Medium => seq!['M', 'e', 'd', 'i', 'u', 'm'],
        WindingLocation::Low => seq!['L', 'o', 'w'],
    }
}

/// The key prefix of a side in the information file (`"H"`).
pub open spec fn location_prefix(w: WindingLocation) -> Seq<char> {
    match w {
        WindingLocation::High => seq!['H'],
        WindingLocation::Medium => seq!['M'],
        WindingLocation::Low => seq!['L'],
    }
}

/// The branch numbers `TA_Id_#N` that belong to a side: 1-2 high, 3-4 medium, 5-7 low.
pub open spec fn location_ta_ids(w: WindingLocation) -> Seq<usize> {
    match w {
        WindingLocation::High => seq![1usize, 2usize],
        WindingLocation::Medium => seq![3usize, 4usize],
        WindingLocation::Low => seq![5usize, 6usize, 7usize],
    }
}

/// The side a lower-case spelling names: `high`/`h`, `medium`/`middle`/`m`, `low`/`l`.
pub open spec fn location_of(t: Seq<char>) -> Option<WindingLocation> {
    if t == seq!['h', 'i', 'g', 'h'] || t == seq!['h'] {
        Some(WindingLocation::High)
    } else if t == seq!['m', 'e', 'd', 'i', 'u', 'm'] || t == seq!['m', 'i', 'd', 'd', 'l', 'e']
        || t == seq!['m'] {
        Some(WindingLocation::Medium)
    } else if t == seq!['l', 'o', 'w'] || t == seq!['l'] {
        Some(WindingLocation::Low)
    } else {
        None
    }
}

impl WindingLocation {
    /// The key prefix of the side in the information file.
    pub fn inf_prefix(&self) -> (r: &'static str)
        ensures
            r@ == location_prefix(*self),
    {
        match self {
            WindingLocation::High => {
                proof {
                    reveal_strlit("H");
                }
                "H"
            },
            WindingLocation::Medium => {
                proof {
                    reveal_strlit("M");
                }
                "M"
            },
            WindingLocation::Low => {
                proof {
                    reveal_strlit("L");
                }
                "L"
            },
        }
    }

    /// The branch numbers `TA_Id_#N` of the side.
    pub fn ta_id_indices(&self) -> (r: &'static [usize])
        ensures
            r@ == location_ta_ids(*self),
    {
        match self {
            WindingLocation::High => {
                let a: &'static [usize; 2] = &[1usize, 2usize];
                assert(a@ =~= seq![1usize, 2usize]);
                a
            },
            WindingLocation::Medium => {
                let a: &'static [usize; 2] = &[3usize, 4usize];
                assert(a@ =~= seq![3usize, 4usize]);
                a
            },
            WindingLocation::Low => {
                let a: &'static [usize; 3] = &[5usize, 6usize, 7usize];
                assert(a@ =~= seq![5usize, 6usize, 7usize]);
                a
            },
        }
    }

    /// The canonical spelling of the side.
    pub fn as_str(&self) -> (r: &'static str)
        ensures
            r@ == location_text(*self),
    {
        match self {
            WindingLocation::High => {
                proof {
                    reveal_strlit("High");
                }
                "High"
            },
            WindingLocation::Medium => {
                proof {
                    reveal_strlit("Medium");
                }
                "Medium"
            },
            WindingLocation::Low => {
                proof {
                    reveal_strlit("Low");
                }
                "Low"
            },
        }
    }

    /// Reads a side, ignoring surrounding white space and ASCII letter case.
    pub fn parse(s: &str) -> (r: Option<WindingLocation>)
        ensures
            r == location_of(ascii_lower(trim(s@))),
    {
        let cs = str_chars(s);
        let t = trim_chars(cs.as_slice());
        let l = ascii_lower_chars(t.as_slice());
        let ls = l.as_slice();
        proof {
            reveal_strlit("high");
            reveal_strlit("h");
            reveal_strlit("medium");
            reveal_strlit("middle");
            reveal_strlit("m");
            reveal_strlit("low");
            reveal_strlit("l");
            assert("high"@ =~= seq!['h', 'i', 'g', 'h']);
            assert("h"@ =~= seq!['h']);
            assert("medium"@ =~= seq!['m', 'e', 'd', 'i', 'u', 'm']);
            assert("middle"@ =~= seq!['m', 'i', 'd', 'd', 'l', 'e']);
            assert("m"@ =~= seq!['m']);
            assert("low"@ =~= seq!['l', 'o', 'w']);
            assert("l"@ =~= seq!['l']);
        }
        if chars_eq_str(ls, "high") || chars_eq_str(ls, "h") {
            Some(WindingLocation::High)
        } else if chars_eq_str(ls, "medium") || chars_eq_str(ls, "middle") || chars_eq_str(
            ls,
            "m",
        ) {
            Some(WindingLocation::Medium)
        } else if chars_eq_str(ls, "low") || chars_eq_str(ls, "l") {
            Some(WindingLocation::Low)
        } else {
            None
        }
    }
}

/// Reading the canonical spelling of a side gives the side back.
pub proof fn lemma_location_round_trip(w: WindingLocation)
    ensures
        location_of(ascii_lower(trim(location_text(w)))) == Some(w),
{
    let t = location_text(w);
    assert(trim(t) == t);
    let l = ascii_lower(t);
    match w {
        WindingLocation::High => {
            assert(l =~= seq!['h', 'i', 'g', 'h']);
        },
        WindingLocation::Medium => {
            assert(l =~= seq!['m', 'e', 'd', 'i', 'u', 'm']);
            assert(l != seq!['h', 'i', 'g', 'h'] && l != seq!['h']) by {
                assert(l[0] != 'h');
            }
        },
        WindingLocation::Low => {
            assert(l =~= seq!['l', 'o', 'w']);
            assert(l[0] != 'h' && l[0] != 'm');
            assert(l != seq!['h', 'i', 'g', 'h'] && l != seq!['h']);
            assert(l != seq!['m', 'e', 'd', 'i', 'u', 'm'] && l != seq!['m', 'i', 'd', 'd', 'l', 'e']
                && l != seq!['m']);
        },
    }
}

/// Number of branches in each neutral-side branch group of a generator.
#[derive(Debug, Clone, Copy, Default, PartialEq, Eq, Structural)]
pub struct BranchNum {
    /// Branches of the first group.
    pub z1: usize,
    /// Branches of the second group.
    pub z2: usize,
    /// Branches of the third group.
    pub z3: usize,
}

/// Field-voltage channels of a generator.
#[derive(Debug, Clone, Copy, Default, PartialEq, Eq, Structural)]
pub struct UfeChns {
    /// Field voltage.
    pub ufe: usize,
    /// Positive pole to earth.
    pub pos: usize,
    /// Negative pole to earth.
    pub neg: usize,
}

/// Zero-sequence voltage channels of a generator or exciter.
#[derive(Debug, Clone, Copy, Default, PartialEq, Eq, Structural)]
pub struct UnChns {
    /// At the machine terminals.
    pub terminal: usize,
    /// At the neutral point.
    pub neutral: usize,
    /// Longitudinal.
    pub longitudinal: usize,
}

} // verus!
