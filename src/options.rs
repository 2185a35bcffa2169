//! The choices that select how an image is partitioned and turned.
use vstd::prelude::*;

use crate::sorting::SortingMode;
use vstd::string::StringSliceAdditionalSpecFns;

verus! {

/// Byte-for-byte equality of two slices.
pub(crate) fn same_bytes(a: &[u8], b: &[u8]) -> (r: bool)
    ensures
        r == (a@ == b@),
{
    if a.len() != b.len() {
        return false;
    }
    let mut i: usize = 0;
    while i < a.len()
        invariant
            a@.len() == b@.len(),
            i <= a@.len(),
            forall|k: int| 0 <= k < i ==> a@[k] == b@[k],
        decreases a@.len() - i,
    {
        if a[i] != b[i] {
            return false;
        }
        i += 1;
    }
    assert(a@ =~= b@);
    true
}

/// The turn applied to the image (and mask) before sorting, and undone after.
#[derive(Clone, Copy, Debug, PartialEq, Eq, Structural)]
pub enum Rotation {
    Zero,
    Quarter,
    Half,
    NegQuarter,
}

/// The rotation for an angle in degrees, taken modulo 360.
pub open spec fn rotation_for(angle: int) -> Option<Rotation> {
    let a = angle % 360;
    if a == 0 {
        Some(Rotation::Zero)
    } else if a == 90 {
        Some(Rotation::Quarter)
    } else if a == 180 {
        Some(Rotation::Half)
    } else if a == 270 {
        Some(Rotation::NegQuarter)
    } else {
        None
    }
}

impl Rotation {
    /// The rotation for an angle in degrees; `None` unless the angle is a
    /// multiple of 90.
    pub fn from_degrees(angle: isize) -> (r: Option<Rotation>)
        ensures
            r == rotation_for(angle as int),
    {
        match angle.checked_rem_euclid(360) {
            Some(0) => Some(Rotation::Zero),
            Some(90) => Some(Rotation::Quarter),
            Some(180) => Some(Rotation::Half),
            Some(270) => Some(Rotation::NegQuarter),
            _ => None,
        }
    }
}

/// How the rows are cut into intervals.
#[derive(Clone, Copy, Debug, PartialEq, Eq, Structural)]
pub enum IntervalFunction {
    Full,
    Edges,
    Random,
    Threshold,
    SplitEqual,
}

/// The interval function that a name selects.
pub open spec fn interval_function_named(name: Seq<u8>) -> Option<IntervalFunction> {
    if name == "full".spec_bytes() {
        Some(IntervalFunction::Full)
    } else if name == "edge".spec_bytes() {
        Some(IntervalFunction::Edges)
    } else if name == "random".spec_bytes() {
        Some(IntervalFunction::Random)
    } else if name == "threshold".spec_bytes() {
        Some(IntervalFunction::Threshold)
    } else if name == "split".spec_bytes() {
        Some(IntervalFunction::SplitEqual)
    } else {
        None
    }
}

/// The sorting mode that a name selects.
pub open spec fn sorting_mode_named(name: Seq<u8>) -> Option<SortingMode> {
    if name == "lightness".spec_bytes() {
        Some(SortingMode::Lightness)
    } else if name == "intensity".spec_bytes() {
        Some(SortingMode::Intensity)
    } else if name == "minimum".spec_bytes() {
        Some(SortingMode::Minimum)
    } else if name == "maximum".spec_bytes() {
        Some(SortingMode::Maximum)
    } else {
        None
    }
}

impl IntervalFunction {
    /// Reads one of `full`, `edge`, `random`, `threshold`, `split`.
    pub fn from_name(name: &str) -> (r: Option<IntervalFunction>)
        ensures
            r == interval_function_named(name.spec_bytes()),
    {
        let b = name.as_bytes();
        if same_bytes(b, "full".as_bytes()) {
            Some(IntervalFunction::Full)
        } else if same_bytes(b, "edge".as_bytes()) {
            Some(IntervalFunction::Edges)
        } else if same_bytes(b, "random".as_bytes()) {
            Some(IntervalFunction::Random)
        } else if same_bytes(b, "threshold".as_bytes()) {
            Some(IntervalFunction::Threshold)
        } else if same_bytes(b, "split".as_bytes()) {
            Some(IntervalFunction::SplitEqual)
        } else {
            None
        }
    }
}

impl SortingMode {
    /// Reads one of `lightness`, `intensity`, `minimum`, `maximum`.
    pub fn from_name(name: &str) -> (r: Option<SortingMode>)
        ensures
            r == sorting_mode_named(name.spec_bytes()),
    {
        let b = name.as_bytes();
        if same_bytes(b, "lightness".as_bytes()) {
            Some(SortingMode::Lightness)
        } else if same_bytes(b, "intensity".as_bytes()) {
            Some(SortingMode::Intensity)
        } else if same_bytes(b, "minimum".as_bytes()) {
            Some(SortingMode::Minimum)
        } else if same_bytes(b, "maximum".as_bytes()) {
            Some(SortingMode::Maximum)
        } else {
            None
        }
    }
}

} // verus!
