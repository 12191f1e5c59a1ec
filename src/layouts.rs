//! Translation between the codes the kernel reports and the codes the
//! configuration speaks in.
use vstd::prelude::*;
use crate::keys::KeyCode;

verus! {

/// The physical layout of a keyboard.
///
/// With `Dvorak`, the keyboard sends QWERTY codes while its user types
/// Dvorak: each code is translated to the code of the key that carries the
/// same character on a QWERTY board. Keys outside the letter and symbol
/// block pass unchanged.
#[derive(Clone, Copy, Debug, PartialEq, Eq, Structural)]
pub enum Layout {
    Dvorak,
    Qwerty,
}

/// The logical code that a physical key stands for on a Dvorak board.
pub open spec fn dvorak_logical(k: KeyCode) -> KeyCode {
    match k {
        12 => 26,
        13 => 27,
        16 => 40,
        17 => 51,
        18 => 52,
        19 => 25,
        20 => 21,
        21 => 33,
        22 => 34,
        23 => 46,
        24 => 19,
        25 => 38,
        26 => 53,
        27 => 13,
        31 => 24,
        32 => 18,
        33 => 22,
        34 => 23,
        35 => 32,
        36 => 35,
        37 => 20,
        38 => 49,
        39 => 31,
        40 => 12,
        44 => 39,
        45 => 16,
        46 => 36,
        47 => 37,
        48 => 45,
        49 => 48,
        51 => 17,
        52 => 47,
        53 => 44,
        _ => k,
    }
}

/// The physical key that carries a logical code on a Dvorak board.
pub open spec fn dvorak_physical(k: KeyCode) -> KeyCode {
    match k {
        26 => 12,
        27 => 13,
        40 => 16,
        51 => 17,
        52 => 18,
        25 => 19,
        21 => 20,
        33 => 21,
        34 => 22,
        46 => 23,
        19 => 24,
        38 => 25,
        53 => 26,
        13 => 27,
        24 => 31,
        18 => 32,
        22 => 33,
        23 => 34,
        32 => 35,
        35 => 36,
        20 => 37,
        49 => 38,
        31 => 39,
        12 => 40,
        39 => 44,
        16 => 45,
        36 => 46,
        37 => 47,
        45 => 48,
        48 => 49,
        17 => 51,
        47 => 52,
        44 => 53,
        _ => k,
    }
}

impl Layout {
    /// The logical code of physical key `k` under this layout.
    pub open spec fn to_logical(self, k: KeyCode) -> KeyCode {
        match self {
            Layout::Dvorak => dvorak_logical(k),
            Layout::Qwerty => k,
        }
    }

    /// The physical code of logical key `k` under this layout.
    pub open spec fn to_physical(self, k: KeyCode) -> KeyCode {
        match self {
            Layout::Dvorak => dvorak_physical(k),
            Layout::Qwerty => k,
        }
    }

    /// Physical code to logical code.
    pub fn resolve(self, key: &KeyCode) -> (r: KeyCode)
        ensures
            r == self.to_logical(*key),
    {
        match self {
            Layout::Dvorak => match *key {
                12 => 26,
                13 => 27,
                16 => 40,
                17 => 51,
                18 => 52,
                19 => 25,
                20 => 21,
                21 => 33,
                22 => 34,
                23 => 46,
                24 => 19,
                25 => 38,
                26 => 53,
                27 => 13,
                31 => 24,
                32 => 18,
                33 => 22,
                34 => 23,
                35 => 32,
                36 => 35,
                37 => 20,
                38 => 49,
                39 => 31,
                40 => 12,
                44 => 39,
                45 => 16,
                46 => 36,
                47 => 37,
                48 => 45,
                49 => 48,
                51 => 17,
                52 => 47,
                53 => 44,
                k => k,
            },
            Layout::Qwerty => *key,
        }
    }

    /// Logical code to physical code.
    pub fn resolve_reverse(self, key: &KeyCode) -> (r: KeyCode)
        ensures
            r == self.to_physical(*key),
    {
        match self {
            Layout::Dvorak => match *key {
                26 => 12,
                27 => 13,
                40 => 16,
                51 => 17,
                52 => 18,
                25 => 19,
                21 => 20,
                33 => 21,
                34 => 22,
                46 => 23,
                19 => 24,
                38 => 25,
                53 => 26,
                13 => 27,
                24 => 31,
                18 => 32,
                22 => 33,
                23 => 34,
                32 => 35,
                35 => 36,
                20 => 37,
                49 => 38,
                31 => 39,
                12 => 40,
                39 => 44,
                16 => 45,
                36 => 46,
                37 => 47,
                45 => 48,
                48 => 49,
                17 => 51,
                47 => 52,
                44 => 53,
                k => k,
            },
            Layout::Qwerty => *key,
        }
    }
}

/// The layout a keyboard has when its configuration names none.
pub fn default_layout() -> (r: Layout)
    ensures
        r == Layout::Qwerty,
{
    Layout::Qwerty
}

/// Translating a physical code to the logical space and back gives the
/// physical code again, and translating a logical code to the physical
/// space and back gives the logical code again: each layout is a bijection
/// on key codes.
pub proof fn lemma_layout_round_trip(layout: Layout, k: KeyCode)
    ensures
        layout.to_physical(layout.to_logical(k)) == k,
        layout.to_logical(layout.to_physical(k)) == k,
{
}

} // verus!
