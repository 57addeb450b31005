//! Game settings carried by the server configuration.
use vstd::prelude::*;

verus! {

#[derive(Clone, Copy, Debug, PartialEq, Eq)]
pub enum Difficulty {
    Peaceful,
    Easy,
    Normal,
    Hard,
}

/// Operator permission level, zero to four.
#[derive(Clone, Copy, Debug, Default, PartialEq, Eq)]
pub enum PermissionLvl {
    #[default]
    Zero,
    One,
    Two,
    Three,
    Four,
}

impl PermissionLvl {
    /// The level as a number.
    pub fn level(&self) -> (r: u8)
        ensures
            r == match *self {
                PermissionLvl::Zero => 0u8,
                PermissionLvl::One => 1u8,
                PermissionLvl::Two => 2u8,
                PermissionLvl::Three => 3u8,
                PermissionLvl::Four => 4u8,
            },
    {
        match self {
            PermissionLvl::Zero => 0,
            PermissionLvl::One => 1,
            PermissionLvl::Two => 2,
            PermissionLvl::Three => 3,
            PermissionLvl::Four => 4,
        }
    }
}

#[derive(Clone, Copy, Debug, PartialEq, Eq)]
pub enum GameMode {
    Survival,
    Creative,
    Adventure,
    Spectator,
}

} // verus!
