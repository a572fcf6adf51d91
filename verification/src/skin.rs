//! How cards are drawn: a setting carried in the game state, which the rules
//! never read.

use vstd::prelude::*;

verus! {

/// How ranks are written on the cards.
#[derive(Clone, Copy, Debug, PartialEq, Eq, Structural)]
pub enum RankSkin {
    Numbers,
}

/// How suits are drawn on the cards.
#[derive(Clone, Copy, Debug, PartialEq, Eq, Structural)]
pub enum SuitSkin {
    Shapes,
    Animals,
    Mystique,
}

#[derive(Clone, Copy, Debug, PartialEq, Eq, Structural)]
pub struct Skin {
    pub ranks: RankSkin,
    pub suits: SuitSkin,
}

impl Default for Skin {
    fn default() -> (res: Skin)
        ensures
            res.ranks == RankSkin::Numbers,
            res.suits == SuitSkin::Shapes,
    {
        Skin { ranks: RankSkin::Numbers, suits: SuitSkin::Shapes }
    }
}

} // verus!
