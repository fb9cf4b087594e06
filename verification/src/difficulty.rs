//! Difficulty tiers and the movement directions each tier permits.

use vstd::prelude::*;

verus! {

/// One of the eight unit step vectors a word may be laid out along.
#[derive(PartialEq, Eq, Structural, Hash, Debug, Clone, Copy)]
pub enum Direction {
    Right,
    Left,
    Up,
    Down,
    RightUp,
    RightDown,
    LeftUp,
    LeftDown,
}

/// A named tier restricting which directions are usable; the tiers are
/// strictly nested: Easy's directions are a prefix of Normal's, and Normal's
/// a prefix of Hard's.
#[derive(PartialEq, Eq, Structural, Hash, Debug, Clone, Copy)]
pub enum Difficulty {
    Easy,
    Normal,
    Hard,
}

impl Difficulty {
    /// The exact ordered list of directions this tier permits.
    pub open spec fn directions_spec(self) -> Seq<Direction> {
        match self {
            Difficulty::Easy => seq![Direction::Right, Direction::Down],
            Difficulty::Normal => seq![
                Direction::Right,
                Direction::Down,
                Direction::RightDown,
                Direction::RightUp,
            ],
            Difficulty::Hard => seq![
                Direction::Right,
                Direction::Down,
                Direction::RightDown,
                Direction::RightUp,
                Direction::LeftUp,
                Direction::LeftDown,
            ],
        }
    }

    pub fn directions(&self) -> (r: Vec<Direction>)
        ensures
            r@ == self.directions_spec(),
    {
        match self {
            Difficulty::Easy => {
                let r = vec![Direction::Right, Direction::Down];
                assert(r@ =~= self.directions_spec());
                r
            },
            Difficulty::Normal => {
                let r = vec![
                    Direction::Right,
                    Direction::Down,
                    Direction::RightDown,
                    Direction::RightUp,
                ];
                assert(r@ =~= self.directions_spec());
                r
            },
            Difficulty::Hard => {
                let r = vec![
                    Direction::Right,
                    Direction::Down,
                    Direction::RightDown,
                    Direction::RightUp,
                    Direction::LeftUp,
                    Direction::LeftDown,
                ];
                assert(r@ =~= self.directions_spec());
                r
            },
        }
    }

    /// The tiers are strictly nested: every direction a tier permits is
    /// permitted by each harder tier, and each harder tier permits more.
    pub proof fn lemma_tiers_nested()
        ensures
            forall|d: Direction|
                Difficulty::Easy.directions_spec().contains(d)
                    ==> #[trigger] Difficulty::Normal.directions_spec().contains(d),
            forall|d: Direction|
                Difficulty::Normal.directions_spec().contains(d)
                    ==> #[trigger] Difficulty::Hard.directions_spec().contains(d),
            Difficulty::Easy.directions_spec().len() < Difficulty::Normal.directions_spec().len()
                < Difficulty::Hard.directions_spec().len(),
    {
        assert forall|d: Direction|
            Difficulty::Easy.directions_spec().contains(d) implies #[trigger] Difficulty::Normal.directions_spec().contains(d) by {
            let i = choose|i: int|
                0 <= i < Difficulty::Easy.directions_spec().len()
                    && Difficulty::Easy.directions_spec()[i] == d;
            assert(Difficulty::Normal.directions_spec()[i] == d);
        }
        assert forall|d: Direction|
            Difficulty::Normal.directions_spec().contains(d) implies #[trigger] Difficulty::Hard.directions_spec().contains(d) by {
            let i = choose|i: int|
                0 <= i < Difficulty::Normal.directions_spec().len()
                    && Difficulty::Normal.directions_spec()[i] == d;
            assert(Difficulty::Hard.directions_spec()[i] == d);
        }
    }

    /// A short human-readable account of the tier.
    pub fn description(&self) -> (r: &'static str)
        ensures
            self is Easy ==> r@ == "Easy - reading direction only"@,
            self is Normal ==> r@ == "Normal - reading direction and diagonal words"@,
            self is Hard ==> r@ == "Hard - all directions"@,
    {
        match self {
            Difficulty::Easy => "Easy - reading direction only",
            Difficulty::Normal => "Normal - reading direction and diagonal words",
            Difficulty::Hard => "Hard - all directions",
        }
    }
}

} // verus!
