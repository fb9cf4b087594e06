use rand::rngs::StdRng;
use rand::SeedableRng;
use wordsearch::difficulty::{Difficulty, Direction};
use wordsearch::field::{Coordinate, CoordinateGenerator, Field, PosRanges, WordAddError};

#[test]
fn try_add_possible() {
    let mut field = Field::new(7, 8);
    let word = "egg";
    let mut rng = StdRng::seed_from_u64(7);

    for direction in Difficulty::Hard.directions() {
        assert!(field.try_add(&mut rng, word, &vec![direction]).is_ok());
    }
}

#[test]
fn try_add_impossible() {
    let mut field = Field::new(7, 8);
    let word = "notpossss";
    let mut rng = StdRng::seed_from_u64(7);

    for direction in Difficulty::Hard.directions() {
        assert!(field.try_add(&mut rng, word, &vec![direction]).is_err());
    }
}

use Direction::{Down, Left, LeftDown, LeftUp, Right, RightDown, RightUp, Up};

#[test]
fn possible_positions() {
    let field = Field::new(7, 8);
    let word = "egg";

    for direction in Difficulty::Hard.directions() {
        let positions = field.get_possible_positions(word, &direction).unwrap();
        let correct_positions = match direction {
            // + 1 to make it an inclusive range without changing type
            Right => PosRanges::new(0..6 + 1, 0..5 + 1),
            Left => PosRanges::new(0..6 + 1, 2..7 + 1),
            Up => PosRanges::new(2..6 + 1, 0..7 + 1),
            Down => PosRanges::new(0..4 + 1, 0..7 + 1),
            RightUp => PosRanges::new(2..6 + 1, 0..5 + 1),
            RightDown => PosRanges::new(0..4 + 1, 0..5 + 1),
            LeftUp => PosRanges::new(2..6 + 1, 2..7 + 1),
            LeftDown => PosRanges::new(0..4 + 1, 2..7 + 1),
        };

        assert_eq!(positions, correct_positions);
    }
}

fn all_eight() -> Vec<Direction> {
    vec![
        Direction::Right,
        Direction::Left,
        Direction::Up,
        Direction::Down,
        Direction::RightUp,
        Direction::RightDown,
        Direction::LeftUp,
        Direction::LeftDown,
    ]
}

#[test]
fn oversized_word_rejected_in_every_direction() {
    let field = Field::new(3, 4);
    for direction in all_eight() {
        assert_eq!(
            field.get_possible_positions("wordsearch", &direction),
            Err(WordAddError::DoesntFit)
        );
    }
}

#[test]
fn commit_round_trip() {
    let mut field = Field::new(5, 5);
    let start = Coordinate::new(1, 1);
    assert!(field.try_fit("egg", &Direction::Right, &start).is_ok());
    field.put_into_grid("egg", &Direction::Right, &start);
    let read = field.read_word(&Direction::Right, &start, 3).unwrap();
    assert_eq!(read, vec!['e', 'g', 'g']);
}

#[test]
fn commit_is_idempotent() {
    let mut field = Field::new(4, 4);
    let start = Coordinate::new(0, 0);
    assert!(field.try_fit("egg", &Direction::RightDown, &start).is_ok());
    field.put_into_grid("egg", &Direction::RightDown, &start);
    let before = field.render();
    // Re-validating the identical placement succeeds, and re-committing it
    // changes no letter of the grid.
    assert!(field.try_fit("egg", &Direction::RightDown, &start).is_ok());
    field.put_into_grid("egg", &Direction::RightDown, &start);
    assert_eq!(field.render(), before);
}

#[test]
fn overlap_conflict_rejected_without_mutation() {
    let mut field = Field::new(4, 4);
    let origin = Coordinate::new(0, 0);
    assert!(field.try_fit("egg", &Direction::Right, &origin).is_ok());
    field.put_into_grid("egg", &Direction::Right, &origin);
    let before = field.render();
    // "good" downward from the same origin would need 'g' where "egg" put
    // its 'e': validation fails at the crossing cell and nothing changes.
    assert_eq!(
        field.try_fit("good", &Direction::Down, &origin),
        Err(WordAddError::DoesntFit)
    );
    assert_eq!(field.render(), before);
}

#[test]
fn overlap_on_matching_letter_succeeds() {
    let mut field = Field::new(4, 4);
    let origin = Coordinate::new(0, 0);
    assert!(field.try_fit("egg", &Direction::Right, &origin).is_ok());
    field.put_into_grid("egg", &Direction::Right, &origin);
    // "leg" read upward from (2, 2) ends on the final 'g' of "egg" at
    // (0, 2): the shared cell matches, so the placement succeeds.
    let leg_start = Coordinate::new(2, 2);
    assert!(field.try_fit("leg", &Direction::Up, &leg_start).is_ok());
    field.put_into_grid("leg", &Direction::Up, &leg_start);
    assert_eq!(
        field.read_word(&Direction::Right, &origin, 3).unwrap(),
        vec!['e', 'g', 'g']
    );
    assert_eq!(
        field.read_word(&Direction::Up, &leg_start, 3).unwrap(),
        vec!['l', 'e', 'g']
    );
}

#[test]
fn removal_keeps_cells_other_placements_still_cover() {
    let mut field = Field::new(4, 4);
    let origin = Coordinate::new(0, 0);
    field.put_into_grid("egg", &Direction::Right, &origin);
    let leg_start = Coordinate::new(2, 2);
    assert!(field.try_fit("leg", &Direction::Up, &leg_start).is_ok());
    field.put_into_grid("leg", &Direction::Up, &leg_start);
    // Undoing "egg" must not blank the 'g' at (0, 2) that "leg" shares.
    field.remove_from_grid("egg", &Direction::Right, &origin);
    assert_eq!(
        field.read_word(&Direction::Up, &leg_start, 3).unwrap(),
        vec!['l', 'e', 'g']
    );
    assert_eq!(
        field.read_word(&Direction::Right, &origin, 2).unwrap(),
        vec!['_', '_']
    );
    // Undoing "leg" as well restores the empty grid.
    field.remove_from_grid("leg", &Direction::Up, &leg_start);
    assert_eq!(field.render(), "_ _ _ _\n_ _ _ _\n_ _ _ _\n_ _ _ _\n");
}

#[test]
fn render_empty_grid() {
    let field = Field::new(2, 3);
    assert_eq!(field.render(), "_ _ _\n_ _ _\n");
}

#[test]
fn read_word_out_of_bounds_is_none() {
    let field = Field::new(3, 3);
    assert_eq!(field.read_word(&Direction::Right, &Coordinate::new(0, 1), 3), None);
    assert_eq!(field.read_word(&Direction::Up, &Coordinate::new(1, 0), 3), None);
}

#[test]
fn coordinate_addition_is_componentwise() {
    let sum = Coordinate::new(1, 2).add(Coordinate::new(-1, 1));
    assert_eq!(sum, Coordinate::new(0, 3));
}

#[test]
fn coordinate_generator_stops_at_the_edge() {
    let field = Field::new(2, 2);
    let mut gen = CoordinateGenerator::new(&field, Coordinate::new(0, 0), &Direction::Right);
    assert_eq!(gen.next(), Some(Coordinate::new(0, 0)));
    assert_eq!(gen.next(), Some(Coordinate::new(0, 1)));
    assert_eq!(gen.next(), None);
    assert_eq!(gen.next(), None);
}
