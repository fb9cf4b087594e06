use rand::rngs::StdRng;
use rand::SeedableRng;
use wordsearch::difficulty::{Difficulty, Direction};
use wordsearch::field::{Coordinate, Field};
use wordsearch::puzzle::{FillError, Puzzle};

use Direction::{Down, LeftDown, LeftUp, Right, RightDown, RightUp};

#[test]
fn directions_per_tier() {
    assert_eq!(Difficulty::Easy.directions(), vec![Right, Down]);
    assert_eq!(
        Difficulty::Normal.directions(),
        vec![Right, Down, RightDown, RightUp]
    );
    assert_eq!(
        Difficulty::Hard.directions(),
        vec![Right, Down, RightDown, RightUp, LeftUp, LeftDown]
    );
}

#[test]
fn difficulty_descriptions() {
    assert_eq!(
        Difficulty::Easy.description(),
        "Easy - reading direction only"
    );
    assert_eq!(
        Difficulty::Normal.description(),
        "Normal - reading direction and diagonal words"
    );
    assert_eq!(Difficulty::Hard.description(), "Hard - all directions");
}

fn step_of(direction: &Direction) -> (isize, isize) {
    match direction {
        Direction::Right => (0, 1),
        Direction::Left => (0, -1),
        Direction::Up => (-1, 0),
        Direction::Down => (1, 0),
        Direction::RightUp => (-1, 1),
        Direction::RightDown => (1, 1),
        Direction::LeftUp => (-1, -1),
        Direction::LeftDown => (1, -1),
    }
}

/// The cells of every occurrence of `word` readable along one of
/// `directions`, or `None` when the word appears nowhere.
fn find_word(
    field: &Field,
    directions: &[Direction],
    word: &str,
    rows: isize,
    cols: isize,
) -> Option<Vec<(isize, isize)>> {
    let letters: Vec<char> = word.chars().collect();
    for direction in directions {
        let (dr, dc) = step_of(direction);
        for r in 0..rows {
            for c in 0..cols {
                let start = Coordinate::new(r, c);
                if field.read_word(direction, &start, letters.len()) == Some(letters.clone()) {
                    let mut cells = Vec::new();
                    for i in 0..letters.len() as isize {
                        cells.push((r + i * dr, c + i * dc));
                    }
                    return Some(cells);
                }
            }
        }
    }
    None
}

#[test]
fn end_to_end_fill_places_both_words() {
    let mut rng = StdRng::seed_from_u64(42);
    let mut puzzle = Puzzle::new(5, 4, Difficulty::Normal);
    let word_list = vec!["egg", "good"];
    assert_eq!(puzzle.fill(&mut rng, &word_list, 100_000), Ok(()));

    let rendered = puzzle.field.render();
    let lines: Vec<&str> = rendered.split('\n').filter(|l| !l.is_empty()).collect();
    assert_eq!(lines.len(), 5);
    for line in &lines {
        assert_eq!(line.split(' ').count(), 4);
    }

    let directions = puzzle.directions.clone();
    let egg_cells = find_word(&puzzle.field, &directions, "egg", 5, 4).unwrap();
    let good_cells = find_word(&puzzle.field, &directions, "good", 5, 4).unwrap();

    // Every cell no word covers still shows the filler.
    for r in 0..5isize {
        for c in 0..4isize {
            let covered = egg_cells.contains(&(r, c)) || good_cells.contains(&(r, c));
            let shown = puzzle
                .field
                .read_word(&Direction::Right, &Coordinate::new(r, c), 1)
                .unwrap()[0];
            if !covered {
                assert_eq!(shown, '_');
            } else {
                assert_ne!(shown, '_');
            }
        }
    }
}

#[test]
fn backtracking_recovers_from_blocking_first_choice() {
    // On a 1x2 grid, "a" has two slots; taking the right-hand one blocks
    // "ab" completely, so a greedy fill without backtracking fails whenever
    // the shuffle tries that slot first.  The search must succeed for every
    // seed by undoing the blocking choice.
    for seed in 0..20u64 {
        let mut rng = StdRng::seed_from_u64(seed);
        let mut puzzle = Puzzle::new(1, 2, Difficulty::Easy);
        let word_list = vec!["a", "ab"];
        assert_eq!(puzzle.fill(&mut rng, &word_list, 10_000), Ok(()));
        assert_eq!(
            puzzle
                .field
                .read_word(&Direction::Right, &Coordinate::new(0, 0), 2)
                .unwrap(),
            vec!['a', 'b']
        );
    }
}

#[test]
fn fill_with_empty_word_list_succeeds() {
    let mut rng = StdRng::seed_from_u64(1);
    let mut puzzle = Puzzle::new(3, 3, Difficulty::Hard);
    let word_list: Vec<&str> = vec![];
    assert_eq!(puzzle.fill(&mut rng, &word_list, 10), Ok(()));
    assert_eq!(puzzle.field.render(), "_ _ _\n_ _ _\n_ _ _\n");
}

#[test]
fn fill_reports_exhaustion_and_restores_the_grid() {
    let mut rng = StdRng::seed_from_u64(3);
    let mut puzzle = Puzzle::new(2, 2, Difficulty::Easy);
    let word_list = vec!["abc"];
    assert_eq!(
        puzzle.fill(&mut rng, &word_list, 10_000),
        Err(FillError::SearchExhausted)
    );
    assert_eq!(puzzle.field.render(), "_ _\n_ _\n");
}

#[test]
fn fill_reports_budget_exhaustion_and_restores_the_grid() {
    let mut rng = StdRng::seed_from_u64(5);
    let mut puzzle = Puzzle::new(5, 5, Difficulty::Easy);
    let word_list = vec!["egg"];
    assert_eq!(
        puzzle.fill(&mut rng, &word_list, 0),
        Err(FillError::SearchBudgetExceeded)
    );
    assert_eq!(puzzle.field.render(), "_ _ _ _ _\n".repeat(5));
}

#[test]
fn ample_budget_never_reports_budget_exhaustion() {
    // On a 1x1 grid with the two easy directions, the worst-case step bound
    // of a one-word search is 2 * 1 * 1 * 1 + 1 = 3: with that budget the
    // fill must succeed rather than stop for want of steps.
    for seed in 0..10u64 {
        let mut rng = StdRng::seed_from_u64(seed);
        let mut puzzle = Puzzle::new(1, 1, Difficulty::Easy);
        let word_list = vec!["a"];
        assert_eq!(puzzle.fill(&mut rng, &word_list, 3), Ok(()));
        assert_eq!(puzzle.field.render(), "a\n");
    }
}

#[test]
fn fill_leaves_earlier_content_after_failure() {
    // A failed fill restores whatever the grid held before the call, not
    // only an empty grid.
    let mut rng = StdRng::seed_from_u64(9);
    let mut puzzle = Puzzle::new(3, 3, Difficulty::Easy);
    let first = vec!["egg"];
    assert_eq!(puzzle.fill(&mut rng, &first, 10_000), Ok(()));
    let before = puzzle.field.render();
    let impossible = vec!["abcd"];
    assert_eq!(
        puzzle.fill(&mut rng, &impossible, 10_000),
        Err(FillError::SearchExhausted)
    );
    assert_eq!(puzzle.field.render(), before);
}
