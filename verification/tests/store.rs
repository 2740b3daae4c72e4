use dfac_ingest::date::Date;
use dfac_ingest::puzzle::PuzzleSource;
use dfac_ingest::schema::{Puzzle, PuzzleClues, PuzzleContent, PuzzleInfo, PuzzleStats};
use dfac_ingest::store::{source_name, Store};

fn stored_puzzle(pid: &str, grid_rows: &[&[&str]]) -> Puzzle {
    let grid = grid_rows
        .iter()
        .map(|r| r.iter().map(|c| (*c).to_owned()).collect())
        .collect();
    Puzzle {
        pid: pid.to_owned(),
        content: PuzzleContent {
            info: PuzzleInfo {
                title: "NY Times, Wed, Aug 30, 2023".to_owned(),
                puzzle_type: "Daily Puzzle".to_owned(),
                author: "Auth Thor".to_owned(),
                description: String::new(),
            },
            grid,
            private: false,
            clues: PuzzleClues {
                across: vec![],
                down: vec![],
            },
            circles: vec![],
        },
        stats: PuzzleStats { num_solves: 0 },
    }
}

#[test]
fn upsert_stores_puzzle_answers_and_links() {
    let mut store = Store::new();
    let puzzle = stored_puzzle("p1", &[&["C", "A", "T"]]);
    let date = Date::from_ymd_opt(2023, 8, 30).unwrap();
    store.upsert_puzzle(&puzzle, date, PuzzleSource::NewYorkTimes);
    assert_eq!(store.puzzle_count(), 1);
    // Answers "CAT", "C", "A", "T": four distinct texts, four links.
    assert_eq!(store.answer_count(), 4);
    assert_eq!(store.link_count(), 4);
    assert!(store.contains_puzzle("p1"));
}

#[test]
fn upsert_twice_is_idempotent() {
    let mut store = Store::new();
    let puzzle = stored_puzzle("p1", &[&["C", "A", "T"], &["D", ".", "G"]]);
    let date = Date::from_ymd_opt(2023, 8, 30).unwrap();
    store.upsert_puzzle(&puzzle, date, PuzzleSource::NewYorkTimes);
    let puzzles_once = store.puzzle_count();
    let answers_once = store.answer_count();
    let links_once = store.link_count();
    store.upsert_puzzle(&puzzle, date, PuzzleSource::NewYorkTimes);
    assert_eq!(store.puzzle_count(), puzzles_once);
    assert_eq!(store.answer_count(), answers_once);
    assert_eq!(store.link_count(), links_once);
}

#[test]
fn second_puzzle_on_same_date_and_source_is_a_no_op() {
    let mut store = Store::new();
    let first = stored_puzzle("p1", &[&["C", "A", "T"]]);
    let second = stored_puzzle("p2", &[&["D", "O", "G"]]);
    let date = Date::from_ymd_opt(2023, 8, 30).unwrap();
    store.upsert_puzzle(&first, date, PuzzleSource::NewYorkTimes);
    let puzzles_once = store.puzzle_count();
    let answers_once = store.answer_count();
    let links_once = store.link_count();
    store.upsert_puzzle(&second, date, PuzzleSource::NewYorkTimes);
    assert_eq!(store.puzzle_count(), puzzles_once);
    assert_eq!(store.answer_count(), answers_once);
    assert_eq!(store.link_count(), links_once);
    assert!(store.contains_puzzle("p1"));
    assert!(!store.contains_puzzle("p2"));
}

#[test]
fn same_pair_different_source_is_stored() {
    let mut store = Store::new();
    let first = stored_puzzle("p1", &[&["C", "A", "T"]]);
    let second = stored_puzzle("p2", &[&["D", "O", "G"]]);
    let date = Date::from_ymd_opt(2023, 8, 30).unwrap();
    store.upsert_puzzle(&first, date, PuzzleSource::NewYorkTimes);
    store.upsert_puzzle(&second, date, PuzzleSource::LosAngelesTimes);
    assert_eq!(store.puzzle_count(), 2);
    assert!(store.contains_puzzle("p2"));
}

#[test]
fn answer_texts_are_a_global_pool() {
    let mut store = Store::new();
    let first = stored_puzzle("p1", &[&["C", "A", "T"]]);
    let second = stored_puzzle("p2", &[&["C", "A", "T"]]);
    store.upsert_puzzle(
        &first,
        Date::from_ymd_opt(2023, 8, 30).unwrap(),
        PuzzleSource::NewYorkTimes,
    );
    store.upsert_puzzle(
        &second,
        Date::from_ymd_opt(2023, 8, 31).unwrap(),
        PuzzleSource::NewYorkTimes,
    );
    assert_eq!(store.puzzle_count(), 2);
    // The same four texts, shared by value across the two puzzles.
    assert_eq!(store.answer_count(), 4);
    assert_eq!(store.link_count(), 8);
}

#[test]
fn source_names_match_the_seed_rows() {
    assert_eq!(source_name(PuzzleSource::NewYorkTimes), "New York Times");
    assert_eq!(source_name(PuzzleSource::LosAngelesTimes), "Los Angeles Times");
}
