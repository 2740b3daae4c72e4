use dfac_ingest::schema::{words, Puzzle, PuzzleClues, PuzzleContent, PuzzleInfo, PuzzleStats};

fn grid_puzzle(grid: Vec<Vec<String>>) -> Puzzle {
    Puzzle {
        pid: "grid-test".to_owned(),
        content: PuzzleContent {
            info: PuzzleInfo {
                title: "NY Times, Wed, Aug 30, 2023".to_owned(),
                puzzle_type: "Daily Puzzle".to_owned(),
                author: "Auth Thor".to_owned(),
                description: String::new(),
            },
            grid,
            private: false,
            clues: PuzzleClues {
                across: vec![],
                down: vec![],
            },
            circles: vec![],
        },
        stats: PuzzleStats { num_solves: 0 },
    }
}

fn row(cells: &[&str]) -> Vec<String> {
    cells.iter().map(|c| (*c).to_owned()).collect()
}

#[test]
fn empty_grid_has_no_answers() {
    let puzzle = grid_puzzle(vec![]);
    assert_eq!(puzzle.answers(), Vec::<String>::new());
}

#[test]
fn single_row_without_blocks() {
    let puzzle = grid_puzzle(vec![row(&["C", "A", "T"])]);
    assert_eq!(puzzle.answers(), vec!["CAT", "C", "A", "T"]);
}

#[test]
fn blocks_split_rows_and_columns() {
    let puzzle = grid_puzzle(vec![row(&["C", "A", "T"]), row(&["D", ".", "G"])]);
    assert_eq!(puzzle.answers(), vec!["CAT", "D", "G", "CD", "A", "TG"]);
}

#[test]
fn column_count_comes_from_the_first_row() {
    // The third cell of the longer second row is never read by the column
    // pass: the first row's width fixes the column count.
    let puzzle = grid_puzzle(vec![row(&["A", "B"]), row(&["C", "D", "E"])]);
    assert_eq!(puzzle.answers(), vec!["AB", "CDE", "AC", "BD"]);
}

#[test]
fn empty_cells_join_their_neighbours() {
    let puzzle = grid_puzzle(vec![row(&["A", "", "B"])]);
    assert_eq!(puzzle.answers(), vec!["AB", "A", "B"]);
}

#[test]
fn words_splits_on_dots_and_drops_empties() {
    assert_eq!(words("AB.CD."), vec!["AB", "CD"]);
    assert_eq!(words("..."), Vec::<String>::new());
    assert_eq!(words(""), Vec::<String>::new());
    assert_eq!(words(".X."), vec!["X"]);
    assert_eq!(words("HELLO"), vec!["HELLO"]);
}

#[test]
fn all_blocks_grid_has_no_answers() {
    let puzzle = grid_puzzle(vec![row(&[".", "."]), row(&[".", "."])]);
    assert_eq!(puzzle.answers(), Vec::<String>::new());
}

#[test]
fn duplicate_words_are_kept_at_extraction() {
    let puzzle = grid_puzzle(vec![row(&["A", ".", "A"])]);
    assert_eq!(puzzle.answers(), vec!["A", "A", "A", "A"]);
}
