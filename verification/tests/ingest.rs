use dfac_ingest::date::Date;
use dfac_ingest::ingest::Ingestion;
use dfac_ingest::puzzle::PuzzleSource;
use dfac_ingest::schema::{Puzzle, PuzzleClues, PuzzleContent, PuzzleInfo, PuzzleStats};

fn titled_puzzle(pid: &str, title: &str) -> Puzzle {
    Puzzle {
        pid: pid.to_owned(),
        content: PuzzleContent {
            info: PuzzleInfo {
                title: title.to_owned(),
                puzzle_type: "Daily Puzzle".to_owned(),
                author: "Auth Thor".to_owned(),
                description: String::new(),
            },
            grid: vec![],
            private: false,
            clues: PuzzleClues {
                across: vec![],
                down: vec![],
            },
            circles: vec![],
        },
        stats: PuzzleStats { num_solves: 0 },
    }
}

fn classifiable_page(count: usize, tag: &str) -> dfac_ingest::schema::PuzzleList {
    let puzzles = (0..count)
        .map(|i| titled_puzzle(&format!("{tag}-{i}"), "NY Times, Wed, Aug 30, 2023"))
        .collect();
    dfac_ingest::schema::PuzzleList::new(puzzles)
}

#[test]
fn two_pages_reach_a_target_of_fifty_five() {
    let mut ingestion = Ingestion::new(55);
    assert!(ingestion.needs_more());
    assert_eq!(ingestion.next_page(), 0);

    ingestion.absorb_page(classifiable_page(50, "page0"));
    // 50 of 55: the accumulator check happens after each full page.
    assert!(ingestion.needs_more());
    assert_eq!(ingestion.next_page(), 1);

    ingestion.absorb_page(classifiable_page(10, "page1"));
    // 60 collected: the whole page's successes are kept, overshooting 55,
    // and no third page is requested.
    assert!(!ingestion.needs_more());

    let puzzles = ingestion.into_puzzles();
    assert_eq!(puzzles.len(), 60);
}

#[test]
fn unclassifiable_records_are_dropped_in_order() {
    let page = dfac_ingest::schema::PuzzleList::new(vec![
        titled_puzzle("a", "NY Times, Wed, Aug 30, 2023"),
        titled_puzzle("b", "not a puzzle title"),
        titled_puzzle("c", "LA Times, Thursday, August 31, 2023"),
        titled_puzzle("d", "NY Times, not-a-date"),
    ]);
    let mut ingestion = Ingestion::new(10);
    ingestion.absorb_page(page);
    let puzzles = ingestion.into_puzzles();
    assert_eq!(puzzles.len(), 2);
    assert_eq!(puzzles[0].puzzle.pid, "a");
    assert_eq!(puzzles[0].source, PuzzleSource::NewYorkTimes);
    assert_eq!(puzzles[0].date, Date::from_ymd_opt(2023, 8, 30).unwrap());
    assert_eq!(puzzles[1].puzzle.pid, "c");
    assert_eq!(puzzles[1].source, PuzzleSource::LosAngelesTimes);
    assert_eq!(puzzles[1].date, Date::from_ymd_opt(2023, 8, 31).unwrap());
}

#[test]
fn a_page_hands_out_its_records_in_order() {
    let page = dfac_ingest::schema::PuzzleList::new(vec![
        titled_puzzle("a", "NY Times, Wed, Aug 30, 2023"),
        titled_puzzle("b", "LA Times, Wed, Aug 30, 2023"),
    ]);
    let pids: Vec<&str> = page.iter().iter().map(|p| p.id()).collect();
    assert_eq!(pids, vec!["a", "b"]);
}

#[test]
fn a_reached_target_needs_no_page() {
    let ingestion = Ingestion::new(0);
    assert!(!ingestion.needs_more());
    assert_eq!(ingestion.collected().len(), 0);
}
