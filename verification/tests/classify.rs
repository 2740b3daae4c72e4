use dfac_ingest::date::Date;
use dfac_ingest::puzzle::{classify_puzzle, puzzle_date, puzzle_source, PuzzleSource};
use dfac_ingest::schema::{Puzzle, PuzzleClues, PuzzleContent, PuzzleInfo, PuzzleStats};

fn make_puzzle(title: &str) -> Puzzle {
    Puzzle {
        pid: "123abc".to_owned(),
        content: PuzzleContent {
            info: PuzzleInfo {
                title: title.to_owned(),
                puzzle_type: "Daily Puzzle".to_owned(),
                author: "Auth Thor".to_owned(),
                description: "Description of the puzzle".to_owned(),
            },
            grid: vec![],
            private: false,
            clues: PuzzleClues {
                across: vec![],
                down: vec![],
            },
            circles: vec![],
        },
        stats: PuzzleStats { num_solves: 42 },
    }
}

#[test]
fn parses_lat_date() {
    let title = "LA Times, Wed, Aug 30, 2023";
    let puzzle = make_puzzle(title);

    assert_eq!(
        puzzle_date(&puzzle, PuzzleSource::LosAngelesTimes),
        Date::from_ymd_opt(2023, 8, 30)
    );
}

#[test]
fn parses_nyt_date() {
    let title = "NY Times, Wednesday, August 30, 2023";
    let puzzle = make_puzzle(title);

    assert_eq!(
        puzzle_date(&puzzle, PuzzleSource::NewYorkTimes),
        Date::from_ymd_opt(2023, 8, 30)
    )
}

#[test]
fn classifies_nyt_short_form() {
    let puzzle = make_puzzle("NY Times, Wed, Aug 30, 2023");
    let classified = classify_puzzle(&puzzle);
    assert_eq!(
        classified,
        Some((
            PuzzleSource::NewYorkTimes,
            Date::from_ymd_opt(2023, 8, 30).unwrap()
        ))
    );
}

#[test]
fn classifies_lat_long_form() {
    let puzzle = make_puzzle("LA Times, Wednesday, August 30, 2023");
    let classified = classify_puzzle(&puzzle);
    assert_eq!(
        classified,
        Some((
            PuzzleSource::LosAngelesTimes,
            Date::from_ymd_opt(2023, 8, 30).unwrap()
        ))
    );
}

#[test]
fn unmatched_title_classifies_to_none() {
    for title in [
        "Some random title",
        "",
        "Washington Post, Wed, Aug 30, 2023",
        "NY Times,Wed, Aug 30, 2023",
        "la times, Wed, Aug 30, 2023",
    ] {
        let puzzle = make_puzzle(title);
        assert_eq!(puzzle_source(&puzzle), None, "title: {title:?}");
        assert_eq!(classify_puzzle(&puzzle), None, "title: {title:?}");
    }
}

#[test]
fn newline_in_remainder_defeats_the_anchor() {
    let puzzle = make_puzzle("NY Times, Wed, Aug 30, 2023\nextra");
    assert_eq!(puzzle_source(&puzzle), None);
    assert_eq!(classify_puzzle(&puzzle), None);
}

#[test]
fn unparseable_date_suffix_classifies_to_none() {
    let puzzle = make_puzzle("NY Times, not-a-date");
    assert_eq!(puzzle_source(&puzzle), Some(PuzzleSource::NewYorkTimes));
    assert_eq!(puzzle_date(&puzzle, PuzzleSource::NewYorkTimes), None);
    assert_eq!(classify_puzzle(&puzzle), None);
}

#[test]
fn nyt_wins_before_lat() {
    let puzzle = make_puzzle("NY Times, Wed, Aug 30, 2023");
    assert_eq!(puzzle_source(&puzzle), Some(PuzzleSource::NewYorkTimes));
}

#[test]
fn date_for_the_wrong_source_is_none() {
    let puzzle = make_puzzle("NY Times, Wed, Aug 30, 2023");
    assert_eq!(puzzle_date(&puzzle, PuzzleSource::LosAngelesTimes), None);
}

#[test]
fn inconsistent_weekday_is_rejected() {
    // 2023-08-30 was a Wednesday, not a Monday.
    let puzzle = make_puzzle("NY Times, Mon, Aug 30, 2023");
    assert_eq!(puzzle_date(&puzzle, PuzzleSource::NewYorkTimes), None);
}

#[test]
fn impossible_calendar_date_is_rejected() {
    let puzzle = make_puzzle("NY Times, Fri, Feb 30, 2024");
    assert_eq!(classify_puzzle(&puzzle), None);
}

#[test]
fn leap_day_parses() {
    // 2024-02-29 was a Thursday.
    let puzzle = make_puzzle("LA Times, Thu, Feb 29, 2024");
    assert_eq!(
        classify_puzzle(&puzzle),
        Some((
            PuzzleSource::LosAngelesTimes,
            Date::from_ymd_opt(2024, 2, 29).unwrap()
        ))
    );
}

#[test]
fn single_digit_day_parses() {
    // 2023-08-03 was a Thursday.
    let puzzle = make_puzzle("NY Times, Thu, Aug 3, 2023");
    assert_eq!(
        puzzle_date(&puzzle, PuzzleSource::NewYorkTimes),
        Date::from_ymd_opt(2023, 8, 3)
    );
}

#[test]
fn trailing_text_after_year_is_rejected() {
    let puzzle = make_puzzle("NY Times, Wed, Aug 30, 2023 bonus");
    assert_eq!(puzzle_date(&puzzle, PuzzleSource::NewYorkTimes), None);
}
