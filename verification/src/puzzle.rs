//! Publisher and date classification of puzzle titles. A title belongs to a
//! publisher when it starts with that publisher's prefix literal and the
//! remainder holds no newline; the remainder is then parsed as a date. A
//! puzzle whose title matches no publisher, or whose date does not parse, is
//! unclassifiable and dropped by the ingestion loop.

use vstd::prelude::*;
use crate::date::Date;
use crate::schema::Puzzle;
use crate::title_date::{match_at, parse_date_text, spec_parse_title_date, strip_prefix};

verus! {

/// A crossword publisher this system recognizes.
#[derive(Debug, Copy, Clone, Eq, PartialEq, Structural)]
pub enum PuzzleSource {
    NewYorkTimes,
    LosAngelesTimes,
}

/// The title prefix that marks a publisher's puzzles.
pub open spec fn source_prefix(source: PuzzleSource) -> Seq<char> {
    match source {
        PuzzleSource::NewYorkTimes => "NY Times, "@,
        PuzzleSource::LosAngelesTimes => "LA Times, "@,
    }
}

/// Whether a title is anchored to the given publisher: it starts with the
/// publisher's prefix and the captured remainder contains no newline.
pub open spec fn title_matches(t: Seq<char>, source: PuzzleSource) -> bool {
    let p = source_prefix(source);
    &&& t.len() >= p.len()
    &&& t.subrange(0, p.len() as int) == p
    &&& forall|i: int| p.len() <= i < t.len() ==> t[i] != '\n'
}

/// The publisher a title names; New York Times is checked first and wins any
/// tie.
pub open spec fn spec_puzzle_source(t: Seq<char>) -> Option<PuzzleSource> {
    if title_matches(t, PuzzleSource::NewYorkTimes) {
        Some(PuzzleSource::NewYorkTimes)
    } else if title_matches(t, PuzzleSource::LosAngelesTimes) {
        Some(PuzzleSource::LosAngelesTimes)
    } else {
        None
    }
}

/// The date a title carries for the given publisher: the remainder after the
/// publisher's prefix, parsed by the title date grammar.
pub open spec fn spec_puzzle_date(t: Seq<char>, source: PuzzleSource) -> Option<Date> {
    if title_matches(t, source) {
        spec_parse_title_date(t.skip(source_prefix(source).len() as int))
    } else {
        None
    }
}

/// Full classification of a title: its publisher, then its date.
pub open spec fn spec_classify(t: Seq<char>) -> Option<(PuzzleSource, Date)> {
    match spec_puzzle_source(t) {
        None => None,
        Some(source) => match spec_puzzle_date(t, source) {
            None => None,
            Some(date) => Some((source, date)),
        },
    }
}

/// A title matching neither publisher prefix classifies to nothing.
pub proof fn lemma_unmatched_title_classifies_to_none(t: Seq<char>)
    requires
        !title_matches(t, PuzzleSource::NewYorkTimes),
        !title_matches(t, PuzzleSource::LosAngelesTimes),
    ensures
        spec_puzzle_source(t) is None,
        spec_classify(t) is None,
{
}

/// A classified title always carries a valid calendar date.
pub proof fn lemma_classify_valid(t: Seq<char>)
    ensures
        spec_classify(t) matches Some(sd) ==> sd.1.valid(),
{
    crate::title_date::lemma_parse_form_valid(
        t.skip(source_prefix(PuzzleSource::NewYorkTimes).len() as int),
        false,
    );
    crate::title_date::lemma_parse_form_valid(
        t.skip(source_prefix(PuzzleSource::NewYorkTimes).len() as int),
        true,
    );
    crate::title_date::lemma_parse_form_valid(
        t.skip(source_prefix(PuzzleSource::LosAngelesTimes).len() as int),
        false,
    );
    crate::title_date::lemma_parse_form_valid(
        t.skip(source_prefix(PuzzleSource::LosAngelesTimes).len() as int),
        true,
    );
}

fn source_prefix_str(source: PuzzleSource) -> (r: &'static str)
    ensures
        r@ == source_prefix(source),
{
    match source {
        PuzzleSource::NewYorkTimes => "NY Times, ",
        PuzzleSource::LosAngelesTimes => "LA Times, ",
    }
}

fn matches_source(title: &str, source: PuzzleSource) -> (b: bool)
    ensures
        b == title_matches(title@, source),
{
    let ghost t = title@;
    let p = source_prefix_str(source);
    proof {
        assert(t.skip(0) =~= t);
    }
    if !match_at(title, 0, p) {
        return false;
    }
    let plen = p.unicode_len();
    let n = title.unicode_len();
    proof {
        assert(strip_prefix(t, p@) is Some);
        assert(t.subrange(0, plen as int) == p@);
    }
    let mut i = plen;
    while i < n
        invariant
            n == t.len(),
            t == title@,
            plen == source_prefix(source).len(),
            t.subrange(0, plen as int) == source_prefix(source),
            plen <= i <= n,
            forall|j: int| plen <= j < i ==> t[j] != '\n',
        decreases n - i,
    {
        if title.get_char(i) == '\n' {
            return false;
        }
        i = i + 1;
    }
    true
}

/// The publisher whose pattern the puzzle's title matches, New York Times
/// tried first, or `None` when neither matches.
pub fn puzzle_source(puzzle: &Puzzle) -> (r: Option<PuzzleSource>)
    ensures
        r == spec_puzzle_source(puzzle.title_view()),
{
    if matches_source(puzzle.title(), PuzzleSource::NewYorkTimes) {
        Some(PuzzleSource::NewYorkTimes)
    } else if matches_source(puzzle.title(), PuzzleSource::LosAngelesTimes) {
        Some(PuzzleSource::LosAngelesTimes)
    } else {
        None
    }
}

/// The publication date in the puzzle's title for the given publisher, read
/// from the remainder after the publisher prefix; `None` when the title does
/// not match the publisher or no date form parses.
pub fn puzzle_date(puzzle: &Puzzle, source: PuzzleSource) -> (r: Option<Date>)
    ensures
        r == spec_puzzle_date(puzzle.title_view(), source),
        r matches Some(d) ==> d.valid(),
{
    let title = puzzle.title();
    if !matches_source(title, source) {
        return None;
    }
    let p = source_prefix_str(source);
    let plen = p.unicode_len();
    let n = title.unicode_len();
    let rest = title.substring_char(plen, n);
    proof {
        assert(rest@ =~= title@.skip(plen as int));
    }
    parse_date_text(rest)
}

/// Classification of one puzzle: publisher first, then the date for that
/// publisher.
pub fn classify_puzzle(puzzle: &Puzzle) -> (r: Option<(PuzzleSource, Date)>)
    ensures
        r == spec_classify(puzzle.title_view()),
        r matches Some(sd) ==> sd.1.valid(),
{
    match puzzle_source(puzzle) {
        None => None,
        Some(source) => match puzzle_date(puzzle, source) {
            None => None,
            Some(date) => Some((source, date)),
        },
    }
}

/// A raw puzzle together with its classification, ready for the store.
#[derive(Debug)]
pub struct RemotePuzzle {
    pub puzzle: Puzzle,
    pub date: Date,
    pub source: PuzzleSource,
}

} // verus!
