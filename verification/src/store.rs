//! The normalized store: puzzles, answers and puzzle-answer links, with the
//! persisted schema's uniqueness rules. Sources are a fixed seed of two rows,
//! identified here by their seeded ids (1 for New York Times, 2 for Los
//! Angeles Times); a puzzle row's position gives its internal id. An upsert
//! is a silent no-op wherever a unique key is already taken, which makes
//! re-ingestion idempotent.

use vstd::prelude::*;
use crate::date::Date;
use crate::puzzle::PuzzleSource;
use crate::schema::{answers_spec, Puzzle};

verus! {

/// Model of one stored puzzle row.
#[verifier::ext_equal]
pub struct PuzzleRowModel {
    pub dfac_id: Seq<char>,
    pub title: Seq<char>,
    pub date: int,
    pub source: int,
}

/// Model of the whole store: puzzle rows, answer texts in id order, and
/// puzzle-answer links as pairs of row indices.
#[verifier::ext_equal]
pub struct StoreModel {
    pub puzzles: Seq<PuzzleRowModel>,
    pub answers: Seq<Seq<char>>,
    pub links: Seq<(int, int)>,
}

/// The seeded source row id of a publisher.
pub open spec fn source_id(source: PuzzleSource) -> int {
    match source {
        PuzzleSource::NewYorkTimes => 1,
        PuzzleSource::LosAngelesTimes => 2,
    }
}

pub open spec fn has_dfac(s: StoreModel, pid: Seq<char>) -> bool {
    exists|i: int| 0 <= i < s.puzzles.len() && (#[trigger] s.puzzles[i]).dfac_id == pid
}

pub open spec fn dfac_index(s: StoreModel, pid: Seq<char>) -> int {
    choose|i: int| 0 <= i < s.puzzles.len() && (#[trigger] s.puzzles[i]).dfac_id == pid
}

pub open spec fn has_date_source(s: StoreModel, date: int, src: int) -> bool {
    exists|i: int|
        0 <= i < s.puzzles.len() && (#[trigger] s.puzzles[i]).date == date && s.puzzles[i].source
            == src
}

pub open spec fn has_answer(s: StoreModel, w: Seq<char>) -> bool {
    exists|j: int| 0 <= j < s.answers.len() && #[trigger] s.answers[j] == w
}

pub open spec fn answer_index(s: StoreModel, w: Seq<char>) -> int {
    choose|j: int| 0 <= j < s.answers.len() && #[trigger] s.answers[j] == w
}

pub open spec fn has_link(s: StoreModel, pi: int, ai: int) -> bool {
    exists|l: int| 0 <= l < s.links.len() && #[trigger] s.links[l] == (pi, ai)
}

/// An answer text stored and linked to the given puzzle row.
pub open spec fn has_word_link(s: StoreModel, pi: int, w: Seq<char>) -> bool {
    exists|j: int|
        0 <= j < s.answers.len() && #[trigger] s.answers[j] == w && has_link(s, pi, j)
}

/// The store's well-formedness: external ids unique, one puzzle per
/// (date, source) pair, answer texts unique, links unique pairs of valid row
/// indices, and every puzzle referencing a seeded source.
pub open spec fn wf(s: StoreModel) -> bool {
    &&& forall|i: int, j: int|
        0 <= i < j < s.puzzles.len() ==> (#[trigger] s.puzzles[i]).dfac_id != (
        #[trigger] s.puzzles[j]).dfac_id
    &&& forall|i: int, j: int|
        0 <= i < j < s.puzzles.len() ==> !((#[trigger] s.puzzles[i]).date == (
        #[trigger] s.puzzles[j]).date && s.puzzles[i].source == s.puzzles[j].source)
    &&& forall|i: int|
        0 <= i < s.puzzles.len() ==> (#[trigger] s.puzzles[i]).source == 1 || s.puzzles[i].source
            == 2
    &&& forall|i: int, j: int|
        0 <= i < j < s.answers.len() ==> (#[trigger] s.answers[i]) != (#[trigger] s.answers[j])
    &&& forall|i: int, j: int|
        0 <= i < j < s.links.len() ==> (#[trigger] s.links[i]) != (#[trigger] s.links[j])
    &&& forall|i: int|
        0 <= i < s.links.len() ==> 0 <= (#[trigger] s.links[i]).0 < s.puzzles.len() && 0
            <= s.links[i].1 < s.answers.len()
}

/// Stores one answer text for puzzle row `pi`: the text is inserted unless
/// already present, and the link unless already present.
pub open spec fn add_word(s: StoreModel, pi: int, w: Seq<char>) -> StoreModel {
    let s1 = if has_answer(s, w) {
        s
    } else {
        StoreModel { answers: s.answers.push(w), ..s }
    };
    let ai = answer_index(s1, w);
    if has_link(s1, pi, ai) {
        s1
    } else {
        StoreModel { links: s1.links.push((pi, ai)), ..s1 }
    }
}

/// Stores a sequence of answer texts for puzzle row `pi`, in order.
pub open spec fn add_words(s: StoreModel, pi: int, ws: Seq<Seq<char>>) -> StoreModel
    decreases ws.len(),
{
    if ws.len() == 0 {
        s
    } else {
        add_words(add_word(s, pi, ws[0]), pi, ws.skip(1))
    }
}

/// One upsert: resolve or insert the puzzle row by external id — a silent
/// no-op when another puzzle already holds the (date, source) pair — then
/// store every answer with its link.
pub open spec fn upsert_model(
    s: StoreModel,
    pid: Seq<char>,
    title: Seq<char>,
    date: int,
    src: int,
    ws: Seq<Seq<char>>,
) -> StoreModel {
    if has_dfac(s, pid) {
        add_words(s, dfac_index(s, pid), ws)
    } else if has_date_source(s, date, src) {
        s
    } else {
        let row = PuzzleRowModel { dfac_id: pid, title: title, date: date, source: src };
        add_words(
            StoreModel { puzzles: s.puzzles.push(row), ..s },
            s.puzzles.len() as int,
            ws,
        )
    }
}

proof fn lemma_add_word(s: StoreModel, pi: int, w: Seq<char>)
    requires
        wf(s),
        0 <= pi < s.puzzles.len(),
    ensures
        wf(add_word(s, pi, w)),
        add_word(s, pi, w).puzzles == s.puzzles,
        has_word_link(add_word(s, pi, w), pi, w),
        forall|pi2: int, w2: Seq<char>|
            has_word_link(s, pi2, w2) ==> #[trigger] has_word_link(add_word(s, pi, w), pi2, w2),
        has_word_link(s, pi, w) ==> add_word(s, pi, w) == s,
{
    let s1 = if has_answer(s, w) {
        s
    } else {
        StoreModel { answers: s.answers.push(w), ..s }
    };
    if !has_answer(s, w) {
        assert(s1.answers[s.answers.len() as int] == w);
    }
    assert(has_answer(s1, w));
    let ai = answer_index(s1, w);
    assert(0 <= ai < s1.answers.len() && s1.answers[ai] == w);
    assert(wf(s1));
    let r = add_word(s, pi, w);
    if has_link(s1, pi, ai) {
        assert(r == s1);
    } else {
        assert(r.links == s1.links.push((pi, ai)));
        assert(r.links[s1.links.len() as int] == (pi, ai));
        assert forall|i: int, j: int| 0 <= i < j < r.links.len() implies (#[trigger] r.links[i])
            != (#[trigger] r.links[j]) by {
            if j == s1.links.len() {
                assert(r.links[i] == s1.links[i]);
                if r.links[i] == (pi, ai) {
                    assert(s1.links[i] == (pi, ai));
                    assert(has_link(s1, pi, ai));
                }
            }
        };
        assert(wf(r));
    }
    assert(has_link(r, pi, ai));
    assert(has_word_link(r, pi, w));
    assert forall|pi2: int, w2: Seq<char>| has_word_link(s, pi2, w2) implies #[trigger] has_word_link(
        r,
        pi2,
        w2,
    ) by {
        let j = choose|j: int|
            0 <= j < s.answers.len() && #[trigger] s.answers[j] == w2 && has_link(s, pi2, j);
        assert(r.answers[j] == w2);
        let l = choose|l: int| 0 <= l < s.links.len() && #[trigger] s.links[l] == (pi2, j);
        assert(r.links[l] == (pi2, j));
        assert(has_link(r, pi2, j));
    };
    if has_word_link(s, pi, w) {
        let j = choose|j: int|
            0 <= j < s.answers.len() && #[trigger] s.answers[j] == w && has_link(s, pi, j);
        assert(s1 == s);
        assert(s.answers[j] == w && s.answers[ai] == w);
        assert(j == ai);
        assert(has_link(s1, pi, ai));
        assert(r == s);
    }
}

proof fn lemma_add_words(s: StoreModel, pi: int, ws: Seq<Seq<char>>)
    requires
        wf(s),
        0 <= pi < s.puzzles.len(),
    ensures
        wf(add_words(s, pi, ws)),
        add_words(s, pi, ws).puzzles == s.puzzles,
        forall|k: int|
            0 <= k < ws.len() ==> has_word_link(add_words(s, pi, ws), pi, #[trigger] ws[k]),
        forall|pi2: int, w2: Seq<char>|
            has_word_link(s, pi2, w2) ==> #[trigger] has_word_link(
                add_words(s, pi, ws),
                pi2,
                w2,
            ),
    decreases ws.len(),
{
    if ws.len() > 0 {
        let s1 = add_word(s, pi, ws[0]);
        lemma_add_word(s, pi, ws[0]);
        lemma_add_words(s1, pi, ws.skip(1));
        let r = add_words(s, pi, ws);
        assert forall|k: int| 0 <= k < ws.len() implies has_word_link(r, pi, #[trigger] ws[k]) by {
            if k == 0 {
                assert(has_word_link(s1, pi, ws[0]));
                assert(has_word_link(r, pi, ws[0]));
            } else {
                assert(ws.skip(1)[k - 1] == ws[k]);
                assert(has_word_link(r, pi, ws.skip(1)[k - 1]));
            }
        };
    }
}

proof fn lemma_add_words_identity(s: StoreModel, pi: int, ws: Seq<Seq<char>>)
    requires
        wf(s),
        0 <= pi < s.puzzles.len(),
        forall|k: int| 0 <= k < ws.len() ==> has_word_link(s, pi, #[trigger] ws[k]),
    ensures
        add_words(s, pi, ws) == s,
    decreases ws.len(),
{
    if ws.len() > 0 {
        lemma_add_word(s, pi, ws[0]);
        assert(add_word(s, pi, ws[0]) == s);
        assert(forall|k: int|
            0 <= k < ws.skip(1).len() ==> #[trigger] ws.skip(1)[k] == ws[k + 1]);
        lemma_add_words_identity(s, pi, ws.skip(1));
    }
}

/// An upsert preserves well-formedness; it adds the new puzzle row exactly
/// when neither the external id nor the (date, source) pair is taken, and
/// never touches the other rows.
pub proof fn lemma_upsert_wf(
    s: StoreModel,
    pid: Seq<char>,
    title: Seq<char>,
    date: int,
    src: int,
    ws: Seq<Seq<char>>,
)
    requires
        wf(s),
        src == 1 || src == 2,
    ensures
        wf(upsert_model(s, pid, title, date, src, ws)),
        upsert_model(s, pid, title, date, src, ws).puzzles == if has_dfac(s, pid)
            || has_date_source(s, date, src) {
            s.puzzles
        } else {
            s.puzzles.push(
                PuzzleRowModel { dfac_id: pid, title: title, date: date, source: src },
            )
        },
{
    if has_dfac(s, pid) {
        let pi = dfac_index(s, pid);
        assert(0 <= pi < s.puzzles.len() && s.puzzles[pi].dfac_id == pid);
        lemma_add_words(s, pi, ws);
    } else if has_date_source(s, date, src) {
    } else {
        let row = PuzzleRowModel { dfac_id: pid, title: title, date: date, source: src };
        let s2 = StoreModel { puzzles: s.puzzles.push(row), ..s };
        let pi = s.puzzles.len() as int;
        assert(s2.puzzles[pi] == row);
        assert(forall|i: int| 0 <= i < pi ==> #[trigger] s2.puzzles[i] == s.puzzles[i]);
        assert(wf(s2));
        lemma_add_words(s2, pi, ws);
    }
}

/// Idempotence: upserting the same puzzle twice leaves the store exactly as
/// one upsert does.
pub proof fn lemma_upsert_idempotent(
    s: StoreModel,
    pid: Seq<char>,
    title: Seq<char>,
    date: int,
    src: int,
    ws: Seq<Seq<char>>,
)
    requires
        wf(s),
        src == 1 || src == 2,
    ensures
        upsert_model(upsert_model(s, pid, title, date, src, ws), pid, title, date, src, ws)
            == upsert_model(s, pid, title, date, src, ws),
{
    let s1 = upsert_model(s, pid, title, date, src, ws);
    lemma_upsert_wf(s, pid, title, date, src, ws);
    if has_dfac(s, pid) {
        let pi = dfac_index(s, pid);
        assert(0 <= pi < s.puzzles.len() && s.puzzles[pi].dfac_id == pid);
        lemma_add_words(s, pi, ws);
        assert(s1.puzzles == s.puzzles);
        assert(has_dfac(s1, pid));
        let pi2 = dfac_index(s1, pid);
        assert(0 <= pi2 < s1.puzzles.len() && s1.puzzles[pi2].dfac_id == pid);
        if pi2 != pi {
            assert(s1.puzzles[pi].dfac_id == pid);
            assert(false);
        }
        lemma_add_words_identity(s1, pi, ws);
    } else if has_date_source(s, date, src) {
        assert(s1 == s);
    } else {
        let row = PuzzleRowModel { dfac_id: pid, title: title, date: date, source: src };
        let s2 = StoreModel { puzzles: s.puzzles.push(row), ..s };
        let pi = s.puzzles.len() as int;
        assert(s2.puzzles[pi] == row);
        assert(wf(s2));
        lemma_add_words(s2, pi, ws);
        assert(s1.puzzles == s2.puzzles);
        assert(s1.puzzles[pi].dfac_id == pid);
        assert(has_dfac(s1, pid));
        let pi2 = dfac_index(s1, pid);
        assert(0 <= pi2 < s1.puzzles.len() && s1.puzzles[pi2].dfac_id == pid);
        if pi2 != pi {
            assert(false);
        }
        lemma_add_words_identity(s1, pi, ws);
    }
}

/// Uniqueness of the (date, source) pair: once a puzzle holds it, upserting
/// a different puzzle with the same pair is a complete no-op.
pub proof fn lemma_upsert_date_source_conflict(
    s: StoreModel,
    pid1: Seq<char>,
    title1: Seq<char>,
    pid2: Seq<char>,
    title2: Seq<char>,
    date: int,
    src: int,
    ws1: Seq<Seq<char>>,
    ws2: Seq<Seq<char>>,
)
    requires
        wf(s),
        src == 1 || src == 2,
        pid1 != pid2,
        !has_dfac(s, pid1),
        !has_dfac(s, pid2),
        !has_date_source(s, date, src),
    ensures
        upsert_model(
            upsert_model(s, pid1, title1, date, src, ws1),
            pid2,
            title2,
            date,
            src,
            ws2,
        ) == upsert_model(s, pid1, title1, date, src, ws1),
{
    let s1 = upsert_model(s, pid1, title1, date, src, ws1);
    lemma_upsert_wf(s, pid1, title1, date, src, ws1);
    let row = PuzzleRowModel { dfac_id: pid1, title: title1, date: date, source: src };
    assert(s1.puzzles == s.puzzles.push(row));
    assert(s1.puzzles[s.puzzles.len() as int] == row);
    assert(!has_dfac(s1, pid2)) by {
        if has_dfac(s1, pid2) {
            let i = choose|i: int|
                0 <= i < s1.puzzles.len() && (#[trigger] s1.puzzles[i]).dfac_id == pid2;
            if i < s.puzzles.len() {
                assert(s.puzzles[i] == s1.puzzles[i]);
                assert(has_dfac(s, pid2));
            }
        }
    };
    assert(has_date_source(s1, date, src));
}

/// One stored puzzle row: external id, title, date timestamp, and seeded
/// source id. The row's position in the table gives its internal id.
#[derive(Debug)]
pub struct PuzzleRow {
    pub dfac_id: String,
    pub title: String,
    pub date: i64,
    pub source: u64,
}

impl PuzzleRow {
    pub open spec fn model(self) -> PuzzleRowModel {
        PuzzleRowModel {
            dfac_id: self.dfac_id@,
            title: self.title@,
            date: self.date as int,
            source: self.source as int,
        }
    }
}

/// One puzzle-answer association, by row indices.
#[derive(Debug, Clone, Copy)]
pub struct Link {
    pub puzzle: usize,
    pub answer: usize,
}

/// The normalized store of ingested puzzles and their answers.
#[derive(Debug)]
pub struct Store {
    puzzles: Vec<PuzzleRow>,
    answers: Vec<String>,
    links: Vec<Link>,
}

impl View for Store {
    type V = StoreModel;

    closed spec fn view(&self) -> StoreModel {
        StoreModel {
            puzzles: self.puzzles@.map(|i: int, r: PuzzleRow| r.model()),
            answers: self.answers.deep_view(),
            links: self.links@.map(|i: int, l: Link| (l.puzzle as int, l.answer as int)),
        }
    }
}

/// The seeded source table name of a publisher.
pub fn source_name(source: PuzzleSource) -> (r: &'static str)
    ensures
        r@ == match source {
            PuzzleSource::NewYorkTimes => "New York Times"@,
            PuzzleSource::LosAngelesTimes => "Los Angeles Times"@,
        },
{
    match source {
        PuzzleSource::NewYorkTimes => "New York Times",
        PuzzleSource::LosAngelesTimes => "Los Angeles Times",
    }
}

/// The seeded source table row id of a publisher.
pub fn source_row_id(source: PuzzleSource) -> (r: u64)
    ensures
        r as int == source_id(source),
{
    match source {
        PuzzleSource::NewYorkTimes => 1,
        PuzzleSource::LosAngelesTimes => 2,
    }
}

impl Store {
    /// An empty store over the seeded source rows.
    pub fn new() -> (r: Store)
        ensures
            r@.puzzles.len() == 0,
            r@.answers.len() == 0,
            r@.links.len() == 0,
            wf(r@),
    {
        Store { puzzles: Vec::new(), answers: Vec::new(), links: Vec::new() }
    }

    pub fn puzzle_count(&self) -> (r: usize)
        ensures
            r == self@.puzzles.len(),
    {
        self.puzzles.len()
    }

    pub fn answer_count(&self) -> (r: usize)
        ensures
            r == self@.answers.len(),
    {
        self.answers.len()
    }

    pub fn link_count(&self) -> (r: usize)
        ensures
            r == self@.links.len(),
    {
        self.links.len()
    }

    fn find_puzzle_row(&self, pid: &str) -> (r: Option<usize>)
        ensures
            match r {
                Some(i) => i < self@.puzzles.len() && self@.puzzles[i as int].dfac_id == pid@,
                None => !has_dfac(self@, pid@),
            },
    {
        let mut i: usize = 0;
        while i < self.puzzles.len()
            invariant
                i <= self.puzzles@.len(),
                forall|j: int| 0 <= j < i ==> (#[trigger] self@.puzzles[j]).dfac_id != pid@,
            decreases self.puzzles@.len() - i,
        {
            if crate::title_date::str_eq(self.puzzles[i].dfac_id.as_str(), pid) {
                return Some(i);
            }
            i = i + 1;
        }
        None
    }

    /// Whether a puzzle with this external id is stored.
    pub fn contains_puzzle(&self, dfac_id: &str) -> (b: bool)
        ensures
            b == has_dfac(self@, dfac_id@),
    {
        self.find_puzzle_row(dfac_id).is_some()
    }

    fn find_date_source_row(&self, date: i64, src: u64) -> (r: Option<usize>)
        ensures
            match r {
                Some(i) => i < self@.puzzles.len() && self@.puzzles[i as int].date == date as int
                    && self@.puzzles[i as int].source == src as int,
                None => !has_date_source(self@, date as int, src as int),
            },
    {
        let mut i: usize = 0;
        while i < self.puzzles.len()
            invariant
                i <= self.puzzles@.len(),
                forall|j: int|
                    0 <= j < i ==> !((#[trigger] self@.puzzles[j]).date == date as int
                        && self@.puzzles[j].source == src as int),
            decreases self.puzzles@.len() - i,
        {
            if self.puzzles[i].date == date && self.puzzles[i].source == src {
                return Some(i);
            }
            i = i + 1;
        }
        None
    }

    fn find_answer_row(&self, w: &str) -> (r: Option<usize>)
        ensures
            match r {
                Some(j) => j < self@.answers.len() && self@.answers[j as int] == w@,
                None => !has_answer(self@, w@),
            },
    {
        let mut j: usize = 0;
        while j < self.answers.len()
            invariant
                j <= self.answers@.len(),
                forall|l: int| 0 <= l < j ==> #[trigger] self@.answers[l] != w@,
            decreases self.answers@.len() - j,
        {
            if crate::title_date::str_eq(self.answers[j].as_str(), w) {
                return Some(j);
            }
            j = j + 1;
        }
        None
    }

    fn link_present(&self, pi: usize, ai: usize) -> (b: bool)
        ensures
            b == has_link(self@, pi as int, ai as int),
    {
        let mut l: usize = 0;
        while l < self.links.len()
            invariant
                l <= self.links@.len(),
                forall|m: int| 0 <= m < l ==> #[trigger] self@.links[m] != (pi as int, ai as int),
            decreases self.links@.len() - l,
        {
            if self.links[l].puzzle == pi && self.links[l].answer == ai {
                proof {
                    assert(self@.links[l as int] == (pi as int, ai as int));
                }
                return true;
            }
            l = l + 1;
        }
        false
    }

    /// Upserts one classified puzzle with its extracted answers, as a single
    /// unit: the puzzle row unless its external id or its (date, source)
    /// pair is taken — the latter a complete no-op — then each answer text
    /// and each association, all inserted only where missing.
    pub fn upsert_puzzle(&mut self, puzzle: &Puzzle, date: Date, source: PuzzleSource)
        requires
            wf(old(self)@),
            puzzle.grid_rectangular(),
            date.valid(),
        ensures
            wf(final(self)@),
            final(self)@ == upsert_model(
                old(self)@,
                puzzle.pid@,
                puzzle.title_view(),
                date.spec_timestamp(),
                source_id(source),
                answers_spec(puzzle.grid_view()),
            ),
    {
        let ghost s0 = self@;
        let ghost pid = puzzle.pid@;
        let ghost ws = answers_spec(puzzle.grid_view());
        let ts = date.timestamp();
        let sid = source_row_id(source);
        let pi: usize;
        match self.find_puzzle_row(puzzle.id()) {
            Some(i) => {
                pi = i;
                proof {
                    assert(has_dfac(s0, pid));
                    let px = dfac_index(s0, pid);
                    assert(0 <= px < s0.puzzles.len() && s0.puzzles[px].dfac_id == pid);
                    if px != i as int {
                        assert(false);
                    }
                    assert(upsert_model(s0, pid, puzzle.title_view(), ts as int, sid as int, ws)
                        == add_words(s0, pi as int, ws));
                }
            },
            None => {
                if self.find_date_source_row(ts, sid).is_some() {
                    proof {
                        assert(has_date_source(s0, ts as int, sid as int));
                        assert(upsert_model(
                            s0,
                            pid,
                            puzzle.title_view(),
                            ts as int,
                            sid as int,
                            ws,
                        ) == s0);
                    }
                    return;
                }
                pi = self.puzzles.len();
                let row = PuzzleRow {
                    dfac_id: puzzle.id().to_owned(),
                    title: puzzle.title().to_owned(),
                    date: ts,
                    source: sid,
                };
                self.puzzles.push(row);
                proof {
                    let rowm = PuzzleRowModel {
                        dfac_id: pid,
                        title: puzzle.title_view(),
                        date: ts as int,
                        source: sid as int,
                    };
                    let s2 = StoreModel { puzzles: s0.puzzles.push(rowm), ..s0 };
                    assert(self@.puzzles =~= s0.puzzles.push(rowm));
                    assert(self@ =~= s2);
                    assert(s2.puzzles[pi as int] == rowm);
                    assert(forall|i: int|
                        0 <= i < pi ==> #[trigger] s2.puzzles[i] == s0.puzzles[i]);
                    assert(wf(s2));
                    assert(upsert_model(s0, pid, puzzle.title_view(), ts as int, sid as int, ws)
                        == add_words(s2, pi as int, ws));
                }
            },
        }
        let ghost sb = self@;
        let words = puzzle.answers();
        proof {
            assert(ws.skip(0) =~= ws);
        }
        let mut k: usize = 0;
        while k < words.len()
            invariant
                wf(self@),
                pi < self@.puzzles.len(),
                ws == words.deep_view(),
                k <= words@.len(),
                ws.len() == words@.len(),
                add_words(sb, pi as int, ws) == add_words(self@, pi as int, ws.skip(k as int)),
            decreases words@.len() - k,
        {
            let ghost sc = self@;
            let w = &words[k];
            proof {
                assert(w@ == ws[k as int]);
            }
            let ai: usize;
            let ghost s1 = if has_answer(sc, w@) {
                sc
            } else {
                StoreModel { answers: sc.answers.push(w@), ..sc }
            };
            match self.find_answer_row(w.as_str()) {
                Some(a) => {
                    ai = a;
                    proof {
                        assert(has_answer(sc, w@));
                        assert(s1 == sc);
                        let j = answer_index(sc, w@);
                        assert(0 <= j < sc.answers.len() && sc.answers[j] == w@);
                        if j != a as int {
                            assert(false);
                        }
                    }
                },
                None => {
                    ai = self.answers.len();
                    self.answers.push(w.clone());
                    proof {
                        assert(self@.answers =~= sc.answers.push(w@));
                        assert(self@ =~= s1);
                        assert(s1.answers[ai as int] == w@);
                        assert(has_answer(s1, w@));
                        let j = answer_index(s1, w@);
                        assert(0 <= j < s1.answers.len() && s1.answers[j] == w@);
                        if j < ai as int {
                            assert(sc.answers[j] == w@);
                            assert(has_answer(sc, w@));
                            assert(false);
                        }
                        assert(j == ai as int);
                    }
                },
            }
            proof {
                assert(self@ == s1);
                assert(ai as int == answer_index(s1, w@));
            }
            if !self.link_present(pi, ai) {
                let ghost sd = self@;
                self.links.push(Link { puzzle: pi, answer: ai });
                proof {
                    assert(self@.links =~= sd.links.push((pi as int, ai as int)));
                    assert(self@ =~= StoreModel {
                        links: s1.links.push((pi as int, answer_index(s1, w@))),
                        ..s1
                    });
                }
            }
            proof {
                assert(self@ =~= add_word(sc, pi as int, ws[k as int]));
                lemma_add_word(sc, pi as int, ws[k as int]);
                assert(ws.skip(k as int)[0] == ws[k as int]);
                assert(ws.skip(k as int).skip(1) =~= ws.skip(k as int + 1));
                assert(add_words(sc, pi as int, ws.skip(k as int)) == add_words(
                    self@,
                    pi as int,
                    ws.skip(k as int + 1),
                ));
            }
            k = k + 1;
        }
        proof {
            assert(ws.skip(ws.len() as int) =~= Seq::<Seq<char>>::empty());
            assert(add_words(self@, pi as int, ws.skip(k as int)) == self@);
        }
    }
}

} // verus!
