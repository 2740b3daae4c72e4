//! Raw catalog records and answer extraction: a puzzle's letter grid is read
//! row by row and column by column, each line is split on the block marker
//! `'.'`, and the non-empty segments are the puzzle's answer words.

use vstd::prelude::*;

verus! {

/// Concatenation of a sequence of character sequences, in order.
pub open spec fn concat_all(parts: Seq<Seq<char>>) -> Seq<char>
    decreases parts.len(),
{
    if parts.len() == 0 {
        Seq::empty()
    } else {
        concat_all(parts.drop_last()) + parts.last()
    }
}

/// The non-empty segments of `s` delimited by `'.'` characters, in order.
pub open spec fn words_spec(s: Seq<char>) -> Seq<Seq<char>>
    decreases s.len(),
{
    if s.len() == 0 {
        Seq::empty()
    } else {
        let prefix = s.drop_last();
        let c = s.last();
        let w = words_spec(prefix);
        if c == '.' {
            w
        } else if prefix.len() == 0 || prefix.last() == '.' {
            w.push(seq![c])
        } else {
            w.update(w.len() - 1, w.last().push(c))
        }
    }
}

/// The words of each grid row (cells concatenated left to right), in row
/// order.
pub open spec fn rows_words(grid: Seq<Seq<Seq<char>>>) -> Seq<Seq<char>>
    decreases grid.len(),
{
    if grid.len() == 0 {
        Seq::empty()
    } else {
        rows_words(grid.drop_last()) + words_spec(concat_all(grid.last()))
    }
}

/// Column `c` of the grid, read top to bottom.
pub open spec fn column_seq(grid: Seq<Seq<Seq<char>>>, c: int) -> Seq<Seq<char>> {
    Seq::new(grid.len(), |r: int| grid[r][c])
}

/// The words of the first `n` grid columns (cells concatenated top to
/// bottom), in column order.
pub open spec fn cols_words(grid: Seq<Seq<Seq<char>>>, n: int) -> Seq<Seq<char>>
    decreases n,
{
    if n <= 0 {
        Seq::empty()
    } else {
        cols_words(grid, n - 1) + words_spec(concat_all(column_seq(grid, n - 1)))
    }
}

/// The column count: the first row's width, or zero for an empty grid.
pub open spec fn grid_cols(grid: Seq<Seq<Seq<char>>>) -> int {
    if grid.len() == 0 {
        0
    } else {
        grid[0].len() as int
    }
}

/// All answers of a grid: the row words followed by the column words.
pub open spec fn answers_spec(grid: Seq<Seq<Seq<char>>>) -> Seq<Seq<char>> {
    rows_words(grid) + cols_words(grid, grid_cols(grid))
}

/// A string with no block marker splits into itself alone: one word if it is
/// non-empty, none if it is empty.
pub proof fn lemma_words_spec_no_dot(s: Seq<char>)
    requires
        forall|i: int| 0 <= i < s.len() ==> s[i] != '.',
    ensures
        words_spec(s) == if s.len() == 0 {
            Seq::<Seq<char>>::empty()
        } else {
            seq![s]
        },
    decreases s.len(),
{
    if s.len() > 0 {
        let prefix = s.drop_last();
        assert(forall|i: int| 0 <= i < prefix.len() ==> prefix[i] == s[i]);
        lemma_words_spec_no_dot(prefix);
        assert(s.last() != '.');
        if prefix.len() == 0 {
            assert(words_spec(s) == Seq::<Seq<char>>::empty().push(seq![s.last()]));
            assert(seq![s.last()] =~= s);
            assert(Seq::<Seq<char>>::empty().push(s) =~= seq![s]);
        } else {
            assert(prefix.last() != '.');
            let w = seq![prefix];
            assert(words_spec(s) == w.update(0, prefix.push(s.last())));
            assert(prefix.push(s.last()) =~= s);
            assert(w.update(0, s) =~= seq![s]);
        }
    }
}

/// Every extracted word is non-empty and holds no block marker: words are
/// runs of non-block characters.
pub proof fn lemma_words_spec_wellformed(s: Seq<char>)
    ensures
        forall|k: int|
            0 <= k < words_spec(s).len() ==> (#[trigger] words_spec(s)[k]).len() > 0,
        forall|k: int, i: int|
            0 <= k < words_spec(s).len() && 0 <= i < words_spec(s)[k].len()
                ==> #[trigger] words_spec(s)[k][i] != '.',
    decreases s.len(),
{
    if s.len() > 0 {
        let prefix = s.drop_last();
        let c = s.last();
        lemma_words_spec_wellformed(prefix);
        let w = words_spec(prefix);
        if c == '.' {
        } else if prefix.len() == 0 || prefix.last() == '.' {
            assert(words_spec(s) == w.push(seq![c]));
            assert(forall|k: int| 0 <= k < w.len() ==> #[trigger] words_spec(s)[k] == w[k]);
            assert(words_spec(s)[w.len() as int] == seq![c]);
            assert(seq![c][0] == c);
        } else {
            lemma_words_spec_last_nonempty(prefix);
            let last = w[w.len() - 1];
            assert(words_spec(s) == w.update(w.len() - 1, last.push(c)));
            assert(forall|k: int|
                0 <= k < w.len() - 1 ==> #[trigger] words_spec(s)[k] == w[k]);
            assert(words_spec(s)[w.len() - 1] == last.push(c));
            assert(forall|i: int| 0 <= i < last.len() ==> last.push(c)[i] == last[i]);
            assert(last.push(c)[last.len() as int] == c);
        }
    }
}

/// A string ending in a non-block character splits into at least one word.
pub proof fn lemma_words_spec_last_nonempty(s: Seq<char>)
    requires
        s.len() > 0,
        s.last() != '.',
    ensures
        words_spec(s).len() > 0,
    decreases s.len(),
{
    let prefix = s.drop_last();
    if !(prefix.len() == 0 || prefix.last() == '.') {
        lemma_words_spec_last_nonempty(prefix);
    }
}

/// Every word in the list is a non-empty run without the block marker.
pub open spec fn all_words_wellformed(ws: Seq<Seq<char>>) -> bool {
    forall|k: int|
        0 <= k < ws.len() ==> (#[trigger] ws[k]).len() > 0 && (forall|i: int|
            0 <= i < ws[k].len() ==> #[trigger] ws[k][i] != '.')
}

proof fn lemma_all_words_wellformed_append(a: Seq<Seq<char>>, b: Seq<Seq<char>>)
    requires
        all_words_wellformed(a),
        all_words_wellformed(b),
    ensures
        all_words_wellformed(a + b),
{
    assert forall|k: int| 0 <= k < (a + b).len() implies (#[trigger] (a + b)[k]).len() > 0 && (
    forall|i: int| 0 <= i < (a + b)[k].len() ==> #[trigger] (a + b)[k][i] != '.') by {
        if k < a.len() {
            assert((a + b)[k] == a[k]);
        } else {
            assert((a + b)[k] == b[k - a.len()]);
        }
    };
}

proof fn lemma_rows_words_wellformed(grid: Seq<Seq<Seq<char>>>)
    ensures
        all_words_wellformed(rows_words(grid)),
    decreases grid.len(),
{
    if grid.len() == 0 {
    } else {
        lemma_rows_words_wellformed(grid.drop_last());
        lemma_words_spec_wellformed(concat_all(grid.last()));
        lemma_all_words_wellformed_append(
            rows_words(grid.drop_last()),
            words_spec(concat_all(grid.last())),
        );
    }
}

proof fn lemma_cols_words_wellformed(grid: Seq<Seq<Seq<char>>>, n: int)
    ensures
        all_words_wellformed(cols_words(grid, n)),
    decreases n,
{
    if n <= 0 {
    } else {
        lemma_cols_words_wellformed(grid, n - 1);
        lemma_words_spec_wellformed(concat_all(column_seq(grid, n - 1)));
        lemma_all_words_wellformed_append(
            cols_words(grid, n - 1),
            words_spec(concat_all(column_seq(grid, n - 1))),
        );
    }
}

/// Every answer a grid yields is a non-empty contiguous run of non-block
/// characters.
pub proof fn lemma_answers_wellformed(grid: Seq<Seq<Seq<char>>>)
    ensures
        all_words_wellformed(answers_spec(grid)),
{
    lemma_rows_words_wellformed(grid);
    lemma_cols_words_wellformed(grid, grid_cols(grid));
    lemma_all_words_wellformed_append(rows_words(grid), cols_words(grid, grid_cols(grid)));
}

/// Concatenating single-character cells gives one character per cell.
pub proof fn lemma_concat_all_units(cells: Seq<Seq<char>>)
    requires
        forall|i: int| 0 <= i < cells.len() ==> (#[trigger] cells[i]).len() == 1,
    ensures
        concat_all(cells).len() == cells.len(),
        forall|i: int|
            0 <= i < cells.len() ==> concat_all(cells)[i] == (#[trigger] cells[i])[0],
    decreases cells.len(),
{
    if cells.len() > 0 {
        let prefix = cells.drop_last();
        assert(forall|i: int| 0 <= i < prefix.len() ==> prefix[i] == cells[i]);
        lemma_concat_all_units(prefix);
        assert(cells.last().len() == 1);
        assert(concat_all(cells) == concat_all(prefix) + cells.last());
        assert(concat_all(cells)[cells.len() - 1] == cells.last()[0]);
    }
}

/// A grid with zero rows yields no answers at all.
pub proof fn lemma_empty_grid_answers(grid: Seq<Seq<Seq<char>>>)
    requires
        grid.len() == 0,
    ensures
        answers_spec(grid) == Seq::<Seq<char>>::empty(),
{
    assert(answers_spec(grid) =~= Seq::<Seq<char>>::empty());
}

proof fn lemma_single_row_cols(grid: Seq<Seq<Seq<char>>>, n: int)
    requires
        grid.len() == 1,
        forall|j: int|
            0 <= j < grid[0].len() ==> (#[trigger] grid[0][j]).len() == 1 && grid[0][j][0]
                != '.',
        0 <= n <= grid[0].len(),
    ensures
        cols_words(grid, n) == Seq::new(n as nat, |c: int| grid[0][c]),
    decreases n,
{
    if n <= 0 {
        assert(cols_words(grid, n) =~= Seq::new(n as nat, |c: int| grid[0][c]));
    } else {
        lemma_single_row_cols(grid, n - 1);
        let cell = grid[0][n - 1];
        assert(column_seq(grid, n - 1) =~= seq![cell]);
        assert(seq![cell].drop_last() =~= Seq::<Seq<char>>::empty());
        assert(concat_all(seq![cell]) == concat_all(Seq::<Seq<char>>::empty()) + cell);
        assert(concat_all(seq![cell]) =~= cell);
        assert(cell.len() == 1 && cell[0] != '.');
        assert(forall|i: int| 0 <= i < cell.len() ==> cell[i] != '.');
        lemma_words_spec_no_dot(cell);
        assert(cols_words(grid, n) == Seq::new((n - 1) as nat, |c: int| grid[0][c]) + seq![
            cell,
        ]);
        assert(Seq::new((n - 1) as nat, |c: int| grid[0][c]) + seq![cell] =~= Seq::new(
            n as nat,
            |c: int| grid[0][c],
        ));
    }
}

/// A single-row grid with no block cells yields, from the row pass, exactly
/// one answer equal to the concatenation of the row's letters, and, from the
/// column pass, one answer per column, each a single cell of length one.
pub proof fn lemma_single_row_answers(grid: Seq<Seq<Seq<char>>>)
    requires
        grid.len() == 1,
        grid[0].len() >= 1,
        forall|j: int|
            0 <= j < grid[0].len() ==> (#[trigger] grid[0][j]).len() == 1 && grid[0][j][0]
                != '.',
    ensures
        answers_spec(grid) == seq![concat_all(grid[0])] + Seq::new(
            grid[0].len(),
            |c: int| grid[0][c],
        ),
        concat_all(grid[0]).len() == grid[0].len(),
        forall|i: int| 0 <= i < grid[0].len() ==> concat_all(grid[0])[i] == grid[0][i][0],
{
    lemma_concat_all_units(grid[0]);
    let line = concat_all(grid[0]);
    assert forall|i: int| 0 <= i < line.len() implies line[i] != '.' by {
        assert(line[i] == grid[0][i][0]);
    };
    lemma_words_spec_no_dot(line);
    assert(grid.drop_last() =~= Seq::<Seq<Seq<char>>>::empty());
    assert(rows_words(grid) == rows_words(grid.drop_last()) + words_spec(concat_all(
        grid.last(),
    )));
    assert(grid.last() == grid[0]);
    assert(rows_words(grid) =~= seq![line]);
    lemma_single_row_cols(grid, grid[0].len() as int);
    assert(answers_spec(grid) =~= seq![line] + Seq::new(grid[0].len(), |c: int| grid[0][c]));
}

/// The non-empty segments of `s` delimited by `'.'`, as owned strings.
pub fn words(s: &str) -> (r: Vec<String>)
    ensures
        r.deep_view() == words_spec(s@),
{
    let n = s.unicode_len();
    let mut r: Vec<String> = Vec::new();
    let mut pos: usize = 0;
    let mut seg_start: usize = 0;
    while pos < n
        invariant
            n == s@.len(),
            seg_start <= pos <= n,
            (seg_start == pos) <==> (pos == 0 || s@[pos as int - 1] == '.'),
            words_spec(s@.take(pos as int)) == r.deep_view() + (if seg_start < pos {
                seq![s@.subrange(seg_start as int, pos as int)]
            } else {
                Seq::<Seq<char>>::empty()
            }),
        decreases n - pos,
    {
        let ghost taken = s@.take(pos as int);
        let ghost taken1 = s@.take(pos as int + 1);
        proof {
            assert(taken1.drop_last() =~= taken);
            assert(taken1.last() == s@[pos as int]);
        }
        let c = s.get_char(pos);
        if c == '.' {
            if seg_start < pos {
                let seg = s.substring_char(seg_start, pos).to_owned();
                proof {
                    assert(r.deep_view().push(seg@) =~= r.deep_view() + seq![
                        s@.subrange(seg_start as int, pos as int),
                    ]);
                }
                let ghost old_dv = r.deep_view();
                r.push(seg);
                proof {
                    assert(r.deep_view() =~= old_dv.push(seg@));
                }
            }
            seg_start = pos + 1;
            proof {
                assert(words_spec(taken1) == words_spec(taken));
                assert(r.deep_view() + Seq::<Seq<char>>::empty() =~= r.deep_view());
            }
        } else {
            if seg_start == pos {
                proof {
                    assert(words_spec(taken1) == words_spec(taken).push(seq![s@[pos as int]]));
                    assert(r.deep_view() + Seq::<Seq<char>>::empty() =~= r.deep_view());
                    assert(s@.subrange(seg_start as int, pos as int + 1) =~= seq![
                        s@[pos as int],
                    ]);
                    assert(words_spec(taken).push(s@.subrange(seg_start as int, pos as int + 1))
                        =~= r.deep_view() + seq![s@.subrange(seg_start as int, pos as int + 1)]);
                }
            } else {
                let ghost seg = s@.subrange(seg_start as int, pos as int);
                let ghost seg1 = s@.subrange(seg_start as int, pos as int + 1);
                proof {
                    assert(taken.len() > 0 && taken.last() != '.');
                    let w = words_spec(taken);
                    assert(w == r.deep_view() + seq![seg]);
                    assert(w.len() == r.deep_view().len() + 1);
                    assert(w.last() == seg);
                    assert(seg.push(s@[pos as int]) =~= seg1);
                    assert(words_spec(taken1) == w.update(w.len() - 1, seg1));
                    assert(w.update(w.len() - 1, seg1) =~= r.deep_view() + seq![seg1]);
                }
            }
        }
        pos = pos + 1;
    }
    if seg_start < n {
        let seg = s.substring_char(seg_start, n).to_owned();
        let ghost old_dv = r.deep_view();
        r.push(seg);
        proof {
            assert(r.deep_view() =~= old_dv.push(seg@));
            assert(old_dv.push(seg@) =~= old_dv + seq![s@.subrange(seg_start as int, n as int)]);
        }
    } else {
        proof {
            assert(r.deep_view() + Seq::<Seq<char>>::empty() =~= r.deep_view());
        }
    }
    proof {
        assert(s@.take(n as int) =~= s@);
    }
    r
}

/// One row or column line: the concatenation of its cell strings.
fn concat_cells(cells: &Vec<String>) -> (s: String)
    ensures
        s@ == concat_all(cells.deep_view()),
{
    let mut s = String::new();
    let mut i: usize = 0;
    while i < cells.len()
        invariant
            i <= cells@.len(),
            s@ == concat_all(cells.deep_view().take(i as int)),
        decreases cells@.len() - i,
    {
        let ghost dv = cells.deep_view();
        proof {
            assert(dv.take(i as int + 1).drop_last() =~= dv.take(i as int));
            assert(dv.take(i as int + 1).last() == dv[i as int]);
        }
        s.append(cells[i].as_str());
        i = i + 1;
    }
    proof {
        assert(cells.deep_view().take(cells@.len() as int) =~= cells.deep_view());
    }
    s
}

/// Title, author and kind of a catalog puzzle record.
#[derive(Debug)]
pub struct PuzzleInfo {
    pub puzzle_type: String,
    pub title: String,
    pub author: String,
    pub description: String,
}

/// Clue lists of a catalog puzzle record, indexed by grid number.
#[derive(Debug)]
pub struct PuzzleClues {
    pub down: Vec<Option<String>>,
    pub across: Vec<Option<String>>,
}

/// The puzzle body: metadata, clues, circled cells, and the letter grid.
/// Each grid cell is a letter string, or `"."` for a block.
#[derive(Debug)]
pub struct PuzzleContent {
    pub private: bool,
    pub info: PuzzleInfo,
    pub clues: PuzzleClues,
    pub circles: Vec<usize>,
    pub grid: Vec<Vec<String>>,
}

/// Solve statistics of a catalog puzzle record.
#[derive(Debug)]
pub struct PuzzleStats {
    pub num_solves: usize,
}

/// One raw puzzle record as the catalog serves it, immutable once fetched.
#[derive(Debug)]
pub struct Puzzle {
    pub pid: String,
    pub content: PuzzleContent,
    pub stats: PuzzleStats,
}

impl Puzzle {
    /// The grid as a sequence of rows of cell-character sequences.
    pub open spec fn grid_view(self) -> Seq<Seq<Seq<char>>> {
        self.content.grid.deep_view()
    }

    pub open spec fn title_view(self) -> Seq<char> {
        self.content.info.title@
    }

    /// Every row is at least as wide as the first: the shape on which the
    /// column pass reads the grid (only the first row's width is read).
    pub open spec fn grid_rectangular(self) -> bool {
        forall|i: int|
            0 <= i < self.grid_view().len() ==> (#[trigger] self.grid_view()[i]).len()
                >= self.grid_view()[0].len()
    }

    pub fn title(&self) -> (r: &str)
        ensures
            r@ == self.title_view(),
    {
        self.content.info.title.as_str()
    }

    pub fn id(&self) -> (r: &str)
        ensures
            r@ == self.pid@,
    {
        self.pid.as_str()
    }

    /// All answer words of the puzzle: for each row, then for each column
    /// (up to the first row's width), the `'.'`-separated segments of the
    /// concatenated cells.
    pub fn answers(&self) -> (r: Vec<String>)
        requires
            self.grid_rectangular(),
        ensures
            r.deep_view() == answers_spec(self.grid_view()),
    {
        let ghost gv = self.grid_view();
        let mut answers: Vec<String> = Vec::new();
        let grid = &self.content.grid;
        let nrows = grid.len();
        let mut rn: usize = 0;
        while rn < nrows
            invariant
                nrows == grid@.len(),
                gv == grid.deep_view(),
                gv == self.grid_view(),
                rn <= nrows,
                answers.deep_view() == rows_words(gv.take(rn as int)),
            decreases nrows - rn,
        {
            proof {
                assert(gv.take(rn as int + 1).drop_last() =~= gv.take(rn as int));
                assert(gv.take(rn as int + 1).last() == gv[rn as int]);
            }
            let line = concat_cells(&grid[rn]);
            let mut ws = words(line.as_str());
            let ghost old_dv = answers.deep_view();
            let ghost ws_dv = ws.deep_view();
            answers.append(&mut ws);
            proof {
                assert(answers.deep_view() =~= old_dv + ws_dv);
            }
            rn = rn + 1;
        }
        proof {
            assert(gv.take(nrows as int) =~= gv);
        }
        let ncols = if nrows == 0 {
            0
        } else {
            grid[0].len()
        };
        let mut cn: usize = 0;
        while cn < ncols
            invariant
                nrows == grid@.len(),
                gv == grid.deep_view(),
                gv == self.grid_view(),
                self.grid_rectangular(),
                ncols as int == grid_cols(gv),
                cn <= ncols,
                answers.deep_view() == rows_words(gv) + cols_words(gv, cn as int),
            decreases ncols - cn,
        {
            let mut line = String::new();
            let mut rr: usize = 0;
            while rr < nrows
                invariant
                    nrows == grid@.len(),
                    gv == grid.deep_view(),
                    gv == self.grid_view(),
                gv == self.grid_view(),
                    self.grid_rectangular(),
                    ncols as int == grid_cols(gv),
                    cn < ncols,
                    rr <= nrows,
                    line@ == concat_all(column_seq(gv, cn as int).take(rr as int)),
                decreases nrows - rr,
            {
                proof {
                    assert(self.grid_view() == gv);
                    assert((self.grid_view()[rr as int]).len() >= self.grid_view()[0].len());
                    assert(gv[rr as int].len() >= gv[0].len());
                    assert(column_seq(gv, cn as int).take(rr as int + 1).drop_last()
                        =~= column_seq(gv, cn as int).take(rr as int));
                    assert(column_seq(gv, cn as int).take(rr as int + 1).last() == gv[rr as int][cn as int]);
                }
                line.append(grid[rr][cn].as_str());
                rr = rr + 1;
            }
            proof {
                assert(column_seq(gv, cn as int).take(nrows as int) =~= column_seq(
                    gv,
                    cn as int,
                ));
            }
            let mut ws = words(line.as_str());
            let ghost old_dv = answers.deep_view();
            let ghost ws_dv = ws.deep_view();
            answers.append(&mut ws);
            proof {
                assert(answers.deep_view() =~= old_dv + ws_dv);
                assert(rows_words(gv) + cols_words(gv, cn as int + 1) =~= (rows_words(gv)
                    + cols_words(gv, cn as int)) + words_spec(concat_all(
                    column_seq(gv, cn as int),
                )));
            }
            cn = cn + 1;
        }
        answers
    }
}

/// One page of puzzle records as the catalog returns it.
#[derive(Debug)]
pub struct PuzzleList {
    puzzles: Vec<Puzzle>,
}

impl View for PuzzleList {
    type V = Seq<Puzzle>;

    closed spec fn view(&self) -> Seq<Puzzle> {
        self.puzzles@
    }
}

impl PuzzleList {
    pub fn new(puzzles: Vec<Puzzle>) -> (r: PuzzleList)
        ensures
            r@ == puzzles@,
    {
        PuzzleList { puzzles }
    }

    pub fn iter(&self) -> (r: &Vec<Puzzle>)
        ensures
            r@ == self@,
    {
        &self.puzzles
    }

    pub fn into_puzzles(self) -> (r: Vec<Puzzle>)
        ensures
            r@ == self@,
    {
        self.puzzles
    }
}

} // verus!
