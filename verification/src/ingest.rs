//! The ingestion loop's state: pages are taken in increasing page-number
//! order, every record of a page is classified, the successes are appended,
//! and the loop is done once the accumulated count reaches the target. The
//! whole page's successes are kept, so the result may overshoot the target;
//! a fetch failure is the caller's to handle, and discards nothing already
//! absorbed only because the caller drops the state.

use vstd::prelude::*;
use crate::puzzle::{classify_puzzle, spec_classify, RemotePuzzle};
use crate::schema::{Puzzle, PuzzleList};

verus! {

/// The classifiable records of a page, in page order, each joined with its
/// publisher and date.
pub open spec fn classify_seq(ps: Seq<Puzzle>) -> Seq<RemotePuzzle>
    decreases ps.len(),
{
    if ps.len() == 0 {
        Seq::empty()
    } else {
        let rest = classify_seq(ps.drop_last());
        match spec_classify(ps.last().title_view()) {
            Some(sd) => rest.push(
                RemotePuzzle { puzzle: ps.last(), date: sd.1, source: sd.0 },
            ),
            None => rest,
        }
    }
}

/// Every date in a classified sequence is a valid calendar date.
pub proof fn lemma_classify_seq_dates_valid(ps: Seq<Puzzle>)
    ensures
        forall|i: int|
            0 <= i < classify_seq(ps).len() ==> (#[trigger] classify_seq(ps)[i]).date.valid(),
    decreases ps.len(),
{
    if ps.len() > 0 {
        lemma_classify_seq_dates_valid(ps.drop_last());
        crate::puzzle::lemma_classify_valid(ps.last().title_view());
    }
}

/// State of one ingestion run: the next page to request and the classified
/// puzzles accumulated so far, towards a target count.
pub struct Ingestion {
    target: usize,
    page_number: usize,
    puzzles: Vec<RemotePuzzle>,
}

impl Ingestion {
    pub closed spec fn spec_target(self) -> int {
        self.target as int
    }

    pub closed spec fn spec_page(self) -> int {
        self.page_number as int
    }

    pub closed spec fn spec_puzzles(self) -> Seq<RemotePuzzle> {
        self.puzzles@
    }

    /// A fresh run: page 0 next, nothing accumulated.
    pub fn new(target: usize) -> (r: Ingestion)
        ensures
            r.spec_target() == target,
            r.spec_page() == 0,
            r.spec_puzzles() == Seq::<RemotePuzzle>::empty(),
    {
        Ingestion { target, page_number: 0, puzzles: Vec::new() }
    }

    /// Whether another page must be fetched: the accumulator is still short
    /// of the target.
    pub fn needs_more(&self) -> (b: bool)
        ensures
            b == (self.spec_puzzles().len() < self.spec_target()),
    {
        self.puzzles.len() < self.target
    }

    /// The number of the page to request next.
    pub fn next_page(&self) -> (p: usize)
        ensures
            p == self.spec_page(),
    {
        self.page_number
    }

    /// The classified puzzles accumulated so far, in arrival order.
    pub fn collected(&self) -> (r: &Vec<RemotePuzzle>)
        ensures
            r@ == self.spec_puzzles(),
    {
        &self.puzzles
    }

    /// Absorbs one fetched page: classifies every record in page order,
    /// keeps the successes, drops the rest, and moves to the next page
    /// number.
    pub fn absorb_page(&mut self, page: PuzzleList)
        requires
            old(self).spec_page() < usize::MAX,
        ensures
            final(self).spec_target() == old(self).spec_target(),
            final(self).spec_page() == old(self).spec_page() + 1,
            final(self).spec_puzzles() == old(self).spec_puzzles() + classify_seq(page@),
    {
        let mut ps = page.into_puzzles();
        let ghost orig = ps@;
        let ghost prior = self.puzzles@;
        let ghost mut processed: int = 0;
        while ps.len() > 0
            invariant
                0 <= processed,
                processed + ps@.len() == orig.len(),
                ps@ == orig.skip(processed),
                self.puzzles@ == prior + classify_seq(orig.take(processed)),
                self.target == old(self).target,
                self.page_number == old(self).page_number,
            decreases ps@.len(),
        {
            proof {
                assert(ps@[0] == orig[processed]);
                assert(orig.take(processed + 1).drop_last() =~= orig.take(processed));
                assert(orig.take(processed + 1).last() == orig[processed]);
            }
            let p = ps.remove(0);
            proof {
                assert(ps@ =~= orig.skip(processed + 1));
            }
            match classify_puzzle(&p) {
                Some((source, date)) => {
                    let ghost before = self.puzzles@;
                    self.puzzles.push(RemotePuzzle { puzzle: p, date, source });
                    proof {
                        assert(self.puzzles@ =~= prior + classify_seq(orig.take(processed + 1)));
                    }
                },
                None => {
                    proof {
                        assert(classify_seq(orig.take(processed + 1)) =~= classify_seq(
                            orig.take(processed),
                        ));
                    }
                },
            }
            proof {
                processed = processed + 1;
            }
        }
        proof {
            assert(orig.take(processed) =~= orig);
            assert(self.puzzles@ =~= prior + classify_seq(orig));
        }
        self.page_number = self.page_number + 1;
    }

    /// Ends the run, handing over everything accumulated.
    pub fn into_puzzles(self) -> (r: Vec<RemotePuzzle>)
        ensures
            r@ == self.spec_puzzles(),
    {
        self.puzzles
    }
}

} // verus!
