//! One library of the problem: its held books, sign-up cost and shipping
//! rate, together with the score record one scoring round produces for it.

use vstd::prelude::*;

use crate::model::{
    capacity, keeps, lib_fits, lib_ids_ok, ordered_before, prefix_value, score_of, sentinel_score,
    sorted_desc, spec_min, total_value, without_books, LibModel, ScoreModel,
};
use crate::model::{
    lemma_filter_push, lemma_prefix_value_mono, lemma_prefix_value_nonneg,
    lemma_to_multiset_insert, lemma_total_value_add, lemma_total_value_push,
};

verus! {

/// A candidate library: a stable identifier, the book ids it still holds (in
/// shelf order: descending value), its sign-up cost in days and its daily
/// shipping rate.
#[derive(Debug)]
pub struct Library {
    pub id: usize,
    pub books: Vec<usize>,
    pub sign_up_days: usize,
    pub books_per_day: usize,
}

impl View for Library {
    type V = LibModel;

    open spec fn view(&self) -> LibModel {
        LibModel {
            id: self.id as int,
            books: self.books@,
            sign_up_days: self.sign_up_days as int,
            books_per_day: self.books_per_day as int,
        }
    }
}

/// The record one scoring round produces for one candidate: its position in
/// the pool, the uncapped number of books it would ship, and its score as
/// the exact rational `num / den`.
#[derive(Debug)]
pub struct LibraryScore {
    pub index: usize,
    pub num_books_to_ship: usize,
    pub num: usize,
    pub den: usize,
}

impl View for LibraryScore {
    type V = ScoreModel;

    open spec fn view(&self) -> ScoreModel {
        ScoreModel {
            index: self.index as int,
            num_books_to_ship: self.num_books_to_ship as int,
            num: self.num as int,
            den: self.den as int,
        }
    }
}

impl Default for LibraryScore {
    /// The sentinel record: a rational zero score, which never wins a strict
    /// comparison, so it marks "no usable candidate".
    fn default() -> (r: LibraryScore)
        ensures
            r@ == sentinel_score(),
    {
        LibraryScore { index: 0, num_books_to_ship: 0, num: 0, den: 1 }
    }
}

/// Whether the id list holds `x`.
pub(crate) fn ids_contain(v: &Vec<usize>, x: usize) -> (r: bool)
    ensures
        r == v@.contains(x),
{
    let mut i: usize = 0;
    while i < v.len()
        invariant
            i <= v@.len(),
            forall|j: int| 0 <= j < i ==> v@[j] != x,
        decreases v@.len() - i,
    {
        if v[i] == x {
            assert(v@[i as int] == x);
            return true;
        }
        i = i + 1;
    }
    false
}

/// A fresh copy of an id list.
pub(crate) fn copy_ids(v: &Vec<usize>) -> (r: Vec<usize>)
    ensures
        r@ == v@,
{
    let mut out: Vec<usize> = Vec::new();
    let mut i: usize = 0;
    while i < v.len()
        invariant
            i <= v@.len(),
            out@ == v@.take(i as int),
        decreases v@.len() - i,
    {
        out.push(v[i]);
        assert(v@.take(i + 1) =~= v@.take(i as int).push(v@[i as int]));
        i = i + 1;
    }
    assert(v@.take(v@.len() as int) =~= v@);
    out
}

/// Whether `a` may stand no later than `b` on the shelf.
fn before_on_shelf(values: &Vec<usize>, a: usize, b: usize) -> (r: bool)
    requires
        a < values@.len(),
        b < values@.len(),
    ensures
        r == ordered_before(values@, a, b),
{
    values[a] > values[b] || (values[a] == values[b] && a >= b)
}

impl Library {
    /// Build a library at construction time: the held books are sorted once,
    /// by descending value (ties by descending id), so that "the best books
    /// to ship" is always a prefix of the list.
    pub fn new(
        id: usize,
        books: Vec<usize>,
        sign_up_days: usize,
        books_per_day: usize,
        values: &Vec<usize>,
    ) -> (r: Library)
        requires
            forall|j: int| 0 <= j < books@.len() ==> (#[trigger] books@[j]) < values@.len(),
        ensures
            r@.id == id as int,
            r@.sign_up_days == sign_up_days as int,
            r@.books_per_day == books_per_day as int,
            r@.books.to_multiset() == books@.to_multiset(),
            r@.books.len() == books@.len(),
            sorted_desc(r@.books, values@),
            lib_ids_ok(r@, values@),
            total_value(r@.books, values@) == total_value(books@, values@),
    {
        broadcast use vstd::seq_lib::group_to_multiset_ensures;

        let mut shelf: Vec<usize> = Vec::new();
        let mut i: usize = 0;
        while i < books.len()
            invariant
                i <= books@.len(),
                shelf@.len() == i,
                forall|j: int| 0 <= j < books@.len() ==> (#[trigger] books@[j]) < values@.len(),
                forall|j: int| 0 <= j < shelf@.len() ==> (#[trigger] shelf@[j]) < values@.len(),
                sorted_desc(shelf@, values@),
                shelf@.to_multiset() == books@.take(i as int).to_multiset(),
                total_value(shelf@, values@) == total_value(books@.take(i as int), values@),
            decreases books@.len() - i,
        {
            let b = books[i];
            let ghost shelf_before = shelf@;
            let mut pos: usize = 0;
            loop
                invariant_except_break
                    pos <= shelf@.len(),
                    shelf@ == shelf_before,
                    b < values@.len(),
                    forall|j: int| 0 <= j < shelf@.len() ==> (#[trigger] shelf@[j]) < values@.len(),
                    forall|k: int| 0 <= k < pos ==> ordered_before(values@, #[trigger] shelf@[k], b),
                ensures
                    pos <= shelf@.len(),
                    shelf@ == shelf_before,
                    forall|k: int| 0 <= k < pos ==> ordered_before(values@, #[trigger] shelf@[k], b),
                    pos < shelf@.len() ==> !ordered_before(values@, shelf@[pos as int], b),
                decreases shelf@.len() - pos,
            {
                if pos >= shelf.len() {
                    break;
                }
                if !before_on_shelf(values, shelf[pos], b) {
                    break;
                }
                pos = pos + 1;
            }
            shelf.insert(pos, b);
            proof {
                let s0 = shelf_before;
                let s1 = shelf@;
                // The shelf order survives the insertion.
                assert forall|p: int, q: int| 0 <= p <= q < s1.len() implies ordered_before(
                    values@,
                    #[trigger] s1[p],
                    #[trigger] s1[q],
                ) by {
                    if p == q {
                    } else if q < pos {
                    } else if p < pos && q == pos {
                    } else if p == pos && q > pos {
                        if pos < s0.len() {
                            assert(!ordered_before(values@, s0[pos as int], b));
                            assert(ordered_before(values@, b, s0[pos as int]));
                            assert(ordered_before(values@, s0[pos as int], s0[q - 1]));
                        }
                    } else if p < pos && q > pos {
                        assert(ordered_before(values@, s0[p], s0[q - 1]));
                    }
                }
                // The multiset and the total value gain exactly the new book.
                lemma_to_multiset_insert(s0, pos as int, b);
                assert(books@.take(i + 1) =~= books@.take(i as int).push(b));
                vstd::seq_lib::to_multiset_build(books@.take(i as int), b);
                lemma_total_value_push(books@.take(i as int), b, values@);
                assert(s1 =~= s0.take(pos as int) + (seq![b] + s0.skip(pos as int)));
                assert(s0 =~= s0.take(pos as int) + s0.skip(pos as int));
                lemma_total_value_add(s0.take(pos as int), seq![b] + s0.skip(pos as int), values@);
                lemma_total_value_add(seq![b], s0.skip(pos as int), values@);
                lemma_total_value_add(s0.take(pos as int), s0.skip(pos as int), values@);
                assert(total_value(seq![b], values@) == values@[b as int] as int) by {
                    assert(prefix_value(seq![b], values@, 0) == 0);
                }
            }
            i = i + 1;
        }
        assert(books@.take(books@.len() as int) =~= books@);
        Library { id, books: shelf, sign_up_days, books_per_day }
    }

    /// Remove every id of `books_to_remove` from the held books, keeping the
    /// survivors in their shelf order. Removing an absent id is a no-op.
    pub fn remove_books(&mut self, books_to_remove: &Vec<usize>)
        ensures
            final(self)@ == without_books(old(self)@, books_to_remove@),
    {
        let mut kept: Vec<usize> = Vec::new();
        let mut i: usize = 0;
        while i < self.books.len()
            invariant
                i <= self.books@.len(),
                *self == *old(self),
                kept@ == self.books@.take(i as int).filter(keeps(books_to_remove@)),
            decreases self.books@.len() - i,
        {
            let b = self.books[i];
            proof {
                assert(self.books@.take(i + 1) =~= self.books@.take(i as int).push(b));
                lemma_filter_push(self.books@.take(i as int), b, keeps(books_to_remove@));
            }
            if !ids_contain(books_to_remove, b) {
                kept.push(b);
            }
            i = i + 1;
        }
        proof {
            assert(self.books@.take(self.books@.len() as int) =~= self.books@);
        }
        self.books = kept;
    }

    /// Score this candidate for the coming round, mirroring `score_of`: the
    /// sentinel if the library cannot finish signing up in the remaining
    /// days; otherwise the summed value of the first `min(capacity, held)`
    /// books on the shelf, normalized by `6 * sign_up_days + remaining_days`.
    pub fn calculate_score(
        &self,
        remaining_days: usize,
        problem_books: &Vec<usize>,
        index: usize,
    ) -> (r: LibraryScore)
        requires
            lib_ids_ok(self@, problem_books@),
            lib_fits(self@, problem_books@, remaining_days as int),
        ensures
            r@ == score_of(self@, problem_books@, remaining_days as int, index as int),
    {
        if remaining_days < self.sign_up_days {
            return LibraryScore::default();
        }
        assert(capacity(self@, remaining_days as int) == (remaining_days - self.sign_up_days)
            * self.books_per_day);
        let num_books_to_ship: usize = (remaining_days - self.sign_up_days) * self.books_per_day;
        let num_books: usize = if num_books_to_ship < self.books.len() {
            num_books_to_ship
        } else {
            self.books.len()
        };
        let mut possible_score: usize = 0;
        let mut i: usize = 0;
        while i < num_books
            invariant
                i <= num_books,
                num_books <= self@.books.len(),
                num_books == spec_min(
                    capacity(self@, remaining_days as int),
                    self@.books.len() as int,
                ),
                possible_score == prefix_value(self@.books, problem_books@, i as int),
                lib_ids_ok(self@, problem_books@),
                total_value(self@.books, problem_books@) <= usize::MAX,
            decreases num_books - i,
        {
            let b = self.books[i];
            proof {
                assert(self@.books[i as int] == b);
                assert(b < problem_books@.len());
                lemma_prefix_value_nonneg(self@.books, problem_books@, i as int);
                lemma_prefix_value_mono(
                    self@.books,
                    problem_books@,
                    i + 1,
                    self@.books.len() as int,
                );
            }
            let v = problem_books[b];
            possible_score = possible_score + v;
            i = i + 1;
        }
        let den: usize = 6 * self.sign_up_days + remaining_days;
        LibraryScore { index, num_books_to_ship, num: possible_score, den }
    }
}

} // verus!
