//! A whole problem instance and the greedy selector that solves it.

use vstd::prelude::*;

use crate::library::{copy_ids, Library, LibraryScore};
use crate::model::{
    best_score, best_score_from, committed, greedy_select, lib_fits, lib_ids_ok, lib_in_range,
    pool_ok, pool_without_books, score_gt, score_of, sentinel_score, usable, without_books,
    LibModel,
};
use crate::model::{
    lemma_best_score_from_props, lemma_committed_wf, lemma_lib_fits_mono, lemma_without_books_wf,
};
use crate::model::{capacity, lemma_prefix_value_mono, prefix_value, sorted_desc, total_value};

verus! {

/// A problem instance: the shared book value table, the day budget, and the
/// pool of not-yet-chosen libraries.
#[derive(Debug)]
pub struct Problem {
    pub books: Vec<usize>,
    pub days: usize,
    pub libraries: Vec<Library>,
}

/// The spec image of a library pool.
pub open spec fn pool_view(libs: Seq<Library>) -> Seq<LibModel> {
    libs.map_values(|l: Library| l@)
}

/// Strict comparison of two score records as exact rationals, by
/// cross-multiplying in 128-bit arithmetic so nothing overflows.
fn score_gt_exec(a: &LibraryScore, b: &LibraryScore) -> (r: bool)
    ensures
        r == score_gt(a@, b@),
{
    proof {
        let m = usize::MAX as int;
        assert(m <= u64::MAX as int);
        assert((a.num as int) * (b.den as int) <= m * m && (b.num as int) * (a.den as int) <= m
            * m) by (nonlinear_arith)
            requires
                0 <= a.num as int <= m,
                0 <= b.den as int <= m,
                0 <= b.num as int <= m,
                0 <= a.den as int <= m,
        ;
        assert(m * m < u128::MAX as int) by (nonlinear_arith)
            requires
                0 <= m <= u64::MAX as int,
        ;
    }
    let x: u128 = (a.num as u128) * (b.den as u128);
    let y: u128 = (b.num as u128) * (a.den as u128);
    x > y
}

impl Problem {
    /// One full scan of the pool: first remove the books named in
    /// `books_to_remove` from every candidate, then score every candidate,
    /// keeping the first-seen maximum under the strict comparison. The
    /// sentinel comes back when no candidate can usefully sign up.
    pub fn best_library_score(
        &mut self,
        remaining_days: usize,
        books_to_remove: &Vec<usize>,
    ) -> (r: LibraryScore)
        requires
            pool_ok(pool_view(old(self).libraries@), old(self).books@, remaining_days as int),
        ensures
            final(self).books@ == old(self).books@,
            final(self).days == old(self).days,
            pool_view(final(self).libraries@) == pool_without_books(
                pool_view(old(self).libraries@),
                books_to_remove@,
            ),
            r@ == best_score(
                pool_without_books(pool_view(old(self).libraries@), books_to_remove@),
                old(self).books@,
                remaining_days as int,
            ),
            pool_ok(pool_view(final(self).libraries@), old(self).books@, remaining_days as int),
    {
        let ghost pool0 = pool_view(self.libraries@);
        let ghost books0 = self.books@;
        let ghost rd = remaining_days as int;
        let ghost filtered = pool_without_books(pool0, books_to_remove@);
        let mut best = LibraryScore::default();
        let mut i: usize = 0;
        while i < self.libraries.len()
            invariant
                i <= pool0.len(),
                self.libraries@.len() == pool0.len(),
                self.books@ == books0,
                self.days == old(self).days,
                rd == remaining_days as int,
                pool_ok(pool0, books0, rd),
                filtered == pool_without_books(pool0, books_to_remove@),
                forall|j: int| 0 <= j < i ==> (#[trigger] self.libraries@[j])@ == filtered[j],
                forall|j: int|
                    i <= j < pool0.len() ==> (#[trigger] self.libraries@[j])@ == pool0[j],
                best_score(filtered, books0, rd) == best_score_from(
                    filtered,
                    books0,
                    rd,
                    i as int,
                    best@,
                ),
            decreases pool0.len() - i,
        {
            let ghost libs_before = self.libraries@;
            let mut lib = self.libraries.remove(i);
            proof {
                assert(lib@ == pool0[i as int]);
                lemma_without_books_wf(pool0[i as int], books_to_remove@, books0, rd);
                assert(filtered[i as int] == without_books(pool0[i as int], books_to_remove@));
            }
            lib.remove_books(books_to_remove);
            let score = lib.calculate_score(remaining_days, &self.books, i);
            self.libraries.insert(i, lib);
            proof {
                assert(self.libraries@ =~= libs_before.update(i as int, lib));
                assert(score@ == score_of(filtered[i as int], books0, rd, i as int));
            }
            if score_gt_exec(&score, &best) {
                best = score;
            }
            i = i + 1;
        }
        proof {
            assert(pool_view(self.libraries@) =~= filtered);
            assert forall|j: int| 0 <= j < filtered.len() implies lib_in_range(
                #[trigger] filtered[j],
            ) && lib_ids_ok(filtered[j], books0) && lib_fits(filtered[j], books0, rd) by {
                lemma_without_books_wf(pool0[j], books_to_remove@, books0, rd);
            }
        }
        best
    }

    /// Run the whole greedy selection. The result is exactly the chosen
    /// sequence of the specification-level run `greedy_select`, in sign-up
    /// order, each library already cut to the books it will ship; the pool
    /// keeps the never-chosen libraries, with their shipped books removed.
    pub fn solve(&mut self) -> (r: Vec<Library>)
        requires
            pool_ok(pool_view(old(self).libraries@), old(self).books@, old(self).days as int),
        ensures
            final(self).books@ == old(self).books@,
            final(self).days == old(self).days,
            ({
                let g = greedy_select(
                    pool_view(old(self).libraries@),
                    old(self).books@,
                    old(self).days as int,
                    Seq::<usize>::empty(),
                );
                pool_view(r@) == g.chosen && pool_view(final(self).libraries@) == g.pool
            }),
    {
        let ghost books0 = self.books@;
        let ghost days0 = self.days;
        let ghost g0 = greedy_select(
            pool_view(self.libraries@),
            books0,
            days0 as int,
            Seq::<usize>::empty(),
        );
        let mut remaining_days: usize = self.days;
        let mut libraries_to_choose: Vec<Library> = Vec::new();
        let mut books_to_remove: Vec<usize> = Vec::new();
        loop
            invariant_except_break
                self.books@ == books0,
                self.days == days0,
                remaining_days <= days0,
                pool_ok(pool_view(self.libraries@), books0, remaining_days as int),
                ({
                    let g = greedy_select(
                        pool_view(self.libraries@),
                        books0,
                        remaining_days as int,
                        books_to_remove@,
                    );
                    g0.chosen == pool_view(libraries_to_choose@) + g.chosen && g0.pool == g.pool
                }),
            ensures
                self.books@ == books0,
                self.days == days0,
                g0.chosen == pool_view(libraries_to_choose@),
                g0.pool == pool_view(self.libraries@),
            decreases self.libraries@.len(),
        {
            let ghost pool_before = pool_view(self.libraries@);
            let ghost rd = remaining_days as int;
            let ghost g_here = greedy_select(pool_before, books0, rd, books_to_remove@);
            let best = self.best_library_score(remaining_days, &books_to_remove);
            let ghost filtered = pool_without_books(pool_before, books_to_remove@);
            proof {
                lemma_best_score_from_props(filtered, books0, rd, 0, sentinel_score());
            }
            if best.num > 0 {
                let ghost widx = best@.index;
                proof {
                    assert(best@ == score_of(filtered[widx], books0, rd, widx));
                    assert(usable(filtered[widx], rd));
                    assert(self.libraries@.len() == filtered.len());
                }
                let ghost libs_mid = self.libraries@;
                let mut popped = self.libraries.remove(best.index);
                let available_books = popped.books.len();
                let num_books_to_ship = best.num_books_to_ship;
                proof {
                    assert(popped@ == filtered[widx]);
                }
                if available_books > num_books_to_ship {
                    popped.books.truncate(num_books_to_ship);
                    proof {
                        assert(popped@.books =~= filtered[widx].books.take(
                            num_books_to_ship as int,
                        ));
                    }
                }
                proof {
                    assert(popped@ == committed(filtered[widx], best@.num_books_to_ship)) by {
                        assert(popped@.books =~= committed(
                            filtered[widx],
                            best@.num_books_to_ship,
                        ).books);
                    }
                }
                remaining_days = remaining_days - popped.sign_up_days;
                books_to_remove = copy_ids(&popped.books);
                libraries_to_choose.push(popped);
                proof {
                    let winner = committed(filtered[widx], best@.num_books_to_ship);
                    let pool_next = pool_view(self.libraries@);
                    assert(pool_next =~= filtered.remove(widx));
                    let g_next = greedy_select(
                        pool_next,
                        books0,
                        remaining_days as int,
                        books_to_remove@,
                    );
                    assert(g_here.chosen == seq![winner] + g_next.chosen && g_here.pool
                        == g_next.pool);
                    assert(pool_view(libraries_to_choose@) =~= pool_view(
                        libraries_to_choose@.drop_last(),
                    ).push(winner));
                    assert(pool_view(libraries_to_choose@.drop_last()) + (seq![winner]
                        + g_next.chosen) =~= pool_view(libraries_to_choose@) + g_next.chosen);
                    // The machine bounds survive into the next round.
                    lemma_committed_wf(filtered[widx], best@.num_books_to_ship, books0, rd);
                    assert forall|j: int| 0 <= j < pool_next.len() implies lib_in_range(
                        #[trigger] pool_next[j],
                    ) && lib_ids_ok(pool_next[j], books0) && lib_fits(
                        pool_next[j],
                        books0,
                        remaining_days as int,
                    ) by {
                        lemma_lib_fits_mono(pool_next[j], books0, remaining_days as int, rd);
                    }
                }
            } else {
                proof {
                    assert(g_here.chosen =~= Seq::<LibModel>::empty());
                    assert(g0.chosen =~= pool_view(libraries_to_choose@));
                    assert(g0.pool == pool_view(self.libraries@));
                }
                break;
            }
        }
        libraries_to_choose
    }
}

/// Why a set of token rows cannot be turned into a problem.
#[derive(Clone, Copy, Debug, PartialEq, Eq, Structural)]
pub enum BuildError {
    /// The header row, or the value row, is missing, or the header holds
    /// fewer than its three counters.
    MissingHeader,
    /// Fewer rows than the two each declared library needs.
    MissingLines,
    /// A library description row holds fewer than its three counters.
    ShortLibraryLine,
    /// A held book id does not index into the value row.
    BookIdOutOfRange,
    /// A library breaks the machine bounds of the selector's arithmetic.
    TooLarge,
}

/// The spec image of the token rows.
pub open spec fn rows_view(rows: Seq<Vec<usize>>) -> Seq<Seq<usize>> {
    rows.map_values(|v: Vec<usize>| v@)
}

/// The header row and the value row are present, with the three counters.
pub open spec fn header_ok(rs: Seq<Seq<usize>>) -> bool {
    rs.len() >= 2 && rs[0].len() >= 3
}

pub open spec fn spec_num_libraries(rs: Seq<Seq<usize>>) -> int {
    rs[0][1] as int
}

pub open spec fn spec_days(rs: Seq<Seq<usize>>) -> int {
    rs[0][2] as int
}

/// Two rows per declared library follow the header and the value row.
pub open spec fn rows_complete(rs: Seq<Seq<usize>>) -> bool {
    rs.len() >= 2 + 2 * spec_num_libraries(rs)
}

pub open spec fn desc_row(rs: Seq<Seq<usize>>, i: int) -> Seq<usize> {
    rs[2 + 2 * i]
}

pub open spec fn books_row(rs: Seq<Seq<usize>>, i: int) -> Seq<usize> {
    rs[3 + 2 * i]
}

/// Every library description row has its three counters.
pub open spec fn descs_ok(rs: Seq<Seq<usize>>) -> bool {
    forall|i: int| 0 <= i < spec_num_libraries(rs) ==> #[trigger] desc_row(rs, i).len() >= 3
}

/// The library a row pair describes, before its books are sorted.
pub open spec fn row_lib(rs: Seq<Seq<usize>>, i: int) -> LibModel {
    LibModel {
        id: i,
        books: books_row(rs, i),
        sign_up_days: desc_row(rs, i)[1] as int,
        books_per_day: desc_row(rs, i)[2] as int,
    }
}

/// Every held book id indexes into the value row.
pub open spec fn row_ids_ok(rs: Seq<Seq<usize>>) -> bool {
    forall|i: int| 0 <= i < spec_num_libraries(rs) ==> lib_ids_ok(#[trigger] row_lib(rs, i), rs[1])
}

/// Every described library fits the machine bounds at the full day budget.
pub open spec fn row_bounds_ok(rs: Seq<Seq<usize>>) -> bool {
    forall|i: int|
        0 <= i < spec_num_libraries(rs) ==> lib_fits(#[trigger] row_lib(rs, i), rs[1], spec_days(rs))
}

impl Problem {
    /// Build a problem from whitespace-split integer rows: a header row
    /// `[num_books, num_libraries, days]`, the book value row, then, per
    /// library, one row `[num_books_held, sign_up_days, books_per_day]` and
    /// one row of held book ids. Each error names the first phase that could
    /// not be completed; a built problem meets the selector's requirements,
    /// with every shelf sorted by descending value.
    pub fn from_rows(rows: &Vec<Vec<usize>>) -> (r: Result<Problem, BuildError>)
        ensures
            ({
                let rs = rows_view(rows@);
                &&& ((r matches Err(BuildError::MissingHeader)) <==> !header_ok(rs))
                &&& ((r matches Err(BuildError::MissingLines)) <==> header_ok(rs)
                    && !rows_complete(rs))
                &&& ((r matches Err(BuildError::ShortLibraryLine)) <==> header_ok(rs)
                    && rows_complete(rs) && !descs_ok(rs))
                &&& ((r matches Err(BuildError::BookIdOutOfRange)) <==> header_ok(rs)
                    && rows_complete(rs) && descs_ok(rs) && !row_ids_ok(rs))
                &&& ((r matches Err(BuildError::TooLarge)) <==> header_ok(rs) && rows_complete(rs)
                    && descs_ok(rs) && row_ids_ok(rs) && !row_bounds_ok(rs))
                &&& ((r is Ok) <==> header_ok(rs) && rows_complete(rs) && descs_ok(rs)
                    && row_ids_ok(rs) && row_bounds_ok(rs))
                &&& (r matches Ok(p) ==> {
                    &&& p.days as int == spec_days(rs)
                    &&& p.books@ == rs[1]
                    &&& p.libraries@.len() == spec_num_libraries(rs)
                    &&& pool_ok(pool_view(p.libraries@), p.books@, p.days as int)
                    &&& (forall|i: int|
                        0 <= i < spec_num_libraries(rs) ==> {
                            let l = #[trigger] pool_view(p.libraries@)[i];
                            &&& l.id == i
                            &&& l.sign_up_days == row_lib(rs, i).sign_up_days
                            &&& l.books_per_day == row_lib(rs, i).books_per_day
                            &&& l.books.to_multiset() == books_row(rs, i).to_multiset()
                            &&& l.books.len() == books_row(rs, i).len()
                            &&& sorted_desc(l.books, rs[1])
                        })
                })
            }),
    {
        let ghost rs = rows_view(rows@);
        if rows.len() < 2 {
            return Err(BuildError::MissingHeader);
        }
        if rows[0].len() < 3 {
            proof {
                assert(rs[0] == rows@[0]@);
            }
            return Err(BuildError::MissingHeader);
        }
        let num_libraries: usize = rows[0][1];
        let days: usize = rows[0][2];
        proof {
            assert(rs[0] == rows@[0]@);
            assert(header_ok(rs));
            assert(spec_num_libraries(rs) == num_libraries as int);
            assert(spec_days(rs) == days as int);
        }
        let needed: u128 = 2 + 2 * (num_libraries as u128);
        if (rows.len() as u128) < needed {
            return Err(BuildError::MissingLines);
        }
        let total_rows: usize = rows.len();
        proof {
            assert(rows_complete(rs));
            assert(rows@.len() == total_rows as int);
        }
        // Every library description row must hold its three counters.
        let mut i: usize = 0;
        while i < num_libraries
            invariant
                i <= num_libraries,
                rs == rows_view(rows@),
                rows@.len() <= usize::MAX,
                header_ok(rs),
                rows_complete(rs),
                num_libraries as int == spec_num_libraries(rs),
                days as int == spec_days(rs),
                forall|k: int| 0 <= k < i ==> #[trigger] desc_row(rs, k).len() >= 3,
            decreases num_libraries - i,
        {
            let d: usize = 2 + 2 * i;
            proof {
                assert(desc_row(rs, i as int) == rows@[d as int]@);
            }
            if rows[d].len() < 3 {
                return Err(BuildError::ShortLibraryLine);
            }
            i = i + 1;
        }
        assert(descs_ok(rs));
        // Every held book id must index into the value row.
        let mut i: usize = 0;
        while i < num_libraries
            invariant
                i <= num_libraries,
                rs == rows_view(rows@),
                rows@.len() <= usize::MAX,
                header_ok(rs),
                rows_complete(rs),
                descs_ok(rs),
                num_libraries as int == spec_num_libraries(rs),
                days as int == spec_days(rs),
                forall|k: int| 0 <= k < i ==> lib_ids_ok(#[trigger] row_lib(rs, k), rs[1]),
            decreases num_libraries - i,
        {
            let b: usize = 3 + 2 * i;
            proof {
                assert(books_row(rs, i as int) == rows@[b as int]@);
                assert(rs[1] == rows@[1]@);
            }
            let mut j: usize = 0;
            while j < rows[b].len()
                invariant
                    j <= rows@[b as int]@.len(),
                    i < num_libraries,
                    b as int == 3 + 2 * (i as int),
                    b < rows@.len(),
                    rs == rows_view(rows@),
                    header_ok(rs),
                    rows_complete(rs),
                    descs_ok(rs),
                    num_libraries as int == spec_num_libraries(rs),
                    days as int == spec_days(rs),
                    books_row(rs, i as int) == rows@[b as int]@,
                    rs[1] == rows@[1]@,
                    forall|k: int| 0 <= k < i ==> lib_ids_ok(#[trigger] row_lib(rs, k), rs[1]),
                    forall|k: int|
                        0 <= k < j ==> (#[trigger] rows@[b as int]@[k]) < rows@[1]@.len(),
                decreases rows@[b as int]@.len() - j,
            {
                let bid: usize = rows[b][j];
                if bid >= rows[1].len() {
                    proof {
                        assert(row_lib(rs, i as int).books[j as int] == bid);
                        assert(!lib_ids_ok(row_lib(rs, i as int), rs[1]));
                    }
                    return Err(BuildError::BookIdOutOfRange);
                }
                j = j + 1;
            }
            proof {
                assert(lib_ids_ok(row_lib(rs, i as int), rs[1]));
            }
            i = i + 1;
        }
        assert(row_ids_ok(rs));
        // Every library must fit the machine bounds at the full day budget.
        let mut i: usize = 0;
        while i < num_libraries
            invariant
                i <= num_libraries,
                rs == rows_view(rows@),
                rows@.len() <= usize::MAX,
                header_ok(rs),
                rows_complete(rs),
                descs_ok(rs),
                row_ids_ok(rs),
                num_libraries as int == spec_num_libraries(rs),
                days as int == spec_days(rs),
                forall|k: int|
                    0 <= k < i ==> lib_fits(#[trigger] row_lib(rs, k), rs[1], spec_days(rs)),
            decreases num_libraries - i,
        {
            let d: usize = 2 + 2 * i;
            let b: usize = 3 + 2 * i;
            proof {
                assert(desc_row(rs, i as int) == rows@[d as int]@);
                assert(books_row(rs, i as int) == rows@[b as int]@);
                assert(rs[1] == rows@[1]@);
            }
            let sign_up: usize = rows[d][1];
            let rate: usize = rows[d][2];
            let den128: u128 = 6 * (sign_up as u128) + (days as u128);
            if den128 > (usize::MAX as u128) {
                proof {
                    assert(!lib_fits(row_lib(rs, i as int), rs[1], spec_days(rs)));
                }
                return Err(BuildError::TooLarge);
            }
            if sign_up <= days {
                proof {
                    let m = usize::MAX as int;
                    assert(m <= u64::MAX as int);
                    assert(((days - sign_up) as int) * (rate as int) <= m * m) by (nonlinear_arith)
                        requires
                            0 <= (days - sign_up) as int <= m,
                            0 <= rate as int <= m,
                    ;
                    assert(m * m < u128::MAX as int) by (nonlinear_arith)
                        requires
                            0 <= m <= u64::MAX as int,
                    ;
                }
                let cap128: u128 = ((days - sign_up) as u128) * (rate as u128);
                if cap128 > (usize::MAX as u128) {
                    proof {
                        assert(capacity(row_lib(rs, i as int), spec_days(rs)) == cap128 as int);
                        assert(!lib_fits(row_lib(rs, i as int), rs[1], spec_days(rs)));
                    }
                    return Err(BuildError::TooLarge);
                }
            }
            let mut sum: usize = 0;
            let mut j: usize = 0;
            while j < rows[b].len()
                invariant
                    j <= rows@[b as int]@.len(),
                    i < num_libraries,
                    d as int == 2 + 2 * (i as int),
                    b as int == 3 + 2 * (i as int),
                    b < rows@.len(),
                    rs == rows_view(rows@),
                    header_ok(rs),
                    rows_complete(rs),
                    descs_ok(rs),
                    row_ids_ok(rs),
                    num_libraries as int == spec_num_libraries(rs),
                    days as int == spec_days(rs),
                    desc_row(rs, i as int) == rows@[d as int]@,
                    books_row(rs, i as int) == rows@[b as int]@,
                    rs[1] == rows@[1]@,
                    sign_up as int == row_lib(rs, i as int).sign_up_days,
                    rate as int == row_lib(rs, i as int).books_per_day,
                    6 * (sign_up as int) + (days as int) <= usize::MAX,
                    sign_up <= days ==> capacity(row_lib(rs, i as int), spec_days(rs))
                        <= usize::MAX,
                    sum as int == prefix_value(rows@[b as int]@, rs[1], j as int),
                    forall|k: int|
                        0 <= k < i ==> lib_fits(#[trigger] row_lib(rs, k), rs[1], spec_days(rs)),
                decreases rows@[b as int]@.len() - j,
            {
                let bid: usize = rows[b][j];
                proof {
                    assert(lib_ids_ok(row_lib(rs, i as int), rs[1]));
                    assert(row_lib(rs, i as int).books[j as int] == bid);
                    assert(bid < rows@[1]@.len());
                }
                let v: usize = rows[1][bid];
                if v > usize::MAX - sum {
                    proof {
                        let bks = books_row(rs, i as int);
                        lemma_prefix_value_mono(bks, rs[1], j as int + 1, bks.len() as int);
                        assert(total_value(bks, rs[1]) > usize::MAX);
                        assert(!lib_fits(row_lib(rs, i as int), rs[1], spec_days(rs)));
                    }
                    return Err(BuildError::TooLarge);
                }
                sum = sum + v;
                j = j + 1;
            }
            proof {
                assert(total_value(books_row(rs, i as int), rs[1]) == sum as int);
                assert(lib_fits(row_lib(rs, i as int), rs[1], spec_days(rs)));
            }
            i = i + 1;
        }
        assert(row_bounds_ok(rs));
        // Build the pool, sorting each shelf once at construction.
        let mut libraries: Vec<Library> = Vec::new();
        let mut i: usize = 0;
        while i < num_libraries
            invariant
                i <= num_libraries,
                libraries@.len() == i as int,
                rs == rows_view(rows@),
                rows@.len() <= usize::MAX,
                header_ok(rs),
                rows_complete(rs),
                descs_ok(rs),
                row_ids_ok(rs),
                row_bounds_ok(rs),
                num_libraries as int == spec_num_libraries(rs),
                days as int == spec_days(rs),
                forall|k: int|
                    0 <= k < i ==> {
                        let l = (#[trigger] libraries@[k])@;
                        &&& l.id == k
                        &&& l.sign_up_days == row_lib(rs, k).sign_up_days
                        &&& l.books_per_day == row_lib(rs, k).books_per_day
                        &&& l.books.to_multiset() == books_row(rs, k).to_multiset()
                        &&& l.books.len() == books_row(rs, k).len()
                        &&& l.books.len() <= usize::MAX
                        &&& sorted_desc(l.books, rs[1])
                        &&& lib_ids_ok(l, rs[1])
                        &&& total_value(l.books, rs[1]) == total_value(books_row(rs, k), rs[1])
                    },
            decreases num_libraries - i,
        {
            let d: usize = 2 + 2 * i;
            let b: usize = 3 + 2 * i;
            proof {
                assert(desc_row(rs, i as int) == rows@[d as int]@);
                assert(books_row(rs, i as int) == rows@[b as int]@);
                assert(rs[1] == rows@[1]@);
                assert(lib_ids_ok(row_lib(rs, i as int), rs[1]));
            }
            let held = copy_ids(&rows[b]);
            let lib = Library::new(i, held, rows[d][1], rows[d][2], &rows[1]);
            let shelf_len: usize = lib.books.len();
            proof {
                assert(lib@.books.len() == shelf_len as int);
            }
            libraries.push(lib);
            i = i + 1;
        }
        let books = copy_ids(&rows[1]);
        let p = Problem { books, days, libraries };
        proof {
            assert(rs[1] == rows@[1]@);
            assert(p.books@ == rs[1]);
            let pv = pool_view(p.libraries@);
            assert forall|k: int| 0 <= k < pv.len() implies crate::model::lib_in_range(
                #[trigger] pv[k],
            ) && lib_ids_ok(pv[k], p.books@) && lib_fits(pv[k], p.books@, p.days as int) by {
                assert(pv[k] == p.libraries@[k]@);
                let l = p.libraries@[k]@;
                assert(lib_fits(row_lib(rs, k), rs[1], spec_days(rs)));
                assert(l.books.len() == books_row(rs, k).len());
                assert(total_value(l.books, rs[1]) == total_value(books_row(rs, k), rs[1]));
                assert(l.sign_up_days == row_lib(rs, k).sign_up_days);
                assert(l.books_per_day == row_lib(rs, k).books_per_day);
                assert(usable(l, p.days as int) ==> capacity(l, p.days as int) == capacity(
                    row_lib(rs, k),
                    spec_days(rs),
                ));
            }
        }
        Ok(p)
    }
}

} // verus!
