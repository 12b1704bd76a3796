//! The global guarantees of the greedy run, each proved once and for all
//! over the specification-level model that `Problem::solve` is proved to
//! implement exactly.

use vstd::prelude::*;

use crate::model::{
    best_score, best_score_from, committed, greedy_select, keeps, lib_fits, lib_ids_ok,
    lib_in_range, ordered_before, pool_ok, pool_without_books, score_of, sentinel_score,
    sorted_desc, spec_min, usable, without_books, LibModel,
};
use crate::model::{
    lemma_best_score_from_props, lemma_filter_subset, lemma_lib_fits_mono, lemma_without_books_wf,
};

verus! {

/// No book id occurs in both lists.
pub open spec fn books_disjoint(a: Seq<usize>, b: Seq<usize>) -> bool {
    forall|x: usize| a.contains(x) ==> !b.contains(x)
}

/// Capacity correctness: a library that can finish signing up in time is
/// scored with `num_books_to_ship == (remaining_days - sign_up_days) *
/// books_per_day`, and that number is never negative.
pub proof fn lemma_capacity_correctness(
    lib: LibModel,
    values: Seq<usize>,
    remaining_days: int,
    index: int,
)
    requires
        lib_in_range(lib),
        usable(lib, remaining_days),
    ensures
        score_of(lib, values, remaining_days, index).num_books_to_ship == (remaining_days
            - lib.sign_up_days) * lib.books_per_day,
        score_of(lib, values, remaining_days, index).num_books_to_ship >= 0,
{
    vstd::arithmetic::mul::lemma_mul_nonnegative(
        remaining_days - lib.sign_up_days,
        lib.books_per_day,
    );
}

proof fn lemma_best_score_all_sentinel(
    pool: Seq<LibModel>,
    values: Seq<usize>,
    remaining_days: int,
    i: int,
)
    requires
        forall|k: int| 0 <= k < pool.len() ==> !usable(#[trigger] pool[k], remaining_days),
    ensures
        best_score_from(pool, values, remaining_days, i, sentinel_score()) == sentinel_score(),
    decreases pool.len() - i,
{
    if 0 <= i && i < pool.len() {
        assert(score_of(pool[i], values, remaining_days, i) == sentinel_score());
        lemma_best_score_all_sentinel(pool, values, remaining_days, i + 1);
    }
}

/// The unusable sentinel never wins: when no candidate can finish signing up
/// within the remaining days, the run stops at once — nothing is chosen, and
/// the pool only loses the previously shipped books.
pub proof fn lemma_unusable_pool_selects_nothing(
    pool: Seq<LibModel>,
    values: Seq<usize>,
    remaining_days: int,
    rem: Seq<usize>,
)
    requires
        forall|i: int| 0 <= i < pool.len() ==> !usable(#[trigger] pool[i], remaining_days),
    ensures
        greedy_select(pool, values, remaining_days, rem).chosen == Seq::<LibModel>::empty(),
        greedy_select(pool, values, remaining_days, rem).pool == pool_without_books(pool, rem),
{
    let filtered = pool_without_books(pool, rem);
    assert forall|k: int| 0 <= k < filtered.len() implies !usable(
        #[trigger] filtered[k],
        remaining_days,
    ) by {
        assert(filtered[k] == without_books(pool[k], rem));
    }
    lemma_best_score_all_sentinel(filtered, values, remaining_days, 0);
}

/// Monotonic shrink: every committing round removes exactly one library from
/// the pool, so the chosen and leftover libraries together account for the
/// whole pool, and a run commits at most `pool.len()` rounds.
pub proof fn lemma_monotonic_shrink(
    pool: Seq<LibModel>,
    values: Seq<usize>,
    remaining_days: int,
    rem: Seq<usize>,
)
    ensures
        greedy_select(pool, values, remaining_days, rem).chosen.len() + greedy_select(
            pool,
            values,
            remaining_days,
            rem,
        ).pool.len() == pool.len(),
        greedy_select(pool, values, remaining_days, rem).chosen.len() <= pool.len(),
    decreases pool.len(),
{
    let filtered = pool_without_books(pool, rem);
    let best = best_score(filtered, values, remaining_days);
    if best.num > 0 && 0 <= best.index < filtered.len() {
        let winner = committed(filtered[best.index], best.num_books_to_ship);
        lemma_monotonic_shrink(
            filtered.remove(best.index),
            values,
            remaining_days - filtered[best.index].sign_up_days,
            winner.books,
        );
    }
}

proof fn lemma_without_books_subset(lib: LibModel, rem: Seq<usize>)
    ensures
        forall|x: usize| #[trigger]
            without_books(lib, rem).books.contains(x) ==> lib.books.contains(x) && !rem.contains(
                x,
            ),
{
    let f = without_books(lib, rem).books;
    lemma_filter_subset(lib.books, keeps(rem));
    assert forall|x: usize| #[trigger] f.contains(x) implies lib.books.contains(x)
        && !rem.contains(x) by {
        let i = choose|i: int| 0 <= i < f.len() && f[i] == x;
        Seq::lemma_filter_pred(lib.books, keeps(rem), i);
        assert(keeps(rem)(x));
    }
}

proof fn lemma_committed_subset(lib: LibModel, n: int)
    requires
        0 <= n,
    ensures
        forall|x: usize| #[trigger] committed(lib, n).books.contains(x) ==> lib.books.contains(x),
{
    let c = committed(lib, n).books;
    assert forall|x: usize| #[trigger] c.contains(x) implies lib.books.contains(x) by {
        let i = choose|i: int| 0 <= i < c.len() && c[i] == x;
        assert(lib.books[i] == x);
    }
}

proof fn lemma_pool_ok_filtered(
    pool: Seq<LibModel>,
    values: Seq<usize>,
    r: int,
    rem: Seq<usize>,
)
    requires
        pool_ok(pool, values, r),
    ensures
        pool_ok(pool_without_books(pool, rem), values, r),
{
    let f = pool_without_books(pool, rem);
    assert forall|i: int| 0 <= i < f.len() implies lib_in_range(#[trigger] f[i]) && lib_ids_ok(
        f[i],
        values,
    ) && lib_fits(f[i], values, r) by {
        lemma_without_books_wf(pool[i], rem, values, r);
    }
}

/// Every library the run chooses from `pool` ships only books that avoid
/// `xs`, provided every pool member already avoided `xs`: a book list only
/// ever shrinks on its way into the result.
proof fn lemma_greedy_avoids(
    pool: Seq<LibModel>,
    values: Seq<usize>,
    r: int,
    rem: Seq<usize>,
    xs: Seq<usize>,
)
    requires
        0 <= r,
        pool_ok(pool, values, r),
        forall|i: int| 0 <= i < pool.len() ==> books_disjoint((#[trigger] pool[i]).books, xs),
    ensures
        forall|k: int|
            0 <= k < greedy_select(pool, values, r, rem).chosen.len() ==> books_disjoint(
                (#[trigger] greedy_select(pool, values, r, rem).chosen[k]).books,
                xs,
            ),
    decreases pool.len(),
{
    let filtered = pool_without_books(pool, rem);
    lemma_pool_ok_filtered(pool, values, r, rem);
    assert forall|i: int| 0 <= i < filtered.len() implies books_disjoint(
        (#[trigger] filtered[i]).books,
        xs,
    ) by {
        lemma_without_books_subset(pool[i], rem);
        assert(filtered[i] == without_books(pool[i], rem));
    }
    let best = best_score(filtered, values, r);
    let g = greedy_select(pool, values, r, rem);
    if best.num > 0 && 0 <= best.index < filtered.len() {
        lemma_best_score_from_props(filtered, values, r, 0, sentinel_score());
        let widx = best.index;
        assert(usable(filtered[widx], r));
        vstd::arithmetic::mul::lemma_mul_nonnegative(
            r - filtered[widx].sign_up_days,
            filtered[widx].books_per_day,
        );
        let winner = committed(filtered[widx], best.num_books_to_ship);
        lemma_committed_subset(filtered[widx], best.num_books_to_ship);
        let pool2 = filtered.remove(widx);
        let r2 = r - filtered[widx].sign_up_days;
        assert forall|i: int| 0 <= i < pool2.len() implies lib_in_range(#[trigger] pool2[i])
            && lib_ids_ok(pool2[i], values) && lib_fits(pool2[i], values, r2) && books_disjoint(
            pool2[i].books,
            xs,
        ) by {
            if i < widx {
                assert(pool2[i] == filtered[i]);
            } else {
                assert(pool2[i] == filtered[i + 1]);
            }
            lemma_lib_fits_mono(pool2[i], values, r2, r);
        }
        lemma_greedy_avoids(pool2, values, r2, winner.books, xs);
        let rest = greedy_select(pool2, values, r2, winner.books);
        assert forall|k: int| 0 <= k < g.chosen.len() implies books_disjoint(
            (#[trigger] g.chosen[k]).books,
            xs,
        ) by {
            if k == 0 {
                assert(g.chosen[0] == winner);
            } else {
                assert(g.chosen[k] == rest.chosen[k - 1]);
            }
        }
    }
}

/// Every library the run chooses ships only books that survived the removal
/// of `rem` at the start of its first round.
proof fn lemma_chosen_avoid_removed(
    pool: Seq<LibModel>,
    values: Seq<usize>,
    r: int,
    rem: Seq<usize>,
)
    requires
        0 <= r,
        pool_ok(pool, values, r),
    ensures
        forall|k: int|
            0 <= k < greedy_select(pool, values, r, rem).chosen.len() ==> books_disjoint(
                (#[trigger] greedy_select(pool, values, r, rem).chosen[k]).books,
                rem,
            ),
{
    let filtered = pool_without_books(pool, rem);
    lemma_pool_ok_filtered(pool, values, r, rem);
    assert forall|i: int| 0 <= i < filtered.len() implies books_disjoint(
        (#[trigger] filtered[i]).books,
        rem,
    ) by {
        lemma_without_books_subset(pool[i], rem);
        assert(filtered[i] == without_books(pool[i], rem));
    }
    let best = best_score(filtered, values, r);
    let g = greedy_select(pool, values, r, rem);
    if best.num > 0 && 0 <= best.index < filtered.len() {
        lemma_best_score_from_props(filtered, values, r, 0, sentinel_score());
        let widx = best.index;
        assert(usable(filtered[widx], r));
        vstd::arithmetic::mul::lemma_mul_nonnegative(
            r - filtered[widx].sign_up_days,
            filtered[widx].books_per_day,
        );
        let winner = committed(filtered[widx], best.num_books_to_ship);
        lemma_committed_subset(filtered[widx], best.num_books_to_ship);
        let pool2 = filtered.remove(widx);
        let r2 = r - filtered[widx].sign_up_days;
        assert forall|i: int| 0 <= i < pool2.len() implies lib_in_range(#[trigger] pool2[i])
            && lib_ids_ok(pool2[i], values) && lib_fits(pool2[i], values, r2) && books_disjoint(
            pool2[i].books,
            rem,
        ) by {
            if i < widx {
                assert(pool2[i] == filtered[i]);
            } else {
                assert(pool2[i] == filtered[i + 1]);
            }
            lemma_lib_fits_mono(pool2[i], values, r2, r);
        }
        lemma_greedy_avoids(pool2, values, r2, winner.books, rem);
        let rest = greedy_select(pool2, values, r2, winner.books);
        assert forall|k: int| 0 <= k < g.chosen.len() implies books_disjoint(
            (#[trigger] g.chosen[k]).books,
            rem,
        ) by {
            if k == 0 {
                assert(g.chosen[0] == winner);
            } else {
                assert(g.chosen[k] == rest.chosen[k - 1]);
            }
        }
    }
}

/// No double-shipping: of any two libraries the run chooses, the one chosen
/// later ships no book the earlier one already shipped.
pub proof fn lemma_no_double_shipping(
    pool: Seq<LibModel>,
    values: Seq<usize>,
    remaining_days: int,
    rem: Seq<usize>,
)
    requires
        0 <= remaining_days,
        pool_ok(pool, values, remaining_days),
    ensures
        forall|a: int, b: int|
            0 <= a < b < greedy_select(pool, values, remaining_days, rem).chosen.len()
                ==> books_disjoint(
                (#[trigger] greedy_select(pool, values, remaining_days, rem).chosen[a]).books,
                (#[trigger] greedy_select(pool, values, remaining_days, rem).chosen[b]).books,
            ),
    decreases pool.len(),
{
    let r = remaining_days;
    let filtered = pool_without_books(pool, rem);
    lemma_pool_ok_filtered(pool, values, r, rem);
    let best = best_score(filtered, values, r);
    let g = greedy_select(pool, values, r, rem);
    if best.num > 0 && 0 <= best.index < filtered.len() {
        lemma_best_score_from_props(filtered, values, r, 0, sentinel_score());
        let widx = best.index;
        assert(usable(filtered[widx], r));
        vstd::arithmetic::mul::lemma_mul_nonnegative(
            r - filtered[widx].sign_up_days,
            filtered[widx].books_per_day,
        );
        let winner = committed(filtered[widx], best.num_books_to_ship);
        let pool2 = filtered.remove(widx);
        let r2 = r - filtered[widx].sign_up_days;
        assert forall|i: int| 0 <= i < pool2.len() implies lib_in_range(#[trigger] pool2[i])
            && lib_ids_ok(pool2[i], values) && lib_fits(pool2[i], values, r2) by {
            if i < widx {
                assert(pool2[i] == filtered[i]);
            } else {
                assert(pool2[i] == filtered[i + 1]);
            }
            lemma_lib_fits_mono(pool2[i], values, r2, r);
        }
        lemma_no_double_shipping(pool2, values, r2, winner.books);
        lemma_chosen_avoid_removed(pool2, values, r2, winner.books);
        let rest = greedy_select(pool2, values, r2, winner.books);
        assert forall|a: int, b: int| 0 <= a < b < g.chosen.len() implies books_disjoint(
            (#[trigger] g.chosen[a]).books,
            (#[trigger] g.chosen[b]).books,
        ) by {
            if a == 0 {
                assert(g.chosen[0] == winner);
                assert(g.chosen[b] == rest.chosen[b - 1]);
                assert(books_disjoint(rest.chosen[b - 1].books, winner.books));
                assert forall|x: usize| winner.books.contains(x) implies !g.chosen[b].books.contains(
                    x,
                ) by {
                    if g.chosen[b].books.contains(x) {
                        assert(!winner.books.contains(x));
                    }
                }
            } else {
                assert(g.chosen[a] == rest.chosen[a - 1]);
                assert(g.chosen[b] == rest.chosen[b - 1]);
            }
        }
    }
}

/// Truncation correctness: a committed library ships exactly
/// `min(num_books_to_ship, books held)` books, they are the prefix of its
/// shelf, the shelf order survives, and every shipped book is worth at least
/// as much as every book left behind.
pub proof fn lemma_truncation_correctness(lib: LibModel, n: int, values: Seq<usize>)
    requires
        0 <= n,
        sorted_desc(lib.books, values),
    ensures
        committed(lib, n).books.len() == spec_min(n, lib.books.len() as int),
        committed(lib, n).books == lib.books.take(spec_min(n, lib.books.len() as int)),
        sorted_desc(committed(lib, n).books, values),
        forall|i: int, j: int|
            0 <= i < committed(lib, n).books.len() && committed(lib, n).books.len() <= j
                < lib.books.len() ==> values[(#[trigger] committed(lib, n).books[i]) as int]
                >= values[(#[trigger] lib.books[j]) as int],
{
    let c = committed(lib, n).books;
    assert forall|i: int, j: int|
        0 <= i < c.len() && c.len() <= j < lib.books.len() implies values[(#[trigger] c[i]) as int]
        >= values[(#[trigger] lib.books[j]) as int] by {
        assert(c[i] == lib.books[i]);
        assert(ordered_before(values, lib.books[i], lib.books[j]));
    }
    assert forall|i: int, j: int| 0 <= i <= j < c.len() implies ordered_before(
        values,
        #[trigger] c[i],
        #[trigger] c[j],
    ) by {
        assert(c[i] == lib.books[i] && c[j] == lib.books[j]);
    }
}

/// Removing books from a shelf keeps the survivors in shelf order.
pub proof fn lemma_removal_keeps_shelf_order(
    books: Seq<usize>,
    values: Seq<usize>,
    pred: spec_fn(usize) -> bool,
)
    requires
        sorted_desc(books, values),
    ensures
        sorted_desc(books.filter(pred), values),
    decreases books.len(),
{
    reveal(Seq::filter);
    if books.len() > 0 {
        let dl = books.drop_last();
        assert(sorted_desc(dl, values));
        lemma_removal_keeps_shelf_order(dl, values, pred);
        lemma_filter_subset(dl, pred);
        let f = books.filter(pred);
        if pred(books.last()) {
            let fd = dl.filter(pred);
            assert(f == fd.push(books.last()));
            assert forall|i: int, j: int| 0 <= i <= j < f.len() implies ordered_before(
                values,
                #[trigger] f[i],
                #[trigger] f[j],
            ) by {
                if j < fd.len() {
                    assert(ordered_before(values, fd[i], fd[j]));
                } else if i < fd.len() {
                    assert(fd.contains(fd[i]));
                    let k = choose|k: int| 0 <= k < dl.len() && dl[k] == fd[i];
                    assert(ordered_before(values, books[k], books[books.len() - 1]));
                }
            }
        }
    }
}

/// Every library the run chooses, and every library left in the pool, keeps
/// its shelf order, so truncation always keeps the most valuable books.
pub proof fn lemma_chosen_keep_shelf_order(
    pool: Seq<LibModel>,
    values: Seq<usize>,
    remaining_days: int,
    rem: Seq<usize>,
)
    requires
        0 <= remaining_days,
        pool_ok(pool, values, remaining_days),
        forall|i: int|
            0 <= i < pool.len() ==> sorted_desc((#[trigger] pool[i]).books, values),
    ensures
        forall|k: int|
            0 <= k < greedy_select(pool, values, remaining_days, rem).chosen.len() ==> sorted_desc(
                (#[trigger] greedy_select(pool, values, remaining_days, rem).chosen[k]).books,
                values,
            ),
        forall|k: int|
            0 <= k < greedy_select(pool, values, remaining_days, rem).pool.len() ==> sorted_desc(
                (#[trigger] greedy_select(pool, values, remaining_days, rem).pool[k]).books,
                values,
            ),
    decreases pool.len(),
{
    let r = remaining_days;
    let filtered = pool_without_books(pool, rem);
    lemma_pool_ok_filtered(pool, values, r, rem);
    assert forall|i: int| 0 <= i < filtered.len() implies sorted_desc(
        (#[trigger] filtered[i]).books,
        values,
    ) by {
        assert(filtered[i] == without_books(pool[i], rem));
        lemma_removal_keeps_shelf_order(pool[i].books, values, keeps(rem));
    }
    let best = best_score(filtered, values, r);
    let g = greedy_select(pool, values, r, rem);
    if best.num > 0 && 0 <= best.index < filtered.len() {
        lemma_best_score_from_props(filtered, values, r, 0, sentinel_score());
        let widx = best.index;
        assert(usable(filtered[widx], r));
        vstd::arithmetic::mul::lemma_mul_nonnegative(
            r - filtered[widx].sign_up_days,
            filtered[widx].books_per_day,
        );
        let winner = committed(filtered[widx], best.num_books_to_ship);
        lemma_truncation_correctness(filtered[widx], best.num_books_to_ship, values);
        let pool2 = filtered.remove(widx);
        let r2 = r - filtered[widx].sign_up_days;
        assert forall|i: int| 0 <= i < pool2.len() implies lib_in_range(#[trigger] pool2[i])
            && lib_ids_ok(pool2[i], values) && lib_fits(pool2[i], values, r2) && sorted_desc(
            pool2[i].books,
            values,
        ) by {
            if i < widx {
                assert(pool2[i] == filtered[i]);
            } else {
                assert(pool2[i] == filtered[i + 1]);
            }
            lemma_lib_fits_mono(pool2[i], values, r2, r);
        }
        lemma_chosen_keep_shelf_order(pool2, values, r2, winner.books);
        let rest = greedy_select(pool2, values, r2, winner.books);
        assert forall|k: int| 0 <= k < g.chosen.len() implies sorted_desc(
            (#[trigger] g.chosen[k]).books,
            values,
        ) by {
            if k == 0 {
                assert(g.chosen[0] == winner);
            } else {
                assert(g.chosen[k] == rest.chosen[k - 1]);
            }
        }
    }
}

} // verus!
