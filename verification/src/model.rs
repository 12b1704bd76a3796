//! Mathematical model of the greedy selection: spec-level images of the data
//! types and a recursive definition of one whole selection run.

use vstd::prelude::*;

verus! {

/// Spec image of a library: stable identifier, held book ids in shelf order,
/// sign-up cost in days and daily shipping rate.
pub ghost struct LibModel {
    pub id: int,
    pub books: Seq<usize>,
    pub sign_up_days: int,
    pub books_per_day: int,
}

/// Spec image of one score record: the candidate's position in the pool, the
/// uncapped number of books it would ship, and its score as the exact
/// rational `num / den`.
pub ghost struct ScoreModel {
    pub index: int,
    pub num_books_to_ship: int,
    pub num: int,
    pub den: int,
}

/// Outcome of a whole selection run: the chosen libraries in sign-up order,
/// each with its truncated book list, and the libraries left in the pool.
pub ghost struct SelectionModel {
    pub chosen: Seq<LibModel>,
    pub pool: Seq<LibModel>,
}

pub open spec fn spec_min(a: int, b: int) -> int {
    if a <= b {
        a
    } else {
        b
    }
}

/// Sum of the values of `books[0], .., books[n - 1]`, looked up in `values`.
pub open spec fn prefix_value(books: Seq<usize>, values: Seq<usize>, n: int) -> int
    decreases n,
{
    if n <= 0 {
        0
    } else {
        prefix_value(books, values, n - 1) + values[books[n - 1] as int] as int
    }
}

/// Sum of the values of every book of the list.
pub open spec fn total_value(books: Seq<usize>, values: Seq<usize>) -> int {
    prefix_value(books, values, books.len() as int)
}

/// Every held book id indexes into the value table.
pub open spec fn lib_ids_ok(lib: LibModel, values: Seq<usize>) -> bool {
    forall|j: int| 0 <= j < lib.books.len() ==> (#[trigger] lib.books[j]) < values.len()
}

/// The library can finish signing up within the remaining days.
pub open spec fn usable(lib: LibModel, remaining_days: int) -> bool {
    lib.sign_up_days <= remaining_days
}

/// Books the library could ship once signed up: shipping days times rate.
pub open spec fn capacity(lib: LibModel, remaining_days: int) -> int {
    (remaining_days - lib.sign_up_days) * lib.books_per_day
}

/// The machine bounds under which one scoring round stays within `usize`.
pub open spec fn lib_fits(lib: LibModel, values: Seq<usize>, remaining_days: int) -> bool {
    &&& total_value(lib.books, values) <= usize::MAX
    &&& 6 * lib.sign_up_days + remaining_days <= usize::MAX
    &&& (usable(lib, remaining_days) ==> capacity(lib, remaining_days) <= usize::MAX)
}

/// Every pool member has in-range fields and book ids and fits the machine
/// bounds.
pub open spec fn pool_ok(pool: Seq<LibModel>, values: Seq<usize>, remaining_days: int) -> bool {
    forall|i: int|
        0 <= i < pool.len() ==> lib_in_range(#[trigger] pool[i]) && lib_ids_ok(pool[i], values)
            && lib_fits(pool[i], values, remaining_days)
}

/// The record returned for a library that cannot be signed up in time. Its
/// score is the rational zero, which never wins a strict comparison.
pub open spec fn sentinel_score() -> ScoreModel {
    ScoreModel { index: 0, num_books_to_ship: 0, num: 0, den: 1 }
}

/// Strict comparison of two scores as exact rationals, by cross-multiplying
/// the two nonnegative fractions. A record whose numerator is zero never
/// wins, so the sentinel, and a library whose shippable books are all of
/// value zero, is never selected.
pub open spec fn score_gt(a: ScoreModel, b: ScoreModel) -> bool {
    a.num * b.den > b.num * a.den
}

/// The score of one candidate: its uncapped shipping capacity, the summed
/// value of its first `min(capacity, held)` books (the book list is kept
/// sorted by descending value, so that prefix is the best choice), and the
/// normalizing denominator `6 * sign_up_days + remaining_days`.
pub open spec fn score_of(
    lib: LibModel,
    values: Seq<usize>,
    remaining_days: int,
    index: int,
) -> ScoreModel {
    if !usable(lib, remaining_days) {
        sentinel_score()
    } else {
        let cap = capacity(lib, remaining_days);
        ScoreModel {
            index: index,
            num_books_to_ship: cap,
            num: prefix_value(lib.books, values, spec_min(cap, lib.books.len() as int)),
            den: 6 * lib.sign_up_days + remaining_days,
        }
    }
}

/// The predicate a book id must pass to survive removal of `rem`.
pub open spec fn keeps(rem: Seq<usize>) -> spec_fn(usize) -> bool {
    |b: usize| !rem.contains(b)
}

/// One library after the ids of `rem` are removed from its held books.
pub open spec fn without_books(lib: LibModel, rem: Seq<usize>) -> LibModel {
    LibModel {
        id: lib.id,
        books: lib.books.filter(keeps(rem)),
        sign_up_days: lib.sign_up_days,
        books_per_day: lib.books_per_day,
    }
}

/// A whole pool after the ids of `rem` are removed from every member.
pub open spec fn pool_without_books(pool: Seq<LibModel>, rem: Seq<usize>) -> Seq<LibModel> {
    pool.map_values(|l: LibModel| without_books(l, rem))
}

/// First-seen maximum of the scores of `pool[i..]`, folded onto `best`: a
/// later candidate replaces the running best only by a strictly greater
/// score, so ties keep the earliest candidate.
pub open spec fn best_score_from(
    pool: Seq<LibModel>,
    values: Seq<usize>,
    remaining_days: int,
    i: int,
    best: ScoreModel,
) -> ScoreModel
    decreases pool.len() - i,
{
    if i < 0 || i >= pool.len() {
        best
    } else {
        let s = score_of(pool[i], values, remaining_days, i);
        best_score_from(
            pool,
            values,
            remaining_days,
            i + 1,
            if score_gt(s, best) {
                s
            } else {
                best
            },
        )
    }
}

/// The winning score of a full scan of the pool.
pub open spec fn best_score(pool: Seq<LibModel>, values: Seq<usize>, remaining_days: int) -> ScoreModel {
    best_score_from(pool, values, remaining_days, 0, sentinel_score())
}

/// A chosen library as it is committed: its book list cut to its first
/// `num_books_to_ship` entries if it holds more than that.
pub open spec fn committed(lib: LibModel, num_books_to_ship: int) -> LibModel {
    LibModel {
        id: lib.id,
        books: lib.books.take(spec_min(num_books_to_ship, lib.books.len() as int)),
        sign_up_days: lib.sign_up_days,
        books_per_day: lib.books_per_day,
    }
}

/// One whole greedy run. Each round removes the books shipped by the most
/// recently chosen library from every candidate, scores every candidate, and
/// either commits the winner — dropping it from the pool, cutting its book
/// list to its shipping capacity and paying its sign-up days — or stops as
/// soon as no candidate scores above the sentinel.
pub open spec fn greedy_select(
    pool: Seq<LibModel>,
    values: Seq<usize>,
    remaining_days: int,
    rem: Seq<usize>,
) -> SelectionModel
    decreases pool.len(),
{
    let filtered = pool_without_books(pool, rem);
    let best = best_score(filtered, values, remaining_days);
    if best.num > 0 && 0 <= best.index < filtered.len() {
        let winner = committed(filtered[best.index], best.num_books_to_ship);
        let rest = greedy_select(
            filtered.remove(best.index),
            values,
            remaining_days - filtered[best.index].sign_up_days,
            winner.books,
        );
        SelectionModel { chosen: seq![winner] + rest.chosen, pool: rest.pool }
    } else {
        SelectionModel { chosen: Seq::empty(), pool: filtered }
    }
}

/// `a` may stand no later than `b` on a shelf: higher value first, a tie
/// broken by the higher id first.
pub open spec fn ordered_before(values: Seq<usize>, a: usize, b: usize) -> bool {
    ||| values[a as int] > values[b as int]
    ||| (values[a as int] == values[b as int] && a >= b)
}

/// The shelf order: descending book value, ties by descending id.
pub open spec fn sorted_desc(books: Seq<usize>, values: Seq<usize>) -> bool {
    forall|i: int, j: int|
        0 <= i <= j < books.len() ==> ordered_before(
            values,
            #[trigger] books[i],
            #[trigger] books[j],
        )
}

/// Book ids, sign-up cost, rate and list length all lie in the `usize` range.
pub open spec fn lib_in_range(lib: LibModel) -> bool {
    &&& 0 <= lib.id <= usize::MAX
    &&& 0 <= lib.sign_up_days <= usize::MAX
    &&& 0 <= lib.books_per_day <= usize::MAX
    &&& lib.books.len() <= usize::MAX
}

pub proof fn lemma_prefix_value_nonneg(books: Seq<usize>, values: Seq<usize>, n: int)
    requires
        n <= books.len(),
        forall|j: int| 0 <= j < books.len() ==> (#[trigger] books[j]) < values.len(),
    ensures
        0 <= prefix_value(books, values, n),
    decreases n,
{
    if n > 0 {
        lemma_prefix_value_nonneg(books, values, n - 1);
    }
}

pub proof fn lemma_prefix_value_mono(books: Seq<usize>, values: Seq<usize>, m: int, n: int)
    requires
        0 <= m <= n <= books.len(),
        forall|j: int| 0 <= j < books.len() ==> (#[trigger] books[j]) < values.len(),
    ensures
        prefix_value(books, values, m) <= prefix_value(books, values, n),
    decreases n,
{
    if m < n {
        lemma_prefix_value_mono(books, values, m, n - 1);
    }
}

pub proof fn lemma_prefix_value_agree(s: Seq<usize>, t: Seq<usize>, values: Seq<usize>, n: int)
    requires
        n <= s.len(),
        n <= t.len(),
        forall|j: int| 0 <= j < n ==> s[j] == t[j],
    ensures
        prefix_value(s, values, n) == prefix_value(t, values, n),
    decreases n,
{
    if n > 0 {
        lemma_prefix_value_agree(s, t, values, n - 1);
    }
}

pub proof fn lemma_total_value_push(s: Seq<usize>, x: usize, values: Seq<usize>)
    ensures
        total_value(s.push(x), values) == total_value(s, values) + values[x as int] as int,
{
    lemma_prefix_value_agree(s.push(x), s, values, s.len() as int);
    assert(s.push(x)[s.len() as int] == x);
    assert(total_value(s.push(x), values) == prefix_value(s.push(x), values, s.len() as int)
        + values[x as int] as int);
}

pub proof fn lemma_total_value_add(a: Seq<usize>, b: Seq<usize>, values: Seq<usize>)
    ensures
        total_value(a + b, values) == total_value(a, values) + total_value(b, values),
    decreases b.len(),
{
    if b.len() == 0 {
        assert(a + b =~= a);
        assert(total_value(b, values) == 0);
    } else {
        let bd = b.drop_last();
        lemma_total_value_add(a, bd, values);
        assert(a + bd =~= (a + b).drop_last());
        lemma_total_value_push(a + bd, b.last(), values);
        assert((a + bd).push(b.last()) =~= a + b);
        lemma_total_value_push(bd, b.last(), values);
        assert(bd.push(b.last()) =~= b);
    }
}

pub proof fn lemma_filter_subset<A>(s: Seq<A>, pred: spec_fn(A) -> bool)
    ensures
        forall|x: A| #[trigger] s.filter(pred).contains(x) ==> s.contains(x),
    decreases s.len(),
{
    reveal(Seq::filter);
    if s.len() > 0 {
        let dl = s.drop_last();
        lemma_filter_subset(dl, pred);
        assert forall|x: A| s.filter(pred).contains(x) implies s.contains(x) by {
            if x == s.last() {
                assert(s[s.len() - 1] == x);
            } else {
                if dl.filter(pred).contains(x) {
                    let i = choose|i: int| 0 <= i < dl.len() && dl[i] == x;
                    assert(s[i] == x);
                } else {
                    if pred(s.last()) {
                        let f = dl.filter(pred);
                        let j = choose|j: int|
                            0 <= j < f.push(s.last()).len() && f.push(s.last())[j] == x;
                        assert(j < f.len());
                        assert(f.contains(x));
                    }
                }
            }
        }
    }
}

pub proof fn lemma_total_value_filter(s: Seq<usize>, values: Seq<usize>, pred: spec_fn(usize) -> bool)
    requires
        forall|j: int| 0 <= j < s.len() ==> (#[trigger] s[j]) < values.len(),
    ensures
        total_value(s.filter(pred), values) <= total_value(s, values),
        0 <= total_value(s.filter(pred), values),
    decreases s.len(),
{
    reveal(Seq::filter);
    if s.len() == 0 {
    } else {
        let dl = s.drop_last();
        lemma_total_value_filter(dl, values, pred);
        lemma_total_value_push(dl, s.last(), values);
        assert(dl.push(s.last()) =~= s);
        assert(s[s.len() - 1] < values.len());
        if pred(s.last()) {
            lemma_total_value_push(dl.filter(pred), s.last(), values);
        }
    }
}

/// Removing books from a library keeps its ids in range and its bounds.
pub proof fn lemma_without_books_wf(lib: LibModel, rem: Seq<usize>, values: Seq<usize>, r: int)
    requires
        lib_in_range(lib),
        lib_ids_ok(lib, values),
        lib_fits(lib, values, r),
    ensures
        lib_in_range(without_books(lib, rem)),
        lib_ids_ok(without_books(lib, rem), values),
        lib_fits(without_books(lib, rem), values, r),
{
    let w = without_books(lib, rem);
    lemma_filter_subset(lib.books, keeps(rem));
    Seq::lemma_filter_len(lib.books, keeps(rem));
    assert forall|j: int| 0 <= j < w.books.len() implies (#[trigger] w.books[j])
        < values.len() by {
        assert(w.books.contains(w.books[j]));
        let i = choose|i: int| 0 <= i < lib.books.len() && lib.books[i] == w.books[j];
    }
    lemma_total_value_filter(lib.books, values, keeps(rem));
}

/// Cutting a library's book list to a prefix keeps its ids in range and its
/// bounds.
pub proof fn lemma_committed_wf(lib: LibModel, n: int, values: Seq<usize>, r: int)
    requires
        0 <= n,
        lib_in_range(lib),
        lib_ids_ok(lib, values),
        lib_fits(lib, values, r),
    ensures
        lib_in_range(committed(lib, n)),
        lib_ids_ok(committed(lib, n), values),
        lib_fits(committed(lib, n), values, r),
{
    let k = spec_min(n, lib.books.len() as int);
    let c = committed(lib, n);
    assert(c.books =~= lib.books.take(k));
    lemma_prefix_value_agree(c.books, lib.books, values, k);
    lemma_prefix_value_mono(lib.books, values, k, lib.books.len() as int);
}

/// A smaller day budget keeps the machine bounds.
pub proof fn lemma_lib_fits_mono(lib: LibModel, values: Seq<usize>, r1: int, r2: int)
    requires
        lib_in_range(lib),
        lib_fits(lib, values, r2),
        0 <= r1 <= r2,
    ensures
        lib_fits(lib, values, r1),
{
    if usable(lib, r1) {
        vstd::arithmetic::mul::lemma_mul_inequality(
            r1 - lib.sign_up_days,
            r2 - lib.sign_up_days,
            lib.books_per_day,
        );
    }
}

pub proof fn lemma_filter_push<A>(s: Seq<A>, x: A, pred: spec_fn(A) -> bool)
    ensures
        s.push(x).filter(pred) == if pred(x) {
            s.filter(pred).push(x)
        } else {
            s.filter(pred)
        },
{
    reveal(Seq::filter);
    assert(s.push(x).drop_last() =~= s);
    assert(s.push(x).last() == x);
}

pub proof fn lemma_to_multiset_insert<A>(s: Seq<A>, i: int, x: A)
    requires
        0 <= i <= s.len(),
    ensures
        s.insert(i, x).to_multiset() =~= s.to_multiset().insert(x),
{
    broadcast use vstd::seq_lib::group_to_multiset_ensures;
    broadcast use vstd::multiset::group_multiset_axioms;

    let t = s.insert(i, x);
    assert(t.remove(i) =~= s);
    assert(t[i] == x);
    assert(s.to_multiset() =~= t.to_multiset().remove(x));
    assert(t.contains(x));
    assert(t.to_multiset().count(x) > 0);
    assert forall|y: A| t.to_multiset().count(y) == #[trigger] s.to_multiset().insert(x).count(y)
        by {
        if y == x {
        }
    }
}

/// What a full scan's fold yields: a nonnegative score, and, when positive,
/// the exact score of the candidate it names.
pub proof fn lemma_best_score_from_props(
    pool: Seq<LibModel>,
    values: Seq<usize>,
    r: int,
    i: int,
    best: ScoreModel,
)
    requires
        0 <= i <= pool.len(),
        0 <= r,
        forall|j: int|
            0 <= j < pool.len() ==> lib_in_range(#[trigger] pool[j]) && lib_ids_ok(
                pool[j],
                values,
            ),
        best.num >= 0,
        best.den >= 0,
        best.num > 0 ==> 0 <= best.index < pool.len() && best == score_of(
            pool[best.index],
            values,
            r,
            best.index,
        ),
    ensures
        ({
            let b = best_score_from(pool, values, r, i, best);
            &&& b.num >= 0
            &&& b.den >= 0
            &&& (b.num > 0 ==> 0 <= b.index < pool.len() && b == score_of(
                pool[b.index],
                values,
                r,
                b.index,
            ))
            &&& ((forall|k: int|
                i <= k < pool.len() ==> score_of(#[trigger] pool[k], values, r, k).num <= 0)
                ==> b == best)
        }),
    decreases pool.len() - i,
{
    if 0 <= i && i < pool.len() {
        let s = score_of(pool[i], values, r, i);
        if usable(pool[i], r) {
            let cap = capacity(pool[i], r);
            lemma_prefix_value_nonneg(
                pool[i].books,
                values,
                spec_min(cap, pool[i].books.len() as int),
            );
        }
        let next = if score_gt(s, best) {
            s
        } else {
            best
        };
        if score_gt(s, best) {
            assert(s.num > 0) by {
                if s.num <= 0 {
                    assert(s.num * best.den <= 0 && best.num * s.den >= 0) by (nonlinear_arith)
                        requires
                            s.num <= 0,
                            best.den >= 0,
                            best.num >= 0,
                            s.den >= 0,
                    ;
                }
            }
        }
        lemma_best_score_from_props(pool, values, r, i + 1, next);
    }
}

} // verus!
