//! The parsed bank-statement row as the library sees it, and sums over rows.

use crate::money::{abs, MONEY_LIMIT};
use vstd::prelude::*;

verus! {

/// One parsed statement row: what aggregation and categorization read of it.
/// Amounts are in paise.
#[derive(Clone, Debug)]
pub struct TxnRow {
    pub row_number: u32,
    /// ISO `YYYY-MM-DD` when the parser got it right.
    pub txn_date: String,
    pub debit: Option<i128>,
    pub credit: Option<i128>,
    pub category: Option<String>,
    pub category_rule_id: Option<String>,
}

pub open spec fn amount_or_zero(a: Option<i128>) -> int {
    match a {
        Some(v) => v as int,
        None => 0,
    }
}

pub open spec fn debit_of(r: TxnRow) -> int {
    amount_or_zero(r.debit)
}

pub open spec fn credit_of(r: TxnRow) -> int {
    amount_or_zero(r.credit)
}

/// The category a row is filed under; rows without one count as
/// `Uncategorized`.
pub open spec fn row_label(r: TxnRow) -> Seq<char> {
    match r.category {
        Some(c) => c@,
        None => "Uncategorized"@,
    }
}

/// Size of a row's amounts: every per-row contribution is bounded by it.
pub open spec fn row_weight(r: TxnRow) -> nat {
    abs(debit_of(r)) + abs(credit_of(r))
}

pub open spec fn sum_by(rows: Seq<TxnRow>, f: spec_fn(TxnRow) -> int) -> int
    decreases rows.len(),
{
    if rows.len() == 0 {
        0
    } else {
        sum_by(rows.drop_last(), f) + f(rows.last())
    }
}

pub open spec fn weight_fn() -> spec_fn(TxnRow) -> int {
    |r: TxnRow| row_weight(r) as int
}

/// Total size of all amounts in the rows.
pub open spec fn abs_total(rows: Seq<TxnRow>) -> int {
    sum_by(rows, weight_fn())
}

/// Rows whose amounts together stay within what a two-decimal `Decimal`
/// holds, and whose count fits the `u32` counters.
pub open spec fn rows_in_range(rows: Seq<TxnRow>) -> bool {
    abs_total(rows) <= MONEY_LIMIT && rows.len() <= u32::MAX && forall|k: int|
        0 <= k < rows.len() ==> (#[trigger] rows[k]).debit != Some(i128::MIN) && rows[k].credit
            != Some(i128::MIN)
}

pub proof fn lemma_sum_by_step(rows: Seq<TxnRow>, i: int, f: spec_fn(TxnRow) -> int)
    requires
        0 <= i < rows.len(),
    ensures
        sum_by(rows.subrange(0, i + 1), f) == sum_by(rows.subrange(0, i), f) + f(rows[i]),
{
    assert(rows.subrange(0, i + 1).drop_last() =~= rows.subrange(0, i));
}

pub proof fn lemma_sum_by_whole(rows: Seq<TxnRow>, f: spec_fn(TxnRow) -> int)
    ensures
        sum_by(rows.subrange(0, rows.len() as int), f) == sum_by(rows, f),
{
    assert(rows.subrange(0, rows.len() as int) =~= rows);
}

pub proof fn lemma_sum_by_bounded(rows: Seq<TxnRow>, f: spec_fn(TxnRow) -> int)
    requires
        forall|r: TxnRow| abs(#[trigger] f(r)) <= row_weight(r),
    ensures
        abs(sum_by(rows, f)) <= abs_total(rows),
    decreases rows.len(),
{
    if rows.len() > 0 {
        lemma_sum_by_bounded(rows.drop_last(), f);
        let r = rows.last();
        assert(abs(f(r)) <= row_weight(r));
        assert(weight_fn()(r) == row_weight(r) as int);
    }
}

pub proof fn lemma_abs_total_nonneg(rows: Seq<TxnRow>)
    ensures
        abs_total(rows) >= 0,
    decreases rows.len(),
{
    if rows.len() > 0 {
        lemma_abs_total_nonneg(rows.drop_last());
    }
}

pub proof fn lemma_abs_total_prefix(rows: Seq<TxnRow>, i: int)
    requires
        0 <= i <= rows.len(),
    ensures
        abs_total(rows.subrange(0, i)) <= abs_total(rows),
        abs_total(rows.subrange(0, i)) >= 0,
    decreases rows.len() - i,
{
    lemma_abs_total_nonneg(rows.subrange(0, i));
    if i < rows.len() {
        lemma_abs_total_prefix(rows.drop_last(), i);
        assert(rows.drop_last().subrange(0, i) =~= rows.subrange(0, i));
        assert(weight_fn()(rows.last()) >= 0);
    } else {
        assert(rows.subrange(0, i) =~= rows);
    }
}

/// A sum of 0/1 values is between 0 and the number of rows.
pub proof fn lemma_sum_by_count(rows: Seq<TxnRow>, f: spec_fn(TxnRow) -> int)
    requires
        forall|r: TxnRow| 0 <= #[trigger] f(r) <= 1,
    ensures
        0 <= sum_by(rows, f) <= rows.len(),
    decreases rows.len(),
{
    if rows.len() > 0 {
        lemma_sum_by_count(rows.drop_last(), f);
        assert(0 <= f(rows.last()) <= 1);
    }
}

pub fn amount_value(a: &Option<i128>) -> (r: i128)
    ensures
        r == amount_or_zero(*a),
{
    match a {
        Some(v) => *v,
        None => 0,
    }
}

/// The row's category text, `Uncategorized` when it has none.
pub fn label_of(r: &TxnRow) -> (s: &str)
    ensures
        s@ == row_label(*r),
{
    match &r.category {
        Some(c) => c.as_str(),
        None => "Uncategorized",
    }
}

/// Whether `rows` meet what the aggregations need (see [`rows_in_range`]).
pub fn rows_summarisable(rows: &Vec<TxnRow>) -> (r: bool)
    ensures
        r == rows_in_range(rows@),
{
    let n = rows.len();
    if n > 0xffff_ffff {
        return false;
    }
    let mut total: u128 = 0;
    let mut i: usize = 0;
    assert(rows@.subrange(0, 0) =~= Seq::<TxnRow>::empty());
    while i < n
        invariant
            0 <= i <= n,
            n == rows@.len(),
            n <= u32::MAX,
            total == abs_total(rows@.subrange(0, i as int)),
            total <= MONEY_LIMIT,
            forall|k: int|
                0 <= k < i ==> (#[trigger] rows@[k]).debit != Some(i128::MIN) && rows@[k].credit
                    != Some(i128::MIN),
        decreases n - i,
    {
        let r = &rows[i];
        proof {
            lemma_sum_by_step(rows@, i as int, weight_fn());
            lemma_abs_total_prefix(rows@, i + 1);
        }
        let d = amount_value(&r.debit);
        let c = amount_value(&r.credit);
        if d == i128::MIN || c == i128::MIN {
            return false;
        }
        let dm: u128 = if d < 0 {
            (-d) as u128
        } else {
            d as u128
        };
        let cm: u128 = if c < 0 {
            (-c) as u128
        } else {
            c as u128
        };
        let room: u128 = MONEY_LIMIT - total;
        if dm > room || cm > room - dm {
            return false;
        }
        total = total + dm + cm;
        i = i + 1;
    }
    proof {
        lemma_sum_by_whole(rows@, weight_fn());
    }
    true
}

// ---------------------------------------------------------------------------
// Sums over categories
// ---------------------------------------------------------------------------

/// `Σ_j sum_by(rows, g(cs[j]))`.
pub open spec fn sum_over_categories(
    cs: Seq<Seq<char>>,
    rows: Seq<TxnRow>,
    g: spec_fn(Seq<char>) -> spec_fn(TxnRow) -> int,
) -> int
    decreases cs.len(),
{
    if cs.len() == 0 {
        0
    } else {
        sum_over_categories(cs.drop_last(), rows, g) + sum_by(rows, g(cs.last()))
    }
}

/// `Σ_j g(cs[j])(r)`.
pub open spec fn point_over_categories(
    cs: Seq<Seq<char>>,
    r: TxnRow,
    g: spec_fn(Seq<char>) -> spec_fn(TxnRow) -> int,
) -> int
    decreases cs.len(),
{
    if cs.len() == 0 {
        0
    } else {
        point_over_categories(cs.drop_last(), r, g) + g(cs.last())(r)
    }
}

/// `g(c)` is `f` restricted to the rows filed under `c`.
pub open spec fn restricts(g: spec_fn(Seq<char>) -> spec_fn(TxnRow) -> int, f: spec_fn(TxnRow) -> int) -> bool {
    forall|c: Seq<char>, r: TxnRow|
        #[trigger] g(c)(r) == if row_label(r) == c {
            f(r)
        } else {
            0
        }
}

proof fn lemma_sum_over_step(
    cs: Seq<Seq<char>>,
    rows: Seq<TxnRow>,
    g: spec_fn(Seq<char>) -> spec_fn(TxnRow) -> int,
)
    requires
        rows.len() > 0,
    ensures
        sum_over_categories(cs, rows, g) == sum_over_categories(cs, rows.drop_last(), g)
            + point_over_categories(cs, rows.last(), g),
    decreases cs.len(),
{
    if cs.len() > 0 {
        lemma_sum_over_step(cs.drop_last(), rows, g);
    }
}

proof fn lemma_point_absent(cs: Seq<Seq<char>>, r: TxnRow, g: spec_fn(Seq<char>) -> spec_fn(TxnRow) -> int, f: spec_fn(TxnRow) -> int)
    requires
        restricts(g, f),
        forall|j: int| 0 <= j < cs.len() ==> #[trigger] cs[j] != row_label(r),
    ensures
        point_over_categories(cs, r, g) == 0,
    decreases cs.len(),
{
    if cs.len() > 0 {
        let p = cs.drop_last();
        assert forall|j: int| 0 <= j < p.len() implies #[trigger] p[j] != row_label(r) by {
            assert(p[j] == cs[j]);
        }
        lemma_point_absent(p, r, g, f);
        assert(cs[cs.len() - 1] != row_label(r));
        assert(g(cs.last())(r) == 0);
    }
}

proof fn lemma_point_once(cs: Seq<Seq<char>>, r: TxnRow, g: spec_fn(Seq<char>) -> spec_fn(TxnRow) -> int, f: spec_fn(TxnRow) -> int)
    requires
        restricts(g, f),
        cs.no_duplicates(),
        cs.contains(row_label(r)),
    ensures
        point_over_categories(cs, r, g) == f(r),
    decreases cs.len(),
{
    let p = cs.drop_last();
    let n = cs.len() - 1;
    assert(g(cs.last())(r) == if row_label(r) == cs.last() {
        f(r)
    } else {
        0
    });
    if cs.last() == row_label(r) {
        assert forall|j: int| 0 <= j < p.len() implies #[trigger] p[j] != row_label(r) by {
            assert(p[j] == cs[j]);
            assert(j != n);
        }
        lemma_point_absent(p, r, g, f);
    } else {
        let k = choose|k: int| 0 <= k < cs.len() && cs[k] == row_label(r);
        assert(k != n);
        assert(p[k] == cs[k]);
        assert(p.contains(row_label(r)));
        assert(p.no_duplicates()) by {
            assert forall|a: int, b: int| 0 <= a < p.len() && 0 <= b < p.len() && a != b implies p[a]
                != p[b] by {
                assert(p[a] == cs[a]);
                assert(p[b] == cs[b]);
            }
        }
        lemma_point_once(p, r, g, f);
    }
}

/// Summing a restricted quantity over a list of distinct categories that
/// covers every row's category gives the quantity's total over the rows.
pub proof fn lemma_partition(cs: Seq<Seq<char>>, rows: Seq<TxnRow>, g: spec_fn(Seq<char>) -> spec_fn(TxnRow) -> int, f: spec_fn(TxnRow) -> int)
    requires
        restricts(g, f),
        cs.no_duplicates(),
        forall|t: int| 0 <= t < rows.len() ==> cs.contains(row_label(#[trigger] rows[t])),
    ensures
        sum_over_categories(cs, rows, g) == sum_by(rows, f),
    decreases rows.len(),
{
    if rows.len() == 0 {
        lemma_sum_over_empty(cs, rows, g);
    } else {
        let p = rows.drop_last();
        assert forall|t: int| 0 <= t < p.len() implies cs.contains(row_label(#[trigger] p[t])) by {
            assert(p[t] == rows[t]);
        }
        lemma_partition(cs, p, g, f);
        lemma_sum_over_step(cs, rows, g);
        assert(cs.contains(row_label(rows[rows.len() - 1])));
        lemma_point_once(cs, rows.last(), g, f);
    }
}

proof fn lemma_sum_over_empty(cs: Seq<Seq<char>>, rows: Seq<TxnRow>, g: spec_fn(Seq<char>) -> spec_fn(TxnRow) -> int)
    requires
        rows.len() == 0,
    ensures
        sum_over_categories(cs, rows, g) == 0,
    decreases cs.len(),
{
    if cs.len() > 0 {
        lemma_sum_over_empty(cs.drop_last(), rows, g);
    }
}

} // verus!
