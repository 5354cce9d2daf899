//! Investment inputs: manually entered asset positions (mutual funds,
//! stocks, deposits, PPF, NPS, ...) and their aggregate snapshot.

use crate::loans::{as_decimal, notes_exec, stored_notes, target_id};
use crate::money::{
    abs, cents_text, format_cents, format_quotient, magnitude, pow10, quotient_fits, quotient_text, parse_amount, parse_amount_result,
    read_stored_amount, stored_amount, MONEY_LIMIT,
};
use crate::sorting::{lemma_same_elements, sort_by_rank, sorted_by_rank, Ranked};
use crate::stamps::{hex_text, now_rfc3339, random_id};
use crate::sums::{
    abs_fn, lemma_sum_seq_abs, lemma_sum_seq_abs_prefix, lemma_sum_seq_step, lemma_sum_seq_whole,
    sum_seq,
};
use crate::text::{
    lemma_text_less_negative_transitive,
    lemma_text_less_irreflexive, lemma_text_less_total, lemma_text_less_transitive, opt_view,
    str_eq, str_less, string_of, text_less, trim, trim_seq,
};
use vstd::prelude::*;

verus! {

pub struct InvestmentsDoc {
    pub assets: Vec<InvestmentAsset>,
}

pub struct InvestmentAsset {
    pub id: String,
    /// A suggested asset type or a custom label.
    pub asset_type: String,
    pub asset_name: String,
    /// Two-decimal text.
    pub invested_amount: String,
    pub current_value: String,
    pub last_updated_at: String,
    pub notes: Option<String>,
}

/// What the UI sends to create an asset (no `id`) or edit one.
pub struct UpsertInvestmentSpec {
    pub id: Option<String>,
    pub asset_type: String,
    pub asset_name: String,
    pub invested_amount: String,
    pub current_value: String,
    pub notes: Option<String>,
}

pub struct InvestmentsSummary {
    pub asset_count: u32,
    pub total_invested: String,
    pub total_current_value: String,
    pub unrealized_gain_loss: String,
    /// Signed two-decimal percent; empty when nothing is invested.
    pub return_pct: String,
    /// By asset type, largest current value first.
    pub allocation: Vec<AllocationSlice>,
}

pub struct AllocationSlice {
    pub asset_type: String,
    pub current_value: String,
    /// Share of the total current value, percent.
    pub share_pct: String,
    pub asset_count: u32,
}

// ---------------------------------------------------------------------------
// Summary
// ---------------------------------------------------------------------------

pub open spec fn asset_invested(a: InvestmentAsset) -> int {
    stored_amount(a.invested_amount@)->0
}

pub open spec fn asset_current(a: InvestmentAsset) -> int {
    stored_amount(a.current_value@)->0
}

/// Both stored amounts read as decimals in whole paise.
pub open spec fn asset_readable(a: InvestmentAsset) -> bool {
    stored_amount(a.invested_amount@).is_some() && stored_amount(a.current_value@).is_some()
}

pub open spec fn invested_fn() -> spec_fn(InvestmentAsset) -> int {
    |a: InvestmentAsset| asset_invested(a)
}

pub open spec fn current_fn() -> spec_fn(InvestmentAsset) -> int {
    |a: InvestmentAsset| asset_current(a)
}

pub open spec fn type_current_fn(t: Seq<char>) -> spec_fn(InvestmentAsset) -> int {
    |a: InvestmentAsset|
        if a.asset_type@ == t {
            asset_current(a)
        } else {
            0int
        }
}

pub open spec fn type_count_fn(t: Seq<char>) -> spec_fn(InvestmentAsset) -> int {
    |a: InvestmentAsset|
        if a.asset_type@ == t {
            1int
        } else {
            0int
        }
}

/// Current value held in assets of type `t`.
pub open spec fn type_current(assets: Seq<InvestmentAsset>, t: Seq<char>) -> int {
    sum_seq(assets, type_current_fn(t))
}

/// Number of assets of type `t`.
pub open spec fn type_count(assets: Seq<InvestmentAsset>, t: Seq<char>) -> int {
    sum_seq(assets, type_count_fn(t))
}

/// Assets whose amounts can be totalled: each readable, the totals within
/// what a `Decimal` holds, the count within the `u32` counters.
pub open spec fn assets_totals_in_range(assets: Seq<InvestmentAsset>) -> bool {
    &&& forall|i: int| 0 <= i < assets.len() ==> asset_readable(#[trigger] assets[i])
    &&& sum_seq(assets, abs_fn(invested_fn())) <= MONEY_LIMIT
    &&& sum_seq(assets, abs_fn(current_fn())) <= MONEY_LIMIT
    &&& assets.len() <= u32::MAX
}

/// The gain fits a `Decimal` at two places, and with a positive invested
/// total, `gain × 100 / invested` stays below the largest `Decimal` (where
/// the return percentage would overflow).
pub open spec fn return_fits(assets: Seq<InvestmentAsset>) -> bool {
    let inv = sum_seq(assets, invested_fn());
    let gain = sum_seq(assets, current_fn()) - inv;
    &&& abs(gain) <= MONEY_LIMIT
    &&& inv > 0 ==> quotient_fits(gain, 0, inv, 2)
}

/// With a positive current total, each type's `current × 100 / total` stays
/// below the largest `Decimal` (where its share would overflow).
pub open spec fn shares_fit(assets: Seq<InvestmentAsset>) -> bool {
    let total = sum_seq(assets, current_fn());
    total > 0 ==> forall|k: int|
        0 <= k < assets.len() ==> quotient_fits(
            type_current(assets, (#[trigger] assets[k]).asset_type@),
            0,
            total,
            2,
        )
}

/// Assets the summary can be made of: the totals in range, and the return
/// and every share computable without overflow.
pub open spec fn assets_in_range(assets: Seq<InvestmentAsset>) -> bool {
    &&& assets_totals_in_range(assets)
    &&& return_fits(assets)
    &&& shares_fit(assets)
}

pub open spec fn has_type(assets: Seq<InvestmentAsset>, t: Seq<char>) -> bool {
    exists|k: int| 0 <= k < assets.len() && (#[trigger] assets[k]).asset_type@ == t
}

/// Running totals of one asset type.
pub struct TypeAcc {
    pub asset_type: String,
    pub current: i128,
    pub count: u32,
}

#[verifier::opaque]
pub open spec fn type_entry_ok(assets: Seq<InvestmentAsset>, a: TypeAcc) -> bool {
    &&& has_type(assets, a.asset_type@)
    &&& a.current == type_current(assets, a.asset_type@)
    &&& a.count == type_count(assets, a.asset_type@)
}

pub open spec fn lists_type(accs: Seq<TypeAcc>, t: Seq<char>) -> bool {
    exists|j: int| 0 <= j < accs.len() && (#[trigger] accs[j]).asset_type@ == t
}

pub open spec fn groups_types(assets: Seq<InvestmentAsset>, accs: Seq<TypeAcc>) -> bool {
    &&& forall|j: int, k: int|
        0 <= j < accs.len() && 0 <= k < accs.len() && j != k ==> (#[trigger] accs[j]).asset_type@
            != (#[trigger] accs[k]).asset_type@
    &&& forall|t: int| 0 <= t < assets.len() ==> lists_type(accs, (#[trigger] assets[t]).asset_type@)
    &&& forall|j: int| 0 <= j < accs.len() ==> type_entry_ok(assets, #[trigger] accs[j])
}

proof fn lemma_sum_seq_zero(s: Seq<InvestmentAsset>, f: spec_fn(InvestmentAsset) -> int)
    requires
        forall|k: int| 0 <= k < s.len() ==> f(#[trigger] s[k]) == 0,
    ensures
        sum_seq(s, f) == 0,
    decreases s.len(),
{
    if s.len() > 0 {
        let p = s.drop_last();
        assert forall|k: int| 0 <= k < p.len() implies f(#[trigger] p[k]) == 0 by {
            assert(p[k] == s[k]);
        }
        lemma_sum_seq_zero(p, f);
        assert(f(s[s.len() - 1]) == 0);
    }
}

proof fn lemma_count_bounded(s: Seq<InvestmentAsset>, t: Seq<char>)
    ensures
        0 <= type_count(s, t) <= s.len(),
    decreases s.len(),
{
    if s.len() > 0 {
        lemma_count_bounded(s.drop_last(), t);
    }
}

proof fn lemma_type_current_bounded(s: Seq<InvestmentAsset>, t: Seq<char>)
    ensures
        abs(type_current(s, t)) <= sum_seq(s, abs_fn(current_fn())),
    decreases s.len(),
{
    if s.len() > 0 {
        lemma_type_current_bounded(s.drop_last(), t);
        assert(abs_fn(current_fn())(s.last()) == abs(asset_current(s.last())));
    }
}

fn stored_value(s: &String) -> (r: i128)
    requires
        stored_amount(s@).is_some(),
    ensures
        r == stored_amount(s@)->0,
        abs(r as int) <= MONEY_LIMIT * 100,
{
    match read_stored_amount(s.as_str()) {
        Some(v) => v,
        None => 0,
    }
}

fn find_type(accs: &Vec<TypeAcc>, t: &str) -> (r: Option<usize>)
    ensures
        match r {
            Some(j) => j < accs@.len() && accs@[j as int].asset_type@ == t@,
            None => forall|j: int| 0 <= j < accs@.len() ==> accs@[j].asset_type@ != t@,
        },
{
    let n = accs.len();
    let mut j: usize = 0;
    while j < n
        invariant
            0 <= j <= n,
            n == accs@.len(),
            forall|k: int| 0 <= k < j ==> accs@[k].asset_type@ != t@,
        decreases n - j,
    {
        if str_eq(accs[j].asset_type.as_str(), t) {
            return Some(j);
        }
        j = j + 1;
    }
    None
}

fn accumulate_types(assets: &Vec<InvestmentAsset>) -> (accs: Vec<TypeAcc>)
    requires
        assets_totals_in_range(assets@),
    ensures
        groups_types(assets@, accs@),
{
    let mut accs: Vec<TypeAcc> = Vec::new();
    let n = assets.len();
    let mut i: usize = 0;
    while i < n
        invariant
            0 <= i <= n,
            n == assets@.len(),
            assets_totals_in_range(assets@),
            groups_types(assets@.subrange(0, i as int), accs@),
        decreases n - i,
    {
        proof {
            reveal(type_entry_ok);
        }
        let a = &assets[i];
        proof {
            assert(asset_readable(assets@[i as int]));
        }
        let cur = stored_value(&a.current_value);
        let t = a.asset_type.as_str();
        let ghost prev = assets@.subrange(0, i as int);
        let ghost next = assets@.subrange(0, i + 1);
        let ghost old_accs = accs@;
        proof {
            assert(next[i as int] == assets@[i as int]);
            assert forall|k: int| 0 <= k < i implies next[k] == #[trigger] prev[k] by {}
            lemma_type_current_bounded(next, t@);
            lemma_sum_seq_abs_prefix(assets@, i + 1, current_fn());
            lemma_count_bounded(next, t@);
            lemma_sum_seq_step(assets@, i as int, type_current_fn(t@));
            lemma_sum_seq_step(assets@, i as int, type_count_fn(t@));
            assert forall|j: int|
                0 <= j < old_accs.len() && old_accs[j].asset_type@ != t@ implies {
                let x = #[trigger] old_accs[j];
                &&& type_current(next, x.asset_type@) == type_current(prev, x.asset_type@)
                &&& type_count(next, x.asset_type@) == type_count(prev, x.asset_type@)
            } by {
                let tt = old_accs[j].asset_type@;
                lemma_sum_seq_step(assets@, i as int, type_current_fn(tt));
                lemma_sum_seq_step(assets@, i as int, type_count_fn(tt));
            }
        }
        match find_type(&accs, t) {
            Some(j) => {
                let old = &accs[j];
                let updated = TypeAcc {
                    asset_type: old.asset_type.clone(),
                    current: old.current + cur,
                    count: old.count + 1,
                };
                accs.set(j, updated);
                proof {
                    assert forall|k: int| 0 <= k < next.len() implies lists_type(
                        accs@,
                        (#[trigger] next[k]).asset_type@,
                    ) by {
                        if k < i {
                            assert(lists_type(old_accs, prev[k].asset_type@));
                            let jj = choose|jj: int|
                                0 <= jj < old_accs.len() && (#[trigger] old_accs[jj]).asset_type@
                                    == prev[k].asset_type@;
                            assert(accs@[jj].asset_type@ == old_accs[jj].asset_type@);
                        } else {
                            assert(accs@[j as int].asset_type@ == next[k].asset_type@);
                        }
                    }
                    assert forall|k: int| 0 <= k < accs@.len() implies has_type(
                        next,
                        (#[trigger] accs@[k]).asset_type@,
                    ) by {
                        assert(accs@[k].asset_type@ == old_accs[k].asset_type@);
                        assert(type_entry_ok(prev, old_accs[k]));
                        let tt = choose|tt: int|
                            0 <= tt < prev.len() && (#[trigger] prev[tt]).asset_type@
                                == old_accs[k].asset_type@;
                        assert(next[tt] == prev[tt]);
                    }
                }
            },
            None => {
                proof {
                    assert forall|k: int| 0 <= k < prev.len() implies #[trigger] type_count_fn(t@)(
                        prev[k],
                    ) == 0 by {
                        if prev[k].asset_type@ == t@ {
                            assert(lists_type(old_accs, prev[k].asset_type@));
                        }
                    }
                    assert forall|k: int| 0 <= k < prev.len() implies #[trigger] type_current_fn(
                        t@,
                    )(prev[k]) == 0 by {
                        assert(type_count_fn(t@)(prev[k]) == 0);
                    }
                    lemma_sum_seq_zero(prev, type_count_fn(t@));
                    lemma_sum_seq_zero(prev, type_current_fn(t@));
                }
                accs.push(TypeAcc { asset_type: string_of(t), current: cur, count: 1 });
                proof {
                    let nj = old_accs.len() as int;
                    assert(accs@[nj].asset_type@ == t@);
                    assert forall|k: int| 0 <= k < next.len() implies lists_type(
                        accs@,
                        (#[trigger] next[k]).asset_type@,
                    ) by {
                        if k < i {
                            assert(lists_type(old_accs, prev[k].asset_type@));
                            let jj = choose|jj: int|
                                0 <= jj < old_accs.len() && (#[trigger] old_accs[jj]).asset_type@
                                    == prev[k].asset_type@;
                            assert(accs@[jj] == old_accs[jj]);
                        } else {
                            assert(accs@[nj].asset_type@ == next[k].asset_type@);
                        }
                    }
                    assert forall|k: int| 0 <= k < accs@.len() implies has_type(
                        next,
                        (#[trigger] accs@[k]).asset_type@,
                    ) by {
                        if k < nj {
                            assert(accs@[k] == old_accs[k]);
                            assert(type_entry_ok(prev, old_accs[k]));
                            let tt = choose|tt: int|
                                0 <= tt < prev.len() && (#[trigger] prev[tt]).asset_type@
                                    == old_accs[k].asset_type@;
                            assert(next[tt] == prev[tt]);
                        } else {
                            assert(next[i as int].asset_type@ == t@);
                        }
                    }
                }
            },
        }
        i = i + 1;
    }
    proof {
        assert(assets@.subrange(0, n as int) =~= assets@);
    }
    accs
}

impl Ranked for TypeAcc {
    /// Larger current value first, then asset type in text order.
    open spec fn ranks_before(&self, other: &Self) -> bool {
        self.current > other.current || (self.current == other.current && text_less(
            self.asset_type@,
            other.asset_type@,
        ))
    }

    fn ranks_before_exec(&self, other: &Self) -> (r: bool) {
        self.current > other.current || (self.current == other.current && str_less(
            self.asset_type.as_str(),
            other.asset_type.as_str(),
        ))
    }

    proof fn lemma_strict(a: &Self, b: &Self, c: &Self) {
        lemma_text_less_negative_transitive(a.asset_type@, b.asset_type@, c.asset_type@);
        lemma_text_less_irreflexive(a.asset_type@);
        if text_less(a.asset_type@, b.asset_type@) && text_less(b.asset_type@, c.asset_type@) {
            lemma_text_less_transitive(a.asset_type@, b.asset_type@, c.asset_type@);
        }
    }
}

proof fn lemma_types_reordered(assets: Seq<InvestmentAsset>, a: Seq<TypeAcc>, b: Seq<TypeAcc>)
    requires
        groups_types(assets, a),
        a.to_multiset() == b.to_multiset(),
    ensures
        groups_types(assets, b),
{
    assert(a.no_duplicates()) by {
        assert forall|i: int, j: int| 0 <= i < a.len() && 0 <= j < a.len() && i != j implies a[i]
            != a[j] by {
            assert(a[i].asset_type@ != a[j].asset_type@);
        }
    }
    lemma_same_elements(a, b);
    assert forall|j: int, k: int|
        0 <= j < b.len() && 0 <= k < b.len() && j != k implies (#[trigger] b[j]).asset_type@
        != (#[trigger] b[k]).asset_type@ by {
        let jj = choose|x: int| 0 <= x < a.len() && a[x] == b[j];
        let kk = choose|x: int| 0 <= x < a.len() && a[x] == b[k];
        assert(b[j] != b[k]);
        assert(jj != kk);
    }
    assert forall|t: int| 0 <= t < assets.len() implies lists_type(
        b,
        (#[trigger] assets[t]).asset_type@,
    ) by {
        assert(lists_type(a, assets[t].asset_type@));
        let j0 = choose|j: int| 0 <= j < a.len() && (#[trigger] a[j]).asset_type@ == assets[t].asset_type@;
        assert(a.contains(a[j0]));
        assert(b.contains(a[j0]));
        let k = choose|k: int| 0 <= k < b.len() && b[k] == a[j0];
        assert(b[k].asset_type@ == assets[t].asset_type@);
    }
    assert forall|j: int| 0 <= j < b.len() implies type_entry_ok(assets, #[trigger] b[j]) by {
        let jj = choose|x: int| 0 <= x < a.len() && a[x] == b[j];
        assert(a[jj] == b[j]);
    }
}

/// Share of `part` in `total` as a two-decimal percent, `0.00` when there
/// is no positive total. `part × 100` in rupees is `part` paise, so the
/// percentage is that numerator (scale 0) divided by the total (scale 2),
/// as `rust_decimal` divides.
pub open spec fn share_text(part: int, total: int) -> Seq<char> {
    if total > 0 {
        quotient_text(part, 0, total, 2)
    } else {
        "0.00"@
    }
}

pub open spec fn slice_ok(assets: Seq<InvestmentAsset>, s: AllocationSlice) -> bool {
    let t = s.asset_type@;
    &&& has_type(assets, t)
    &&& s.current_value@ == cents_text(type_current(assets, t))
    &&& s.share_pct@ == share_text(type_current(assets, t), sum_seq(assets, current_fn()))
    &&& s.asset_count == type_count(assets, t)
}

pub open spec fn lists_slice(sl: Seq<AllocationSlice>, t: Seq<char>) -> bool {
    exists|j: int| 0 <= j < sl.len() && (#[trigger] sl[j]).asset_type@ == t
}

/// One slice per distinct asset type, largest current value first (ties by
/// type name).
pub open spec fn allocation_match(assets: Seq<InvestmentAsset>, sl: Seq<AllocationSlice>) -> bool {
    &&& forall|j: int, k: int|
        0 <= j < sl.len() && 0 <= k < sl.len() && j != k ==> (#[trigger] sl[j]).asset_type@
            != (#[trigger] sl[k]).asset_type@
    &&& forall|t: int| 0 <= t < assets.len() ==> lists_slice(sl, (#[trigger] assets[t]).asset_type@)
    &&& forall|j: int| 0 <= j < sl.len() ==> slice_ok(assets, #[trigger] sl[j])
    &&& forall|i: int, j: int|
        #![trigger sl[i], sl[j]]
        0 <= i < j < sl.len() ==> {
            let ci = type_current(assets, sl[i].asset_type@);
            let cj = type_current(assets, sl[j].asset_type@);
            ci > cj || (ci == cj && text_less(sl[i].asset_type@, sl[j].asset_type@))
        }
}

/// Signed return on the invested total, two-decimal percent (`gain × 100`
/// divided by the invested total, as `rust_decimal` divides); empty when
/// nothing is invested.
pub open spec fn return_text(gain: int, invested: int) -> Seq<char> {
    if invested > 0 {
        quotient_text(gain, 0, invested, 2)
    } else {
        Seq::empty()
    }
}

fn allocation_of(assets: &Vec<InvestmentAsset>, sorted: &Vec<TypeAcc>, total_current: i128) -> (r: Vec<AllocationSlice>)
    requires
        assets_in_range(assets@),
        groups_types(assets@, sorted@),
        sorted_by_rank(sorted@),
        total_current == sum_seq(assets@, current_fn()),
    ensures
        allocation_match(assets@, r@),
{
    let mut out: Vec<AllocationSlice> = Vec::new();
    let n = sorted.len();
    let mut i: usize = 0;
    while i < n
        invariant
            0 <= i <= n,
            n == sorted@.len(),
            assets_in_range(assets@),
            groups_types(assets@, sorted@),
            total_current == sum_seq(assets@, current_fn()),
            out@.len() == i,
            forall|j: int| 0 <= j < i ==> (#[trigger] out@[j]).asset_type@ == sorted@[j].asset_type@,
            forall|j: int| 0 <= j < i ==> slice_ok(assets@, #[trigger] out@[j]),
        decreases n - i,
    {
        let a = &sorted[i];
        proof {
            reveal(type_entry_ok);
            assert(type_entry_ok(assets@, sorted@[i as int]));
            lemma_type_current_bounded(assets@, a.asset_type@);
        }
        let share = if total_current > 0 {
            proof {
                let k = choose|k: int| 0 <= k < assets@.len() && (#[trigger] assets@[k]).asset_type@ == a.asset_type@;
                assert(quotient_fits(type_current(assets@, assets@[k].asset_type@), 0, total_current as int, 2));
                lemma_sum_seq_abs(assets@, current_fn());
            }
            format_quotient(a.current, 0, total_current, 2)
        } else {
            string_of("0.00")
        };
        out.push(
            AllocationSlice {
                asset_type: a.asset_type.clone(),
                current_value: format_cents(a.current),
                share_pct: share,
                asset_count: a.count,
            },
        );
        i = i + 1;
    }
    proof {
        reveal(type_entry_ok);
        assert forall|t: int| 0 <= t < assets@.len() implies lists_slice(
            out@,
            (#[trigger] assets@[t]).asset_type@,
        ) by {
            assert(lists_type(sorted@, assets@[t].asset_type@));
            let j = choose|j: int| 0 <= j < sorted@.len() && (#[trigger] sorted@[j]).asset_type@ == assets@[t].asset_type@;
            assert(out@[j].asset_type@ == assets@[t].asset_type@);
        }
        assert forall|x: int, y: int|
            #![trigger out@[x], out@[y]]
            0 <= x < y < out@.len() implies {
            let ci = type_current(assets@, out@[x].asset_type@);
            let cj = type_current(assets@, out@[y].asset_type@);
            ci > cj || (ci == cj && text_less(out@[x].asset_type@, out@[y].asset_type@))
        } by {
            assert(type_entry_ok(assets@, sorted@[x]));
            assert(type_entry_ok(assets@, sorted@[y]));
            assert(!sorted@[y].ranks_before(&sorted@[x]));
            assert(sorted@[x].asset_type@ != sorted@[y].asset_type@);
            lemma_text_less_total(sorted@[x].asset_type@, sorted@[y].asset_type@);
        }
        assert forall|x: int, y: int|
            0 <= x < out@.len() && 0 <= y < out@.len() && x != y implies (#[trigger] out@[x]).asset_type@
            != (#[trigger] out@[y]).asset_type@ by {
            assert(sorted@[x].asset_type@ != sorted@[y].asset_type@);
        }
    }
    out
}

/// What the summary of `assets` holds: the count, the totals and the gain
/// in two-decimal form, the return percentage, and the allocation by type.
pub open spec fn summary_of(assets: Seq<InvestmentAsset>, r: InvestmentsSummary) -> bool {
    &&& r.asset_count == assets.len()
    &&& r.total_invested@ == cents_text(sum_seq(assets, invested_fn()))
    &&& r.total_current_value@ == cents_text(sum_seq(assets, current_fn()))
    &&& r.unrealized_gain_loss@ == cents_text(
        sum_seq(assets, current_fn()) - sum_seq(assets, invested_fn()),
    )
    &&& r.return_pct@ == return_text(
        sum_seq(assets, current_fn()) - sum_seq(assets, invested_fn()),
        sum_seq(assets, invested_fn()),
    )
    &&& allocation_match(assets, r.allocation@)
}

/// The invested and current totals, in paise.
fn asset_totals(assets: &Vec<InvestmentAsset>) -> (r: (i128, i128))
    requires
        assets_totals_in_range(assets@),
    ensures
        r.0 == sum_seq(assets@, invested_fn()),
        r.1 == sum_seq(assets@, current_fn()),
        abs(r.0 as int) <= MONEY_LIMIT,
        abs(r.1 as int) <= MONEY_LIMIT,
{
    let mut total_invested: i128 = 0;
    let mut total_current: i128 = 0;
    let n = assets.len();
    let mut i: usize = 0;
    while i < n
        invariant
            0 <= i <= n,
            n == assets@.len(),
            assets_totals_in_range(assets@),
            total_invested == sum_seq(assets@.subrange(0, i as int), invested_fn()),
            total_current == sum_seq(assets@.subrange(0, i as int), current_fn()),
        decreases n - i,
    {
        proof {
            assert(asset_readable(assets@[i as int]));
            lemma_sum_seq_step(assets@, i as int, invested_fn());
            lemma_sum_seq_step(assets@, i as int, current_fn());
            lemma_sum_seq_abs_prefix(assets@, i + 1, invested_fn());
            lemma_sum_seq_abs_prefix(assets@, i + 1, current_fn());
        }
        total_invested = total_invested + stored_value(&assets[i].invested_amount);
        total_current = total_current + stored_value(&assets[i].current_value);
        i = i + 1;
    }
    proof {
        lemma_sum_seq_whole(assets@, invested_fn());
        lemma_sum_seq_whole(assets@, current_fn());
        lemma_sum_seq_abs(assets@, invested_fn());
        lemma_sum_seq_abs(assets@, current_fn());
    }
    (total_invested, total_current)
}

/// Totals, gain, return and the by-type allocation of the asset positions.
pub fn summarise(assets: &Vec<InvestmentAsset>) -> (r: InvestmentsSummary)
    requires
        assets_in_range(assets@),
    ensures
        summary_of(assets@, r),
{
    let (total_invested, total_current) = asset_totals(assets);
    let gain = total_current - total_invested;
    let return_pct = if total_invested > 0 {
        format_quotient(gain, 0, total_invested, 2)
    } else {
        String::new()
    };
    let types = accumulate_types(assets);
    let sorted = sort_by_rank(types);
    proof {
        lemma_types_reordered(assets@, types@, sorted@);
    }
    let allocation = allocation_of(assets, &sorted, total_current);
    InvestmentsSummary {
        asset_count: assets.len() as u32,
        total_invested: format_cents(total_invested),
        total_current_value: format_cents(total_current),
        unrealized_gain_loss: format_cents(gain),
        return_pct,
        allocation,
    }
}

// ---------------------------------------------------------------------------
// Creating, editing and deleting assets
// ---------------------------------------------------------------------------

/// Index of the first asset with the id.
pub open spec fn find_asset(xs: Seq<InvestmentAsset>, id: Seq<char>) -> Option<int>
    decreases xs.len(),
{
    if xs.len() == 0 {
        None
    } else if xs[0].id@ == id {
        Some(0)
    } else {
        match find_asset(xs.drop_first(), id) {
            Some(k) => Some(k + 1),
            None => None,
        }
    }
}

/// Why an upsert is refused, checked in this order: missing type or name,
/// unparsable invested amount or current value, a negative amount, an
/// unknown id.
pub open spec fn asset_upsert_error(xs: Seq<InvestmentAsset>, spec: UpsertInvestmentSpec) -> Option<Seq<char>> {
    if trim_seq(spec.asset_type@).len() == 0 || trim_seq(spec.asset_name@).len() == 0 {
        Some("asset type and name are required"@)
    } else {
        match parse_amount_result(spec.invested_amount@, "invested amount"@) {
            Err(e) => Some(e),
            Ok(inv) => match parse_amount_result(spec.current_value@, "current value"@) {
                Err(e) => Some(e),
                Ok(cur) => if as_decimal(inv).is_negative() || as_decimal(cur).is_negative() {
                    Some("amounts must be non-negative"@)
                } else {
                    match target_id(spec.id) {
                        Some(id) => if find_asset(xs, id).is_none() {
                            Some("asset "@ + id + " not found"@)
                        } else {
                            None
                        },
                        None => None,
                    }
                },
            },
        }
    }
}

/// The asset as written by an accepted upsert (every field but the id).
pub open spec fn asset_written(a: InvestmentAsset, spec: UpsertInvestmentSpec, now: Seq<char>) -> bool {
    &&& a.asset_type@ == trim_seq(spec.asset_type@)
    &&& a.asset_name@ == trim_seq(spec.asset_name@)
    &&& a.invested_amount@ == as_decimal(
        parse_amount_result(spec.invested_amount@, "invested amount"@)->Ok_0,
    ).text2()
    &&& a.current_value@ == as_decimal(
        parse_amount_result(spec.current_value@, "current value"@)->Ok_0,
    ).text2()
    &&& a.last_updated_at@ == now
    &&& opt_view(a.notes) == stored_notes(spec.notes)
}

/// The assets after an accepted upsert, and the asset it returns.
pub open spec fn asset_upsert_done(
    before: Seq<InvestmentAsset>,
    after: Seq<InvestmentAsset>,
    spec: UpsertInvestmentSpec,
    a: InvestmentAsset,
    now: Seq<char>,
    new_id: Seq<char>,
) -> bool {
    &&& asset_upsert_error(before, spec).is_none()
    &&& asset_written(a, spec, now)
    &&& match target_id(spec.id) {
        Some(id) => {
            let k = find_asset(before, id)->0;
            &&& a.id == before[k].id
            &&& after == before.update(k, a)
        },
        None => {
            &&& a.id@ == new_id
            &&& after == before.push(a)
        },
    }
}

fn copy_opt(o: &Option<String>) -> (r: Option<String>)
    ensures
        r == *o,
{
    match o {
        Some(s) => Some(s.clone()),
        None => None,
    }
}

fn copy_asset(a: &InvestmentAsset) -> (r: InvestmentAsset)
    ensures
        r == *a,
{
    InvestmentAsset {
        id: a.id.clone(),
        asset_type: a.asset_type.clone(),
        asset_name: a.asset_name.clone(),
        invested_amount: a.invested_amount.clone(),
        current_value: a.current_value.clone(),
        last_updated_at: a.last_updated_at.clone(),
        notes: copy_opt(&a.notes),
    }
}

fn find_asset_index(xs: &Vec<InvestmentAsset>, id: &str) -> (r: Option<usize>)
    ensures
        match r {
            Some(k) => find_asset(xs@, id@) == Some(k as int) && k < xs@.len(),
            None => find_asset(xs@, id@).is_none(),
        },
{
    let n = xs.len();
    let mut i: usize = 0;
    assert(xs@.subrange(0, n as int) =~= xs@);
    while i < n
        invariant
            0 <= i <= n,
            n == xs@.len(),
            find_asset(xs@, id@) == match find_asset(xs@.subrange(i as int, n as int), id@) {
                Some(k) => Some(k + i),
                None => None,
            },
        decreases n - i,
    {
        let ghost tail = xs@.subrange(i as int, n as int);
        assert(tail[0] == xs@[i as int]);
        assert(tail.drop_first() =~= xs@.subrange(i + 1, n as int));
        if str_eq(xs[i].id.as_str(), id) {
            return Some(i);
        }
        i = i + 1;
    }
    None
}

/// Creates (no id) or edits (existing id) an asset in `doc`, stamping it
/// with `now`; a new asset gets `new_id`. On refusal `doc` is left as it
/// was.
pub fn apply_investment_upsert(
    doc: &mut InvestmentsDoc,
    spec: UpsertInvestmentSpec,
    now: String,
    new_id: String,
) -> (r: Result<InvestmentAsset, String>)
    ensures
        match r {
            Ok(a) => asset_upsert_done(old(doc).assets@, final(doc).assets@, spec, a, now@, new_id@),
            Err(e) => asset_upsert_error(old(doc).assets@, spec) == Some(e@) && *final(doc) == *old(doc),
        },
{
    let asset_type = trim(spec.asset_type.as_str());
    let asset_name = trim(spec.asset_name.as_str());
    if asset_type.unicode_len() == 0 || asset_name.unicode_len() == 0 {
        return Err(string_of("asset type and name are required"));
    }
    let invested = match parse_amount(spec.invested_amount.as_str(), "invested amount") {
        Ok(d) => d,
        Err(e) => {
            return Err(e);
        },
    };
    let current = match parse_amount(spec.current_value.as_str(), "current value") {
        Ok(d) => d,
        Err(e) => {
            return Err(e);
        },
    };
    if invested.is_negative_exec() || current.is_negative_exec() {
        return Err(string_of("amounts must be non-negative"));
    }
    let target: Option<usize> = match &spec.id {
        Some(s) => if s.as_str().unicode_len() > 0 {
            match find_asset_index(&doc.assets, s.as_str()) {
                Some(k) => Some(k),
                None => {
                    let mut msg = string_of("asset ");
                    msg.append(s.as_str());
                    msg.append(" not found");
                    return Err(msg);
                },
            }
        } else {
            None
        },
        None => None,
    };
    let notes = notes_exec(&spec.notes);
    let id = match target {
        Some(k) => doc.assets[k].id.clone(),
        None => new_id,
    };
    let asset = InvestmentAsset {
        id,
        asset_type: string_of(asset_type),
        asset_name: string_of(asset_name),
        invested_amount: invested.to_text2(),
        current_value: current.to_text2(),
        last_updated_at: now,
        notes,
    };
    let out = copy_asset(&asset);
    match target {
        Some(k) => {
            doc.assets.set(k, asset);
        },
        None => {
            doc.assets.push(asset);
        },
    }
    Ok(out)
}

/// Creates or edits an asset, stamped with the current time; a new asset
/// gets a fresh random id `inv:` followed by twelve hex digits.
pub fn upsert_investment(doc: &mut InvestmentsDoc, spec: UpsertInvestmentSpec) -> (r: Result<InvestmentAsset, String>)
    ensures
        match r {
            Ok(a) => exists|now: Seq<char>, b: Seq<u8>|
                b.len() == 6 && asset_upsert_done(
                    old(doc).assets@,
                    final(doc).assets@,
                    spec,
                    a,
                    now,
                    "inv:"@ + hex_text(b),
                ),
            Err(e) => asset_upsert_error(old(doc).assets@, spec) == Some(e@) && *final(doc) == *old(doc),
        },
{
    let now = now_rfc3339();
    let new_id = random_id("inv:");
    apply_investment_upsert(doc, spec, now, new_id)
}

/// The assets left after removing every asset with the id.
pub open spec fn without_asset(xs: Seq<InvestmentAsset>, id: Seq<char>) -> Seq<InvestmentAsset>
    decreases xs.len(),
{
    if xs.len() == 0 {
        xs
    } else if xs.last().id@ == id {
        without_asset(xs.drop_last(), id)
    } else {
        without_asset(xs.drop_last(), id).push(xs.last())
    }
}

proof fn lemma_find_asset_last(xs: Seq<InvestmentAsset>, id: Seq<char>)
    requires
        xs.len() > 0,
    ensures
        find_asset(xs, id).is_none() <==> (find_asset(xs.drop_last(), id).is_none() && xs.last().id@ != id),
    decreases xs.len(),
{
    if xs.len() > 1 {
        lemma_find_asset_last(xs.drop_first(), id);
        assert(xs.drop_first().drop_last() =~= xs.drop_last().drop_first());
        assert(xs.drop_first().last() == xs.last());
        assert(xs.drop_last()[0] == xs[0]);
        let a = xs.drop_last();
        assert(find_asset(a, id).is_none() <==> (a[0].id@ != id && find_asset(a.drop_first(), id).is_none()));
        assert(find_asset(xs, id).is_none() <==> (xs[0].id@ != id && find_asset(xs.drop_first(), id).is_none()));
    } else {
        assert(xs.drop_first().len() == 0);
        assert(xs.drop_last().len() == 0);
        assert(xs.last() == xs[0]);
    }
}

proof fn lemma_without_asset_len(xs: Seq<InvestmentAsset>, id: Seq<char>)
    ensures
        without_asset(xs, id).len() <= xs.len(),
        without_asset(xs, id).len() == xs.len() <==> find_asset(xs, id).is_none(),
    decreases xs.len(),
{
    if xs.len() > 0 {
        lemma_without_asset_len(xs.drop_last(), id);
        lemma_find_asset_last(xs, id);
    }
}

/// Removes the asset(s) with the id; refused, with `doc` unchanged, when no
/// asset has it.
pub fn delete_investment(doc: &mut InvestmentsDoc, id: &str) -> (r: Result<(), String>)
    ensures
        match r {
            Ok(()) => find_asset(old(doc).assets@, id@).is_some() && final(doc).assets@
                == without_asset(old(doc).assets@, id@),
            Err(e) => find_asset(old(doc).assets@, id@).is_none() && e@ == "asset "@ + id@
                + " not found"@ && *final(doc) == *old(doc),
        },
{
    let ghost before = doc.assets@;
    let mut kept: Vec<InvestmentAsset> = Vec::new();
    let n = doc.assets.len();
    let mut i: usize = 0;
    while i < n
        invariant
            0 <= i <= n,
            n == before.len(),
            doc.assets@ == before,
            kept@ == without_asset(before.subrange(0, i as int), id@),
        decreases n - i,
    {
        assert(before.subrange(0, i + 1).drop_last() =~= before.subrange(0, i as int));
        if !str_eq(doc.assets[i].id.as_str(), id) {
            kept.push(copy_asset(&doc.assets[i]));
        }
        i = i + 1;
    }
    assert(before.subrange(0, n as int) =~= before);
    proof {
        lemma_without_asset_len(before, id@);
    }
    if kept.len() == n {
        let mut msg = string_of("asset ");
        msg.append(id);
        msg.append(" not found");
        return Err(msg);
    }
    doc.assets = kept;
    Ok(())
}

/// Whether `x / d` stays at or below the quotient limit used by
/// [`quotient_fits`].
fn within_decimal_quotient(x: u128, d: u128) -> (r: bool)
    requires
        d > 0,
    ensures
        r == (x <= (MONEY_LIMIT - 1) * d),
{
    let q = x / d;
    let rem = x % d;
    proof {
        assert(x == d * q + rem && 0 <= rem < d) by (nonlinear_arith)
            requires
                d > 0,
                q == x / d,
                rem == x % d,
        ;
        let lim: int = MONEY_LIMIT - 1;
        assert((x <= lim * d) == (q < lim || (q == lim && rem == 0))) by (nonlinear_arith)
            requires
                x == d * q + rem,
                0 <= rem < d,
                d > 0,
                q >= 0,
                lim > 0,
        ;
    }
    q < MONEY_LIMIT - 1 || (q == MONEY_LIMIT - 1 && rem == 0)
}

/// Whether `assets` meet what the summary needs (see [`assets_in_range`]).
pub fn assets_summarisable(assets: &Vec<InvestmentAsset>) -> (r: bool)
    ensures
        r == assets_in_range(assets@),
{
    let n = assets.len();
    if n > 0xffff_ffff {
        return false;
    }
    let mut ti: u128 = 0;
    let mut tc: u128 = 0;
    let mut i: usize = 0;
    while i < n
        invariant
            0 <= i <= n,
            n == assets@.len(),
            n <= u32::MAX,
            forall|q: int| 0 <= q < i ==> asset_readable(#[trigger] assets@[q]),
            ti == sum_seq(assets@.subrange(0, i as int), abs_fn(invested_fn())),
            tc == sum_seq(assets@.subrange(0, i as int), abs_fn(current_fn())),
            ti <= MONEY_LIMIT,
            tc <= MONEY_LIMIT,
        decreases n - i,
    {
        let a = &assets[i];
        proof {
            lemma_sum_seq_step(assets@, i as int, abs_fn(invested_fn()));
            lemma_sum_seq_step(assets@, i as int, abs_fn(current_fn()));
            lemma_sum_seq_abs_prefix(assets@, i + 1, invested_fn());
            lemma_sum_seq_abs_prefix(assets@, i + 1, current_fn());
        }
        let inv = match read_stored_amount(a.invested_amount.as_str()) {
            Some(v) => v,
            None => {
                return false;
            },
        };
        let cur = match read_stored_amount(a.current_value.as_str()) {
            Some(v) => v,
            None => {
                return false;
            },
        };
        let im = magnitude(inv);
        let cm = magnitude(cur);
        if im > MONEY_LIMIT - ti || cm > MONEY_LIMIT - tc {
            return false;
        }
        ti = ti + im;
        tc = tc + cm;
        i = i + 1;
    }
    proof {
        lemma_sum_seq_whole(assets@, abs_fn(invested_fn()));
        lemma_sum_seq_whole(assets@, abs_fn(current_fn()));
    }
    let (inv, cur) = asset_totals(assets);
    assert(pow10(2) == 100 && pow10(0) == 1) by {
        reveal_with_fuel(pow10, 3);
    }
    let gain = cur - inv;
    if gain > MONEY_LIMIT as i128 || gain < -(MONEY_LIMIT as i128) {
        return false;
    }
    if inv > 0 {
        let gm = magnitude(gain);
        if !within_decimal_quotient(gm * 100, inv as u128) {
            return false;
        }
    }
    if cur > 0 {
        let accs = accumulate_types(assets);
        let m = accs.len();
        let mut j: usize = 0;
        while j < m
            invariant
                0 <= j <= m,
                m == accs@.len(),
                cur == sum_seq(assets@, current_fn()),
                0 < cur <= MONEY_LIMIT,
                pow10(2) == 100 && pow10(0) == 1,
                assets_totals_in_range(assets@),
                groups_types(assets@, accs@),
                forall|q: int| 0 <= q < j ==> quotient_fits((#[trigger] accs@[q]).current as int, 0, cur as int, 2),
            decreases m - j,
        {
            proof {
                reveal(type_entry_ok);
                assert(type_entry_ok(assets@, accs@[j as int]));
                lemma_type_current_bounded(assets@, accs@[j as int].asset_type@);
            }
            let cm = magnitude(accs[j].current);
            if !within_decimal_quotient(cm * 100, cur as u128) {
                proof {
                    let k = choose|k: int| 0 <= k < assets@.len() && (#[trigger] assets@[k]).asset_type@ == accs@[j as int].asset_type@;
                    assert(!quotient_fits(type_current(assets@, assets@[k].asset_type@), 0, cur as int, 2));
                }
                return false;
            }
            j = j + 1;
        }
        proof {
            reveal(type_entry_ok);
            assert forall|k: int| 0 <= k < assets@.len() implies quotient_fits(
                type_current(assets@, (#[trigger] assets@[k]).asset_type@),
                0,
                cur as int,
                2,
            ) by {
                assert(lists_type(accs@, assets@[k].asset_type@));
                let q = choose|q: int| 0 <= q < accs@.len() && (#[trigger] accs@[q]).asset_type@ == assets@[k].asset_type@;
                assert(type_entry_ok(assets@, accs@[q]));
            }
        }
    }
    true
}

/// The summary when every stored amount reads as a decimal in whole paise
/// and the totals stay within range; `None` otherwise.
pub fn summarise_if_readable(assets: &Vec<InvestmentAsset>) -> (r: Option<InvestmentsSummary>)
    ensures
        r is Some <==> assets_in_range(assets@),
        match r {
            Some(s) => summary_of(assets@, s),
            None => true,
        },
{
    if assets_summarisable(assets) {
        Some(summarise(assets))
    } else {
        None
    }
}

} // verus!
