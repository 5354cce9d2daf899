//! Loan tracker: manually entered loan positions, payoff orderings and the
//! good / watch / bad classification by net effective borrowing cost.
//!
//! - `effective_rate = interest_rate - (tax_benefit ? 2.5 : 0)`, never below
//!   zero.
//! - effective rate at most 9 % → good; at least 12 % → bad; otherwise watch.
//!   Credit-card debt is always bad.
//!
//! Rates and amounts are held in hundredths (paise, or hundredths of a
//! percentage point).

use crate::money::{
    abs, cents_text, format_cents, format_quotient, magnitude, pow10, quotient_text, parse_amount, parse_amount_result,
    parse_stored_cents, read_stored_amount, stored_amount, stored_cents, DecimalValue, MONEY_LIMIT,
};
use crate::sorting::{lemma_same_elements, sort_by_rank, sorted_by_rank, Ranked};
use crate::stamps::{hex_text, now_rfc3339, random_id};
use crate::sums::{
    abs_fn, lemma_sum_seq_abs, lemma_sum_seq_abs_element, lemma_sum_seq_abs_prefix,
    lemma_sum_seq_step, lemma_sum_seq_whole, sum_seq,
};
use crate::text::{
    lemma_text_less_negative_transitive,
    lemma_text_less_irreflexive, lemma_text_less_transitive,
    normalize_label, normalized_label, opt_view, str_eq, str_less, string_of, text_less, trim,
    trim_seq,
};
use vstd::prelude::*;

verus! {

pub struct LoansDoc {
    pub loans: Vec<Loan>,
}

pub struct Loan {
    pub id: String,
    /// "Home", "Car", "Personal", "Education", "Credit Card", "Business",
    /// "Other", or a custom label.
    pub loan_type: String,
    pub lender: String,
    /// Two-decimal text.
    pub principal_outstanding: String,
    /// Annual rate in percent, two-decimal text.
    pub interest_rate: String,
    /// "Fixed" or "Floating".
    pub rate_type: String,
    pub remaining_tenure_months: u32,
    pub emi: String,
    pub prepayment_penalty_pct: String,
    /// Interest or principal is tax-deductible.
    pub tax_benefit: bool,
    pub start_date: String,
    pub next_due_date: String,
    pub notes: Option<String>,
    pub last_updated_at: String,
}

/// What the UI sends to create a loan (no `id`) or edit one.
pub struct UpsertLoanSpec {
    pub id: Option<String>,
    pub loan_type: String,
    pub lender: String,
    pub principal_outstanding: String,
    pub interest_rate: String,
    pub rate_type: String,
    pub remaining_tenure_months: u32,
    pub emi: String,
    pub prepayment_penalty_pct: Option<String>,
    pub tax_benefit: bool,
    pub start_date: String,
    pub next_due_date: String,
    pub notes: Option<String>,
}

pub struct LoansSummary {
    pub loan_count: u32,
    pub total_outstanding: String,
    pub total_monthly_emi: String,
    /// Weighted by outstanding balance.
    pub weighted_avg_rate: String,
    pub classifications: Vec<LoanClassification>,
    /// Highest rate first.
    pub avalanche_order: Vec<String>,
    /// Smallest balance first.
    pub snowball_order: Vec<String>,
}

pub struct LoanClassification {
    pub loan_id: String,
    /// "good", "watch" or "bad".
    pub verdict: &'static str,
    /// After the tax-benefit shave, two-decimal percent.
    pub effective_rate: String,
    pub rationale: String,
}

// ---------------------------------------------------------------------------
// Effective rate and verdict
// ---------------------------------------------------------------------------

/// Percentage points (in hundredths) shaved off for a tax benefit: 2.5.
pub const TAX_BENEFIT_SHAVE: i128 = 250;

/// Effective rate at or below this (9 %) is a good loan.
pub const GOOD_LOAN_RATE: i128 = 900;

/// Effective rate at or above this (12 %) is a bad loan.
pub const BAD_LOAN_RATE: i128 = 1200;

pub open spec fn effective_rate(nominal: int, tax_benefit: bool) -> int {
    if tax_benefit {
        if nominal - 250 < 0 {
            0
        } else {
            nominal - 250
        }
    } else {
        nominal
    }
}

/// Net effective rate: the nominal rate minus 2.5 points for a tax benefit,
/// never below zero.
pub fn effective_rate_of(nominal_rate: i128, tax_benefit: bool) -> (r: i128)
    requires
        nominal_rate > i128::MIN + 250,
    ensures
        r == effective_rate(nominal_rate as int, tax_benefit),
{
    if tax_benefit {
        let shaved = nominal_rate - TAX_BENEFIT_SHAVE;
        if shaved < 0 {
            0
        } else {
            shaved
        }
    } else {
        nominal_rate
    }
}

pub open spec fn verdict_of(eff: int, loan_type: Seq<char>) -> Seq<char> {
    if normalize_label(loan_type) == "credit card"@ {
        "bad"@
    } else if eff <= 900 {
        "good"@
    } else if eff >= 1200 {
        "bad"@
    } else {
        "watch"@
    }
}

pub open spec fn rationale_of(eff: int, tax_benefit: bool, loan_type: Seq<char>) -> Seq<char> {
    if normalize_label(loan_type) == "credit card"@ {
        "Credit-card debt — rates effectively reset to 35%+ after promos. Pay this down first."@
    } else if eff <= 900 {
        if tax_benefit {
            "Effective rate "@ + cents_text(eff)
                + "% after tax shave is below the 9% good-loan threshold. Tax-advantaged — pay the EMI, prepay only with idle cash."@
        } else {
            "Effective rate "@ + cents_text(eff)
                + "% is below the 9% threshold. Pay the EMI on time; aggressive prepayment beats most other deployments only if your portfolio's expected return is lower."@
        }
    } else if eff >= 1200 {
        "Effective rate "@ + cents_text(eff)
            + "% is at or above the 12% bad-loan threshold. Prioritize prepaying this — most asset returns can't beat the interest you're paying."@
    } else {
        "Effective rate "@ + cents_text(eff)
            + "% sits between 9% and 12%. Pay the EMI; consider prepayment if you have surplus cash."@
    }
}

/// Verdict and one-line rationale for a loan.
pub fn classify(effective_rate: i128, tax_benefit: bool, loan_type: &str) -> (r: (&'static str, String))
    requires
        effective_rate > i128::MIN,
    ensures
        r.0@ == verdict_of(effective_rate as int, loan_type@),
        r.1@ == rationale_of(effective_rate as int, tax_benefit, loan_type@),
{
    let lt = normalized_label(loan_type);
    if str_eq(lt.as_str(), "credit card") {
        return (
            "bad",
            string_of(
                "Credit-card debt — rates effectively reset to 35%+ after promos. Pay this down first.",
            ),
        );
    }
    let rate_text = format_cents(effective_rate);
    let mut why = string_of("Effective rate ");
    why.append(rate_text.as_str());
    if effective_rate <= GOOD_LOAN_RATE {
        if tax_benefit {
            why.append(
                "% after tax shave is below the 9% good-loan threshold. Tax-advantaged — pay the EMI, prepay only with idle cash.",
            );
        } else {
            why.append(
                "% is below the 9% threshold. Pay the EMI on time; aggressive prepayment beats most other deployments only if your portfolio's expected return is lower.",
            );
        }
        ("good", why)
    } else if effective_rate >= BAD_LOAN_RATE {
        why.append(
            "% is at or above the 12% bad-loan threshold. Prioritize prepaying this — most asset returns can't beat the interest you're paying.",
        );
        ("bad", why)
    } else {
        why.append(
            "% sits between 9% and 12%. Pay the EMI; consider prepayment if you have surplus cash.",
        );
        ("watch", why)
    }
}

/// Law: the tax shave never takes the effective rate below zero, nor above
/// the nominal rate.
pub proof fn law_effective_rate_bounds(nominal: int, tax_benefit: bool)
    ensures
        tax_benefit ==> effective_rate(nominal, tax_benefit) >= 0,
        effective_rate(nominal, tax_benefit) <= if nominal < 0 {
            0
        } else {
            nominal
        },
        !tax_benefit ==> effective_rate(nominal, tax_benefit) == nominal,
{
}

/// Law: credit-card debt is bad whatever its rate; otherwise a higher
/// effective rate never gets a better verdict.
pub proof fn law_verdict_monotone(e1: int, e2: int, loan_type: Seq<char>)
    requires
        e1 <= e2,
    ensures
        normalize_label(loan_type) == "credit card"@ ==> verdict_of(e1, loan_type) == "bad"@,
        verdict_of(e1, loan_type) == "bad"@ ==> verdict_of(e2, loan_type) == "bad"@,
        verdict_of(e2, loan_type) == "good"@ ==> verdict_of(e1, loan_type) == "good"@,
{
    reveal_strlit("bad");
    reveal_strlit("good");
    reveal_strlit("watch");
    assert("bad"@ != "good"@) by {
        assert("bad"@.len() != "good"@.len());
    }
    assert("watch"@ != "good"@) by {
        assert("watch"@.len() != "good"@.len());
    }
    assert("watch"@ != "bad"@) by {
        assert("watch"@.len() != "bad"@.len());
    }
}

// ---------------------------------------------------------------------------
// Summary
// ---------------------------------------------------------------------------

pub open spec fn loan_principal(l: Loan) -> int {
    stored_amount(l.principal_outstanding@)->0
}

pub open spec fn loan_rate(l: Loan) -> int {
    stored_amount(l.interest_rate@)->0
}

pub open spec fn loan_emi(l: Loan) -> int {
    stored_amount(l.emi@)->0
}

/// Each stored amount reads as a decimal in whole paise.
pub open spec fn loan_readable(l: Loan) -> bool {
    stored_amount(l.principal_outstanding@).is_some() && stored_amount(l.interest_rate@).is_some()
        && stored_amount(l.emi@).is_some()
}

pub open spec fn principal_fn() -> spec_fn(Loan) -> int {
    |l: Loan| loan_principal(l)
}

pub open spec fn emi_fn() -> spec_fn(Loan) -> int {
    |l: Loan| loan_emi(l)
}

/// Rate times balance, in ten-thousandths.
pub open spec fn rate_weight_fn() -> spec_fn(Loan) -> int {
    |l: Loan| loan_rate(l) * loan_principal(l)
}

/// Loans the summary can total: each readable, and the balance, EMI and
/// rate-times-balance totals within what a `Decimal` holds.
pub open spec fn loans_in_range(ls: Seq<Loan>) -> bool {
    &&& forall|i: int| 0 <= i < ls.len() ==> loan_readable(#[trigger] ls[i])
    &&& sum_seq(ls, abs_fn(principal_fn())) <= MONEY_LIMIT
    &&& sum_seq(ls, abs_fn(emi_fn())) <= MONEY_LIMIT
    &&& sum_seq(ls, abs_fn(rate_weight_fn())) <= MONEY_LIMIT
}

pub open spec fn loan_effective_rate(l: Loan) -> int {
    effective_rate(loan_rate(l), l.tax_benefit)
}

pub open spec fn classification_ok(l: Loan, c: LoanClassification) -> bool {
    let eff = loan_effective_rate(l);
    &&& c.loan_id@ == l.id@
    &&& c.verdict@ == verdict_of(eff, l.loan_type@)
    &&& c.effective_rate@ == cents_text(eff)
    &&& c.rationale@ == rationale_of(eff, l.tax_benefit, l.loan_type@)
}

/// Balance-weighted average rate, two decimals: the sum of rate times
/// balance (four places) divided by the total balance (two places) as
/// `rust_decimal` divides; `0.00` with no balance.
pub open spec fn weighted_rate_text(ls: Seq<Loan>) -> Seq<char> {
    let total = sum_seq(ls, principal_fn());
    if total > 0 {
        quotient_text(sum_seq(ls, rate_weight_fn()), 4, total, 2)
    } else {
        "0.00"@
    }
}

/// Avalanche ordering key: rate, then balance (both descending), then id.
pub struct PayoffKey {
    pub id: String,
    pub rate: i128,
    pub principal: i128,
}

impl Ranked for PayoffKey {
    open spec fn ranks_before(&self, other: &Self) -> bool {
        self.rate > other.rate || (self.rate == other.rate && self.principal > other.principal) || (
        self.rate == other.rate && self.principal == other.principal && text_less(
            self.id@,
            other.id@,
        ))
    }

    fn ranks_before_exec(&self, other: &Self) -> (r: bool) {
        self.rate > other.rate || (self.rate == other.rate && self.principal > other.principal) || (
        self.rate == other.rate && self.principal == other.principal && str_less(
            self.id.as_str(),
            other.id.as_str(),
        ))
    }

    proof fn lemma_strict(a: &Self, b: &Self, c: &Self) {
        lemma_text_less_negative_transitive(a.id@, b.id@, c.id@);
        lemma_text_less_irreflexive(a.id@);
        if text_less(a.id@, b.id@) && text_less(b.id@, c.id@) {
            lemma_text_less_transitive(a.id@, b.id@, c.id@);
        }
    }
}

/// Snowball ordering key: balance ascending, then id.
pub struct SnowballKey {
    pub id: String,
    pub principal: i128,
}

impl Ranked for SnowballKey {
    open spec fn ranks_before(&self, other: &Self) -> bool {
        self.principal < other.principal || (self.principal == other.principal && text_less(
            self.id@,
            other.id@,
        ))
    }

    fn ranks_before_exec(&self, other: &Self) -> (r: bool) {
        self.principal < other.principal || (self.principal == other.principal && str_less(
            self.id.as_str(),
            other.id.as_str(),
        ))
    }

    proof fn lemma_strict(a: &Self, b: &Self, c: &Self) {
        lemma_text_less_negative_transitive(a.id@, b.id@, c.id@);
        lemma_text_less_irreflexive(a.id@);
        if text_less(a.id@, b.id@) && text_less(b.id@, c.id@) {
            lemma_text_less_transitive(a.id@, b.id@, c.id@);
        }
    }
}

pub open spec fn avalanche_keys(ls: Seq<Loan>) -> Seq<PayoffKey> {
    ls.map_values(
        |l: Loan| PayoffKey { id: l.id, rate: loan_rate(l) as i128, principal: loan_principal(l) as i128 },
    )
}

pub open spec fn snowball_keys(ls: Seq<Loan>) -> Seq<SnowballKey> {
    ls.map_values(|l: Loan| SnowballKey { id: l.id, principal: loan_principal(l) as i128 })
}

/// `order` lists the loan ids in avalanche priority: some arrangement of the
/// loans' keys, sorted.
pub open spec fn is_avalanche_order(ls: Seq<Loan>, order: Seq<String>) -> bool {
    exists|ks: Seq<PayoffKey>|
        ks.to_multiset() == avalanche_keys(ls).to_multiset() && sorted_by_rank(ks) && order.len()
            == ks.len() && forall|i: int| 0 <= i < ks.len() ==> order[i] == (#[trigger] ks[i]).id
}

/// `order` lists the loan ids in snowball priority.
pub open spec fn is_snowball_order(ls: Seq<Loan>, order: Seq<String>) -> bool {
    exists|ks: Seq<SnowballKey>|
        ks.to_multiset() == snowball_keys(ls).to_multiset() && sorted_by_rank(ks) && order.len()
            == ks.len() && forall|i: int| 0 <= i < ks.len() ==> order[i] == (#[trigger] ks[i]).id
}

/// Law: the avalanche order lists every loan once, each position holding a
/// loan's id, rate and balance; a higher rate comes first, at equal rates
/// the larger outstanding balance comes first, and at equal rate and balance
/// the id that sorts first.
pub proof fn law_avalanche_order(ls: Seq<Loan>, order: Seq<String>)
    requires
        is_avalanche_order(ls, order),
    ensures
        exists|ks: Seq<PayoffKey>|
            {
                &&& ks.to_multiset() == avalanche_keys(ls).to_multiset()
                &&& order.len() == ks.len()
                &&& forall|i: int| 0 <= i < ks.len() ==> order[i] == (#[trigger] ks[i]).id
                &&& forall|i: int|
                    0 <= i < ks.len() ==> exists|k: int|
                        0 <= k < ls.len() && (#[trigger] ks[i]).id == ls[k].id && ks[i].rate
                            == loan_rate(ls[k]) as i128 && ks[i].principal == loan_principal(ls[k]) as i128
                &&& forall|i: int, j: int|
                    #![trigger ks[i], ks[j]]
                    0 <= i < j < ks.len() ==> ks[i].rate > ks[j].rate || (ks[i].rate == ks[j].rate
                        && ks[i].principal > ks[j].principal) || (ks[i].rate == ks[j].rate
                        && ks[i].principal == ks[j].principal && !text_less(ks[j].id@, ks[i].id@))
            },
{
    let ks = choose|ks: Seq<PayoffKey>|
        ks.to_multiset() == avalanche_keys(ls).to_multiset() && sorted_by_rank(ks) && order.len()
            == ks.len() && forall|i: int| 0 <= i < ks.len() ==> order[i] == (#[trigger] ks[i]).id;
    let keys = avalanche_keys(ls);
    lemma_same_elements(ks, keys);
    assert forall|i: int| 0 <= i < ks.len() implies exists|k: int|
        0 <= k < ls.len() && (#[trigger] ks[i]).id == ls[k].id && ks[i].rate == loan_rate(ls[k]) as i128
            && ks[i].principal == loan_principal(ls[k]) as i128 by {
        assert(keys.contains(ks[i]));
        let k = choose|k: int| 0 <= k < keys.len() && keys[k] == ks[i];
        assert(keys[k] == PayoffKey { id: ls[k].id, rate: loan_rate(ls[k]) as i128, principal: loan_principal(ls[k]) as i128 });
    }
    assert forall|i: int, j: int|
        #![trigger ks[i], ks[j]]
        0 <= i < j < ks.len() implies ks[i].rate > ks[j].rate || (ks[i].rate == ks[j].rate
            && ks[i].principal > ks[j].principal) || (ks[i].rate == ks[j].rate && ks[i].principal
            == ks[j].principal && !text_less(ks[j].id@, ks[i].id@)) by {
        assert(!ks[j].ranks_before(&ks[i]));
    }
}

/// Law: the snowball order lists every loan once, each position holding a
/// loan's id and balance; the smaller outstanding balance comes first, and
/// at equal balances the id that sorts first.
pub proof fn law_snowball_order(ls: Seq<Loan>, order: Seq<String>)
    requires
        is_snowball_order(ls, order),
    ensures
        exists|ks: Seq<SnowballKey>|
            {
                &&& ks.to_multiset() == snowball_keys(ls).to_multiset()
                &&& order.len() == ks.len()
                &&& forall|i: int| 0 <= i < ks.len() ==> order[i] == (#[trigger] ks[i]).id
                &&& forall|i: int|
                    0 <= i < ks.len() ==> exists|k: int|
                        0 <= k < ls.len() && (#[trigger] ks[i]).id == ls[k].id && ks[i].principal
                            == loan_principal(ls[k]) as i128
                &&& forall|i: int, j: int|
                    #![trigger ks[i], ks[j]]
                    0 <= i < j < ks.len() ==> ks[i].principal < ks[j].principal || (ks[i].principal
                        == ks[j].principal && !text_less(ks[j].id@, ks[i].id@))
            },
{
    let ks = choose|ks: Seq<SnowballKey>|
        ks.to_multiset() == snowball_keys(ls).to_multiset() && sorted_by_rank(ks) && order.len()
            == ks.len() && forall|i: int| 0 <= i < ks.len() ==> order[i] == (#[trigger] ks[i]).id;
    let keys = snowball_keys(ls);
    lemma_same_elements(ks, keys);
    assert forall|i: int| 0 <= i < ks.len() implies exists|k: int|
        0 <= k < ls.len() && (#[trigger] ks[i]).id == ls[k].id && ks[i].principal
            == loan_principal(ls[k]) as i128 by {
        assert(keys.contains(ks[i]));
        let k = choose|k: int| 0 <= k < keys.len() && keys[k] == ks[i];
        assert(keys[k] == SnowballKey { id: ls[k].id, principal: loan_principal(ls[k]) as i128 });
    }
    assert forall|i: int, j: int|
        #![trigger ks[i], ks[j]]
        0 <= i < j < ks.len() implies ks[i].principal < ks[j].principal || (ks[i].principal
            == ks[j].principal && !text_less(ks[j].id@, ks[i].id@)) by {
        assert(!ks[j].ranks_before(&ks[i]));
    }
}

fn stored_value(s: &String) -> (r: i128)
    requires
        stored_amount(s@).is_some(),
    ensures
        r == stored_amount(s@)->0,
        abs(r as int) <= MONEY_LIMIT * 100,
{
    match read_stored_amount(s.as_str()) {
        Some(v) => v,
        None => 0,
    }
}

fn payoff_orders(loans: &Vec<Loan>) -> (r: (Vec<String>, Vec<String>))
    requires
        forall|i: int| 0 <= i < loans@.len() ==> loan_readable(#[trigger] loans@[i]),
    ensures
        is_avalanche_order(loans@, r.0@),
        is_snowball_order(loans@, r.1@),
{
    let mut av: Vec<PayoffKey> = Vec::new();
    let mut sn: Vec<SnowballKey> = Vec::new();
    let n = loans.len();
    let mut i: usize = 0;
    while i < n
        invariant
            0 <= i <= n,
            n == loans@.len(),
            forall|k: int| 0 <= k < loans@.len() ==> loan_readable(#[trigger] loans@[k]),
            av@ == avalanche_keys(loans@.subrange(0, i as int)),
            sn@ == snowball_keys(loans@.subrange(0, i as int)),
        decreases n - i,
    {
        let l = &loans[i];
        proof {
            assert(loan_readable(loans@[i as int]));
        }
        let rate = stored_value(&l.interest_rate);
        let principal = stored_value(&l.principal_outstanding);
        av.push(PayoffKey { id: l.id.clone(), rate, principal });
        sn.push(SnowballKey { id: l.id.clone(), principal });
        i = i + 1;
        assert(av@ =~= avalanche_keys(loans@.subrange(0, i as int)));
        assert(sn@ =~= snowball_keys(loans@.subrange(0, i as int)));
    }
    assert(loans@.subrange(0, n as int) =~= loans@);
    let av_sorted = sort_by_rank(av);
    let sn_sorted = sort_by_rank(sn);
    let mut avalanche: Vec<String> = Vec::new();
    let mut j: usize = 0;
    while j < av_sorted.len()
        invariant
            0 <= j <= av_sorted@.len(),
            avalanche@.len() == j,
            forall|k: int| 0 <= k < j ==> avalanche@[k] == (#[trigger] av_sorted@[k]).id,
        decreases av_sorted@.len() - j,
    {
        avalanche.push(av_sorted[j].id.clone());
        j = j + 1;
    }
    let mut snowball: Vec<String> = Vec::new();
    let mut j: usize = 0;
    while j < sn_sorted.len()
        invariant
            0 <= j <= sn_sorted@.len(),
            snowball@.len() == j,
            forall|k: int| 0 <= k < j ==> snowball@[k] == (#[trigger] sn_sorted@[k]).id,
        decreases sn_sorted@.len() - j,
    {
        snowball.push(sn_sorted[j].id.clone());
        j = j + 1;
    }
    (avalanche, snowball)
}

/// Position of the first verdict for the loan `id`, as the export looks a
/// loan's verdict up; `None` when no verdict names it.
pub fn classification_for(cs: &Vec<LoanClassification>, id: &str) -> (r: Option<usize>)
    ensures
        match r {
            Some(j) => j < cs@.len() && cs@[j as int].loan_id@ == id@ && forall|q: int|
                0 <= q < j ==> (#[trigger] cs@[q]).loan_id@ != id@,
            None => forall|q: int| 0 <= q < cs@.len() ==> (#[trigger] cs@[q]).loan_id@ != id@,
        },
{
    let n = cs.len();
    let mut j: usize = 0;
    while j < n
        invariant
            0 <= j <= n,
            n == cs@.len(),
            forall|q: int| 0 <= q < j ==> (#[trigger] cs@[q]).loan_id@ != id@,
        decreases n - j,
    {
        if str_eq(cs[j].loan_id.as_str(), id) {
            return Some(j);
        }
        j = j + 1;
    }
    None
}

/// What the summary of `ls` holds: the count, the totals and the weighted
/// rate in two-decimal form, one verdict per loan in order, and both payoff
/// orders.
pub open spec fn summary_of(ls: Seq<Loan>, r: LoansSummary) -> bool {
    &&& r.loan_count == ls.len() as u32
    &&& r.total_outstanding@ == cents_text(sum_seq(ls, principal_fn()))
    &&& r.total_monthly_emi@ == cents_text(sum_seq(ls, emi_fn()))
    &&& r.weighted_avg_rate@ == weighted_rate_text(ls)
    &&& r.classifications@.len() == ls.len()
    &&& forall|i: int|
        0 <= i < ls.len() ==> classification_ok(ls[i], #[trigger] r.classifications@[i])
    &&& is_avalanche_order(ls, r.avalanche_order@)
    &&& is_snowball_order(ls, r.snowball_order@)
}

/// Totals, weighted average rate, per-loan verdicts and both payoff
/// orderings.
pub fn summarise(loans: &Vec<Loan>) -> (r: LoansSummary)
    requires
        loans_in_range(loans@),
    ensures
        summary_of(loans@, r),
{
    let mut total_outstanding: i128 = 0;
    let mut total_emi: i128 = 0;
    let mut weighted: i128 = 0;
    let mut classifications: Vec<LoanClassification> = Vec::new();
    let n = loans.len();
    let mut i: usize = 0;
    while i < n
        invariant
            0 <= i <= n,
            n == loans@.len(),
            loans_in_range(loans@),
            total_outstanding == sum_seq(loans@.subrange(0, i as int), principal_fn()),
            total_emi == sum_seq(loans@.subrange(0, i as int), emi_fn()),
            weighted == sum_seq(loans@.subrange(0, i as int), rate_weight_fn()),
            classifications@.len() == i,
            forall|k: int|
                0 <= k < i ==> classification_ok(loans@[k], #[trigger] classifications@[k]),
        decreases n - i,
    {
        let l = &loans[i];
        proof {
            assert(loan_readable(loans@[i as int]));
            lemma_sum_seq_step(loans@, i as int, principal_fn());
            lemma_sum_seq_step(loans@, i as int, emi_fn());
            lemma_sum_seq_step(loans@, i as int, rate_weight_fn());
            lemma_sum_seq_abs_prefix(loans@, i + 1, principal_fn());
            lemma_sum_seq_abs_prefix(loans@, i + 1, emi_fn());
            lemma_sum_seq_abs_prefix(loans@, i + 1, rate_weight_fn());
            lemma_sum_seq_abs_element(loans@, i as int, rate_weight_fn());
        }
        let principal = stored_value(&l.principal_outstanding);
        let rate = stored_value(&l.interest_rate);
        let emi = stored_value(&l.emi);
        total_outstanding = total_outstanding + principal;
        total_emi = total_emi + emi;
        weighted = weighted + rate * principal;
        let eff = effective_rate_of(rate, l.tax_benefit);
        let (verdict, rationale) = classify(eff, l.tax_benefit, l.loan_type.as_str());
        classifications.push(
            LoanClassification {
                loan_id: l.id.clone(),
                verdict,
                effective_rate: format_cents(eff),
                rationale,
            },
        );
        i = i + 1;
    }
    proof {
        lemma_sum_seq_whole(loans@, principal_fn());
        lemma_sum_seq_whole(loans@, emi_fn());
        lemma_sum_seq_whole(loans@, rate_weight_fn());
        lemma_sum_seq_abs(loans@, principal_fn());
        lemma_sum_seq_abs(loans@, emi_fn());
        lemma_sum_seq_abs(loans@, rate_weight_fn());
    }
    let weighted_avg_rate = if total_outstanding > 0 {
        proof {
            reveal_with_fuel(pow10, 5);
            assert(abs(weighted as int) * 100 <= (MONEY_LIMIT - 1) * total_outstanding * 10000)
                by (nonlinear_arith)
                requires
                    abs(weighted as int) <= MONEY_LIMIT,
                    total_outstanding >= 1,
            ;
        }
        format_quotient(weighted, 4, total_outstanding, 2)
    } else {
        string_of("0.00")
    };
    let (avalanche_order, snowball_order) = payoff_orders(loans);
    LoansSummary {
        loan_count: loans.len() as u32,
        total_outstanding: format_cents(total_outstanding),
        total_monthly_emi: format_cents(total_emi),
        weighted_avg_rate,
        classifications,
        avalanche_order,
        snowball_order,
    }
}

// ---------------------------------------------------------------------------
// Creating, editing and deleting loans
// ---------------------------------------------------------------------------

/// A parsed amount as the decimal it is.
pub open spec fn as_decimal(t: (bool, u128, u32)) -> DecimalValue {
    DecimalValue { negative: t.0, mantissa: t.1, scale: t.2 }
}

/// `"Fixed"` or `"Floating"` for the rate type as typed (any case, any
/// surrounding space).
pub open spec fn rate_type_choice(raw: Seq<char>) -> Option<Seq<char>> {
    let n = normalize_label(raw);
    if n == "fixed"@ {
        Some("Fixed"@)
    } else if n == "floating"@ {
        Some("Floating"@)
    } else {
        None
    }
}

/// The id to edit: present and non-empty.
pub open spec fn target_id(id: Option<String>) -> Option<Seq<char>> {
    match id {
        Some(s) => if s@.len() > 0 {
            Some(s@)
        } else {
            None
        },
        None => None,
    }
}

/// Notes as stored: trimmed, and dropped when empty.
pub open spec fn stored_notes(notes: Option<String>) -> Option<Seq<char>> {
    match notes {
        Some(s) => if trim_seq(s@).len() > 0 {
            Some(trim_seq(s@))
        } else {
            None
        },
        None => None,
    }
}

/// The penalty text to parse: given and not blank.
pub open spec fn penalty_input(p: Option<String>) -> Option<Seq<char>> {
    match p {
        Some(s) => if trim_seq(s@).len() > 0 {
            Some(s@)
        } else {
            None
        },
        None => None,
    }
}

/// Index of the first loan with the id.
pub open spec fn find_loan(ls: Seq<Loan>, id: Seq<char>) -> Option<int>
    decreases ls.len(),
{
    if ls.len() == 0 {
        None
    } else if ls[0].id@ == id {
        Some(0)
    } else {
        match find_loan(ls.drop_first(), id) {
            Some(k) => Some(k + 1),
            None => None,
        }
    }
}

pub open spec fn target_check(ls: Seq<Loan>, spec: UpsertLoanSpec) -> Option<Seq<char>> {
    match target_id(spec.id) {
        Some(id) => if find_loan(ls, id).is_none() {
            Some("loan "@ + id + " not found"@)
        } else {
            None
        },
        None => None,
    }
}

/// Why an upsert is refused, checked in this order: missing type or
/// lender, unknown rate type, unparsable principal / rate / EMI, a negative
/// amount, a rate outside 0–60 %, an unparsable penalty, an unknown id.
pub open spec fn loan_upsert_error(ls: Seq<Loan>, spec: UpsertLoanSpec) -> Option<Seq<char>> {
    if trim_seq(spec.loan_type@).len() == 0 || trim_seq(spec.lender@).len() == 0 {
        Some("loan type and lender are required"@)
    } else if rate_type_choice(spec.rate_type@).is_none() {
        Some("rate type must be Fixed or Floating"@)
    } else {
        match parse_amount_result(spec.principal_outstanding@, "principal outstanding"@) {
            Err(e) => Some(e),
            Ok(p) => match parse_amount_result(spec.interest_rate@, "interest rate"@) {
                Err(e) => Some(e),
                Ok(r) => match parse_amount_result(spec.emi@, "EMI"@) {
                    Err(e) => Some(e),
                    Ok(m) => if as_decimal(p).is_negative() || as_decimal(m).is_negative() {
                        Some("amounts must be non-negative"@)
                    } else if as_decimal(r).is_negative() || as_decimal(r).exceeds(60) {
                        Some("interest rate must be between 0 and 60 percent"@)
                    } else {
                        match penalty_input(spec.prepayment_penalty_pct) {
                            Some(ps) => match parse_amount_result(ps, "prepayment penalty"@) {
                                Err(e) => Some(e),
                                Ok(_) => target_check(ls, spec),
                            },
                            None => target_check(ls, spec),
                        }
                    },
                },
            },
        }
    }
}

/// The two-decimal text a field is stored as (only meaningful once the
/// field parsed).
pub open spec fn stored_text(raw: Seq<char>, label: Seq<char>) -> Seq<char> {
    as_decimal(parse_amount_result(raw, label)->Ok_0).text2()
}

pub open spec fn penalty_text(p: Option<String>) -> Seq<char> {
    match penalty_input(p) {
        Some(ps) => stored_text(ps, "prepayment penalty"@),
        None => "0.00"@,
    }
}

/// The loan as written by an accepted upsert (every field but the id).
pub open spec fn loan_written(loan: Loan, spec: UpsertLoanSpec, now: Seq<char>) -> bool {
    &&& loan.loan_type@ == trim_seq(spec.loan_type@)
    &&& loan.lender@ == trim_seq(spec.lender@)
    &&& loan.principal_outstanding@ == stored_text(spec.principal_outstanding@, "principal outstanding"@)
    &&& loan.interest_rate@ == stored_text(spec.interest_rate@, "interest rate"@)
    &&& loan.rate_type@ == rate_type_choice(spec.rate_type@)->0
    &&& loan.remaining_tenure_months == spec.remaining_tenure_months
    &&& loan.emi@ == stored_text(spec.emi@, "EMI"@)
    &&& loan.prepayment_penalty_pct@ == penalty_text(spec.prepayment_penalty_pct)
    &&& loan.tax_benefit == spec.tax_benefit
    &&& loan.start_date == spec.start_date
    &&& loan.next_due_date == spec.next_due_date
    &&& opt_view(loan.notes) == stored_notes(spec.notes)
    &&& loan.last_updated_at@ == now
}

/// The loans after an accepted upsert, and the loan it returns: the edited
/// loan replaced in place, or the new loan (with `new_id`) appended.
pub open spec fn loan_upsert_done(
    before: Seq<Loan>,
    after: Seq<Loan>,
    spec: UpsertLoanSpec,
    loan: Loan,
    now: Seq<char>,
    new_id: Seq<char>,
) -> bool {
    &&& loan_upsert_error(before, spec).is_none()
    &&& loan_written(loan, spec, now)
    &&& match target_id(spec.id) {
        Some(id) => {
            let k = find_loan(before, id)->0;
            &&& loan.id == before[k].id
            &&& after == before.update(k, loan)
        },
        None => {
            &&& loan.id@ == new_id
            &&& after == before.push(loan)
        },
    }
}

fn copy_opt(o: &Option<String>) -> (r: Option<String>)
    ensures
        r == *o,
{
    match o {
        Some(s) => Some(s.clone()),
        None => None,
    }
}

fn copy_loan(l: &Loan) -> (r: Loan)
    ensures
        r == *l,
{
    Loan {
        id: l.id.clone(),
        loan_type: l.loan_type.clone(),
        lender: l.lender.clone(),
        principal_outstanding: l.principal_outstanding.clone(),
        interest_rate: l.interest_rate.clone(),
        rate_type: l.rate_type.clone(),
        remaining_tenure_months: l.remaining_tenure_months,
        emi: l.emi.clone(),
        prepayment_penalty_pct: l.prepayment_penalty_pct.clone(),
        tax_benefit: l.tax_benefit,
        start_date: l.start_date.clone(),
        next_due_date: l.next_due_date.clone(),
        notes: copy_opt(&l.notes),
        last_updated_at: l.last_updated_at.clone(),
    }
}

fn find_loan_index(ls: &Vec<Loan>, id: &str) -> (r: Option<usize>)
    ensures
        match r {
            Some(k) => find_loan(ls@, id@) == Some(k as int) && k < ls@.len(),
            None => find_loan(ls@, id@).is_none(),
        },
{
    let n = ls.len();
    let mut i: usize = 0;
    assert(ls@.subrange(0, n as int) =~= ls@);
    while i < n
        invariant
            0 <= i <= n,
            n == ls@.len(),
            find_loan(ls@, id@) == match find_loan(ls@.subrange(i as int, n as int), id@) {
                Some(k) => Some(k + i),
                None => None,
            },
        decreases n - i,
    {
        let ghost tail = ls@.subrange(i as int, n as int);
        assert(tail[0] == ls@[i as int]);
        assert(tail.drop_first() =~= ls@.subrange(i + 1, n as int));
        if str_eq(ls[i].id.as_str(), id) {
            return Some(i);
        }
        i = i + 1;
    }
    None
}

fn target_id_exec(id: &Option<String>) -> (r: Option<&str>)
    ensures
        match r {
            Some(s) => target_id(*id) == Some(s@),
            None => target_id(*id).is_none(),
        },
{
    match id {
        Some(s) => if s.as_str().unicode_len() > 0 {
            Some(s.as_str())
        } else {
            None
        },
        None => None,
    }
}

pub fn notes_exec(notes: &Option<String>) -> (r: Option<String>)
    ensures
        opt_view(r) == stored_notes(*notes),
{
    match notes {
        Some(s) => {
            let t = trim(s.as_str());
            if t.unicode_len() > 0 {
                Some(string_of(t))
            } else {
                None
            }
        },
        None => None,
    }
}

fn rate_type_exec(raw: &str) -> (r: Option<&'static str>)
    ensures
        match r {
            Some(t) => rate_type_choice(raw@) == Some(t@),
            None => rate_type_choice(raw@).is_none(),
        },
{
    let n = normalized_label(raw);
    if str_eq(n.as_str(), "fixed") {
        Some("Fixed")
    } else if str_eq(n.as_str(), "floating") {
        Some("Floating")
    } else {
        None
    }
}

/// Creates (no id) or edits (existing id) a loan in `doc`, stamping it with
/// `now`; a new loan gets `new_id`. On refusal `doc` is left as it was.
pub fn apply_loan_upsert(doc: &mut LoansDoc, spec: UpsertLoanSpec, now: String, new_id: String) -> (r: Result<Loan, String>)
    ensures
        match r {
            Ok(loan) => loan_upsert_done(old(doc).loans@, final(doc).loans@, spec, loan, now@, new_id@),
            Err(e) => loan_upsert_error(old(doc).loans@, spec) == Some(e@) && *final(doc) == *old(doc),
        },
{
    let loan_type = trim(spec.loan_type.as_str());
    let lender = trim(spec.lender.as_str());
    if loan_type.unicode_len() == 0 || lender.unicode_len() == 0 {
        return Err(string_of("loan type and lender are required"));
    }
    let rate_type = match rate_type_exec(spec.rate_type.as_str()) {
        Some(t) => t,
        None => {
            return Err(string_of("rate type must be Fixed or Floating"));
        },
    };
    let principal = match parse_amount(spec.principal_outstanding.as_str(), "principal outstanding") {
        Ok(d) => d,
        Err(e) => {
            return Err(e);
        },
    };
    let rate = match parse_amount(spec.interest_rate.as_str(), "interest rate") {
        Ok(d) => d,
        Err(e) => {
            return Err(e);
        },
    };
    let emi = match parse_amount(spec.emi.as_str(), "EMI") {
        Ok(d) => d,
        Err(e) => {
            return Err(e);
        },
    };
    if principal.is_negative_exec() || emi.is_negative_exec() {
        return Err(string_of("amounts must be non-negative"));
    }
    if rate.is_negative_exec() || rate.exceeds_exec(60) {
        return Err(string_of("interest rate must be between 0 and 60 percent"));
    }
    let penalty_given = match &spec.prepayment_penalty_pct {
        Some(ps) => trim(ps.as_str()).unicode_len() > 0,
        None => false,
    };
    let penalty_text = if penalty_given {
        let ps = spec.prepayment_penalty_pct.as_ref().unwrap();
        match parse_amount(ps.as_str(), "prepayment penalty") {
            Ok(d) => d.to_text2(),
            Err(e) => {
                return Err(e);
            },
        }
    } else {
        string_of("0.00")
    };
    let target = match target_id_exec(&spec.id) {
        Some(id) => match find_loan_index(&doc.loans, id) {
            Some(k) => Some(k),
            None => {
                let mut msg = string_of("loan ");
                msg.append(id);
                msg.append(" not found");
                return Err(msg);
            },
        },
        None => None,
    };
    let notes = notes_exec(&spec.notes);
    let id = match target {
        Some(k) => doc.loans[k].id.clone(),
        None => new_id,
    };
    let loan = Loan {
        id,
        loan_type: string_of(loan_type),
        lender: string_of(lender),
        principal_outstanding: principal.to_text2(),
        interest_rate: rate.to_text2(),
        rate_type: string_of(rate_type),
        remaining_tenure_months: spec.remaining_tenure_months,
        emi: emi.to_text2(),
        prepayment_penalty_pct: penalty_text,
        tax_benefit: spec.tax_benefit,
        start_date: spec.start_date,
        next_due_date: spec.next_due_date,
        notes,
        last_updated_at: now,
    };
    let out = copy_loan(&loan);
    match target {
        Some(k) => {
            doc.loans.set(k, loan);
        },
        None => {
            doc.loans.push(loan);
        },
    }
    Ok(out)
}

/// Creates or edits a loan, stamped with the current time; a new loan gets a
/// fresh random id `loan:` followed by twelve hex digits.
pub fn upsert_loan(doc: &mut LoansDoc, spec: UpsertLoanSpec) -> (r: Result<Loan, String>)
    ensures
        match r {
            Ok(loan) => exists|now: Seq<char>, b: Seq<u8>|
                b.len() == 6 && loan_upsert_done(
                    old(doc).loans@,
                    final(doc).loans@,
                    spec,
                    loan,
                    now,
                    "loan:"@ + hex_text(b),
                ),
            Err(e) => loan_upsert_error(old(doc).loans@, spec) == Some(e@) && *final(doc) == *old(doc),
        },
{
    let now = now_rfc3339();
    let new_id = random_id("loan:");
    apply_loan_upsert(doc, spec, now, new_id)
}

/// The loans left after removing every loan with the id.
pub open spec fn without_loan(ls: Seq<Loan>, id: Seq<char>) -> Seq<Loan>
    decreases ls.len(),
{
    if ls.len() == 0 {
        ls
    } else if ls.last().id@ == id {
        without_loan(ls.drop_last(), id)
    } else {
        without_loan(ls.drop_last(), id).push(ls.last())
    }
}

/// Removes the loan(s) with the id; refused, with `doc` unchanged, when no
/// loan has it.
pub fn delete_loan(doc: &mut LoansDoc, id: &str) -> (r: Result<(), String>)
    ensures
        match r {
            Ok(()) => find_loan(old(doc).loans@, id@).is_some() && final(doc).loans@ == without_loan(
                old(doc).loans@,
                id@,
            ),
            Err(e) => find_loan(old(doc).loans@, id@).is_none() && e@ == "loan "@ + id@
                + " not found"@ && *final(doc) == *old(doc),
        },
{
    let ghost before = doc.loans@;
    let mut kept: Vec<Loan> = Vec::new();
    let n = doc.loans.len();
    let mut i: usize = 0;
    while i < n
        invariant
            0 <= i <= n,
            n == before.len(),
            doc.loans@ == before,
            kept@ == without_loan(before.subrange(0, i as int), id@),
        decreases n - i,
    {
        assert(before.subrange(0, i + 1).drop_last() =~= before.subrange(0, i as int));
        if !str_eq(doc.loans[i].id.as_str(), id) {
            kept.push(copy_loan(&doc.loans[i]));
        }
        i = i + 1;
    }
    assert(before.subrange(0, n as int) =~= before);
    proof {
        lemma_without_loan_len(before, id@);
    }
    if kept.len() == n {
        let mut msg = string_of("loan ");
        msg.append(id);
        msg.append(" not found");
        return Err(msg);
    }
    doc.loans = kept;
    Ok(())
}

proof fn lemma_without_loan_len(ls: Seq<Loan>, id: Seq<char>)
    ensures
        without_loan(ls, id).len() <= ls.len(),
        without_loan(ls, id).len() == ls.len() <==> find_loan(ls, id).is_none(),
    decreases ls.len(),
{
    if ls.len() > 0 {
        lemma_without_loan_len(ls.drop_last(), id);
        lemma_find_loan_last(ls, id);
    }
}

proof fn lemma_find_loan_last(ls: Seq<Loan>, id: Seq<char>)
    requires
        ls.len() > 0,
    ensures
        find_loan(ls, id).is_none() <==> (find_loan(ls.drop_last(), id).is_none() && ls.last().id@ != id),
    decreases ls.len(),
{
    if ls.len() > 1 {
        lemma_find_loan_last(ls.drop_first(), id);
        assert(ls.drop_first().drop_last() =~= ls.drop_last().drop_first());
        assert(ls.drop_first().last() == ls.last());
        assert(ls.drop_last()[0] == ls[0]);
        let a = ls.drop_last();
        assert(find_loan(a, id).is_none() <==> (a[0].id@ != id && find_loan(a.drop_first(), id).is_none()));
        assert(find_loan(ls, id).is_none() <==> (ls[0].id@ != id && find_loan(ls.drop_first(), id).is_none()));
    } else {
        assert(ls.drop_first().len() == 0);
        assert(ls.drop_last().len() == 0);
        assert(ls.last() == ls[0]);
    }
}

/// A loan's EMI as stored, or zero when the stored text is not in the
/// two-decimal form.
pub open spec fn emi_or_zero(l: Loan) -> int {
    match stored_cents(l.emi@) {
        Some(v) => v,
        None => 0,
    }
}

pub open spec fn emi_or_zero_fn() -> spec_fn(Loan) -> int {
    |l: Loan| emi_or_zero(l)
}

/// Sum of EMIs across all loans, for the dashboard's debt-burden driver;
/// zero with no loans, and an unreadable EMI counts as zero.
pub fn total_monthly_emi(loans: &Vec<Loan>) -> (r: i128)
    requires
        sum_seq(loans@, abs_fn(emi_or_zero_fn())) <= MONEY_LIMIT,
    ensures
        r == sum_seq(loans@, emi_or_zero_fn()),
{
    let mut total: i128 = 0;
    let n = loans.len();
    let mut i: usize = 0;
    while i < n
        invariant
            0 <= i <= n,
            n == loans@.len(),
            sum_seq(loans@, abs_fn(emi_or_zero_fn())) <= MONEY_LIMIT,
            total == sum_seq(loans@.subrange(0, i as int), emi_or_zero_fn()),
        decreases n - i,
    {
        proof {
            lemma_sum_seq_step(loans@, i as int, emi_or_zero_fn());
            lemma_sum_seq_abs_prefix(loans@, i + 1, emi_or_zero_fn());
        }
        let v = match parse_stored_cents(loans[i].emi.as_str()) {
            Some(v) => v,
            None => 0,
        };
        total = total + v;
        i = i + 1;
    }
    proof {
        lemma_sum_seq_whole(loans@, emi_or_zero_fn());
    }
    total
}

/// Whether `a + b * c`, for magnitudes, stays within `MONEY_LIMIT`; the
/// product is computed only when it cannot overflow.
fn add_product_within(a: u128, b: u128, c: u128) -> (r: Option<u128>)
    requires
        a <= MONEY_LIMIT,
    ensures
        match r {
            Some(t) => t == a + b * c && t <= MONEY_LIMIT,
            None => a + b * c > MONEY_LIMIT,
        },
{
    let room: u128 = (MONEY_LIMIT as u128) - a;
    if b == 0 {
        proof {
            assert(b * c == 0) by (nonlinear_arith)
                requires
                    b == 0,
            ;
        }
        return Some(a);
    }
    if c > room / b {
        proof {
            assert(b * c > room) by (nonlinear_arith)
                requires
                    b > 0,
                    c > room / b,
                    room >= 0,
            ;
        }
        None
    } else {
        proof {
            assert(b * c <= room) by (nonlinear_arith)
                requires
                    b > 0,
                    c <= room / b,
                    room >= 0,
            ;
        }
        Some(a + b * c)
    }
}

/// Whether `loans` meet what the summary needs (see [`loans_in_range`]):
/// every amount readable and the totals within a `Decimal`.
pub fn loans_summarisable(loans: &Vec<Loan>) -> (r: bool)
    ensures
        r == loans_in_range(loans@),
{
    let n = loans.len();
    let mut tp: u128 = 0;
    let mut te: u128 = 0;
    let mut tw: u128 = 0;
    let mut i: usize = 0;
    while i < n
        invariant
            0 <= i <= n,
            n == loans@.len(),
            forall|q: int| 0 <= q < i ==> loan_readable(#[trigger] loans@[q]),
            tp == sum_seq(loans@.subrange(0, i as int), abs_fn(principal_fn())),
            te == sum_seq(loans@.subrange(0, i as int), abs_fn(emi_fn())),
            tw == sum_seq(loans@.subrange(0, i as int), abs_fn(rate_weight_fn())),
            tp <= MONEY_LIMIT,
            te <= MONEY_LIMIT,
            tw <= MONEY_LIMIT,
        decreases n - i,
    {
        let l = &loans[i];
        proof {
            lemma_sum_seq_step(loans@, i as int, abs_fn(principal_fn()));
            lemma_sum_seq_step(loans@, i as int, abs_fn(emi_fn()));
            lemma_sum_seq_step(loans@, i as int, abs_fn(rate_weight_fn()));
            lemma_sum_seq_abs_prefix(loans@, i + 1, principal_fn());
            lemma_sum_seq_abs_prefix(loans@, i + 1, emi_fn());
            lemma_sum_seq_abs_prefix(loans@, i + 1, rate_weight_fn());
        }
        let p = match read_stored_amount(l.principal_outstanding.as_str()) {
            Some(v) => v,
            None => {
                return false;
            },
        };
        let rate = match read_stored_amount(l.interest_rate.as_str()) {
            Some(v) => v,
            None => {
                return false;
            },
        };
        let e = match read_stored_amount(l.emi.as_str()) {
            Some(v) => v,
            None => {
                return false;
            },
        };
        let pm = magnitude(p);
        let rm = magnitude(rate);
        let em = magnitude(e);
        proof {
            assert(abs(rate as int * p as int) == rm * pm) by (nonlinear_arith)
                requires
                    rm == abs(rate as int),
                    pm == abs(p as int),
            ;
        }
        match add_product_within(tp, pm, 1) {
            Some(t) => {
                tp = t;
            },
            None => {
                return false;
            },
        }
        match add_product_within(te, em, 1) {
            Some(t) => {
                te = t;
            },
            None => {
                return false;
            },
        }
        match add_product_within(tw, rm, pm) {
            Some(t) => {
                tw = t;
            },
            None => {
                return false;
            },
        }
        i = i + 1;
    }
    proof {
        lemma_sum_seq_whole(loans@, abs_fn(principal_fn()));
        lemma_sum_seq_whole(loans@, abs_fn(emi_fn()));
        lemma_sum_seq_whole(loans@, abs_fn(rate_weight_fn()));
    }
    true
}

/// The summary when every stored amount reads as a decimal in whole paise
/// and the totals stay within range; `None` otherwise.
pub fn summarise_if_readable(loans: &Vec<Loan>) -> (r: Option<LoansSummary>)
    ensures
        r is Some <==> loans_in_range(loans@),
        match r {
            Some(s) => summary_of(loans@, s),
            None => true,
        },
{
    if loans_summarisable(loans) {
        Some(summarise(loans))
    } else {
        None
    }
}

} // verus!
