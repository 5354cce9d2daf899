//! Dashboard aggregation over every imported statement row.
//!
//! Money classification:
//! - **Income**: rows filed under `Salary`, `Dividend`, `Interest`,
//!   `Refund`, `Bonus`, `Cashback`.
//! - **Transfer**: `Credit Card Payment`, `CC Payment`, `Bank Transfer`;
//!   excluded from both income and expense and counted separately.
//! - **Investment**: SIPs, mutual funds, deposits and the like; outflows are
//!   not expense, inflows are income.
//! - **Expense**: everything else, including `ATM / Cash`.

use crate::text::{
    lemma_text_less_negative_transitive,
    lemma_text_less_irreflexive, lemma_text_less_total, lemma_text_less_transitive,
    nat_string, nat_text, normalize_label, ascii_text, ascii_normalized, lemma_ascii_normalized_idempotent, normalized_label, opt_view, str_eq, str_less,
    string_of, text_less,
};
use crate::money::{
    abs, cents_parts, cents_text, decimal_div, decimal_mul, decimal_product, decimal_quotient,
    format_cents, lemma_pow10_mono, parts_text2, pow10, DecimalValue,
    MONEY_LIMIT,
};
use crate::transactions::{
    amount_value, credit_of, debit_of, label_of, lemma_abs_total_prefix, lemma_partition,
    lemma_sum_by_bounded, lemma_sum_by_count, lemma_sum_by_step, lemma_sum_by_whole, restricts,
    row_label, row_weight, rows_in_range, sum_by, sum_over_categories, weight_fn, TxnRow,
};
use crate::sorting::{lemma_same_elements, sort_by_rank, sorted_by_rank, Ranked};
use crate::upload;
use vstd::prelude::*;

verus! {

#[derive(Clone, Copy, Debug, PartialEq, Eq, Structural)]
pub enum CategoryKind {
    Income,
    Expense,
    Transfer,
    /// Wealth-building outflow: cash leaves the account but goes into an
    /// asset, so it is not expense.
    Investment,
}

/// The kind as the UI is told it: `income`, `expense` or `transfer`. An
/// investment outflow moves money into an asset the user owns, so it is
/// reported with the own-account moves, as `transfer`.
pub open spec fn kind_name(k: CategoryKind) -> Seq<char> {
    match k {
        CategoryKind::Income => "income"@,
        CategoryKind::Expense => "expense"@,
        CategoryKind::Transfer => "transfer"@,
        CategoryKind::Investment => "transfer"@,
    }
}

impl CategoryKind {
    pub fn as_str(self) -> (r: &'static str)
        ensures
            r@ == kind_name(self),
    {
        match self {
            CategoryKind::Income => "income",
            CategoryKind::Expense => "expense",
            CategoryKind::Transfer => "transfer",
            CategoryKind::Investment => "transfer",
        }
    }
}

pub open spec fn is_income_name(n: Seq<char>) -> bool {
    n == "salary"@ || n == "dividend"@ || n == "interest"@ || n == "refund"@ || n == "bonus"@ || n
        == "cashback"@
}

pub open spec fn is_transfer_name(n: Seq<char>) -> bool {
    n == "credit card payment"@ || n == "cc payment"@ || n == "bank transfer"@
}

pub open spec fn is_investment_name(n: Seq<char>) -> bool {
    n == "investments"@ || n == "investment"@ || n == "sip"@ || n == "sips"@ || n
        == "mutual fund"@ || n == "mutual funds"@ || n == "mf"@ || n == "elss"@ || n == "ppf"@
        || n == "nps"@ || n == "equity"@ || n == "stocks"@ || n == "fixed deposit"@ || n
        == "fd"@ || n == "recurring deposit"@ || n == "rd"@
}

/// Kind of a normalized (trimmed, lowercased) category label; anything not
/// recognised is expense.
pub open spec fn kind_of_name(n: Seq<char>) -> CategoryKind {
    if is_income_name(n) {
        CategoryKind::Income
    } else if is_transfer_name(n) {
        CategoryKind::Transfer
    } else if is_investment_name(n) {
        CategoryKind::Investment
    } else {
        CategoryKind::Expense
    }
}

/// Kind of a category label as the user wrote it.
pub open spec fn kind_of_label(label: Seq<char>) -> CategoryKind {
    kind_of_name(normalize_label(label))
}

/// Classify a category label into income / expense / transfer / investment.
/// Comparison ignores surrounding whitespace and letter case.
pub fn classify_category(category: &str) -> (r: CategoryKind)
    ensures
        r == kind_of_label(category@),
        ascii_text(category@) ==> r == kind_of_name(ascii_normalized(category@)),
{
    let owned = normalized_label(category);
    let n = owned.as_str();
    if str_eq(n, "salary") || str_eq(n, "dividend") || str_eq(n, "interest") || str_eq(
        n,
        "refund",
    ) || str_eq(n, "bonus") || str_eq(n, "cashback") {
        return CategoryKind::Income;
    }
    if str_eq(n, "credit card payment") || str_eq(n, "cc payment") || str_eq(n, "bank transfer") {
        return CategoryKind::Transfer;
    }
    if str_eq(n, "investments") || str_eq(n, "investment") || str_eq(n, "sip") || str_eq(n, "sips")
        || str_eq(n, "mutual fund") || str_eq(n, "mutual funds") || str_eq(n, "mf") || str_eq(
        n,
        "elss",
    ) || str_eq(n, "ppf") || str_eq(n, "nps") || str_eq(n, "equity") || str_eq(n, "stocks")
        || str_eq(n, "fixed deposit") || str_eq(n, "fd") || str_eq(n, "recurring deposit")
        || str_eq(n, "rd") {
        return CategoryKind::Investment;
    }
    CategoryKind::Expense
}

/// Recurring needs that are hard to compress without a lifestyle change
/// (normalized label).
pub open spec fn is_essential_name(n: Seq<char>) -> bool {
    n == "rent"@ || n == "electricity"@ || n == "gas"@ || n == "water"@ || n == "mobile"@ || n
        == "internet"@ || n == "groceries"@ || n == "food"@ || n == "meals"@ || n
        == "maintenance"@ || n == "insurance"@ || n == "bills"@ || n == "loan emi"@ || n
        == "loans"@ || n == "emi"@ || n == "tax"@ || n == "taxes"@ || n == "train travel"@ || n
        == "fuel"@
}

pub open spec fn essential_label(label: Seq<char>) -> bool {
    is_essential_name(normalize_label(label))
}

/// Whether a category counts as essential spend; case-insensitive and
/// synonym-aware.
pub fn is_essential(category: &str) -> (r: bool)
    ensures
        r == essential_label(category@),
        ascii_text(category@) ==> r == is_essential_name(ascii_normalized(category@)),
{
    let owned = normalized_label(category);
    let n = owned.as_str();
    str_eq(n, "rent") || str_eq(n, "electricity") || str_eq(n, "gas") || str_eq(n, "water")
        || str_eq(n, "mobile") || str_eq(n, "internet") || str_eq(n, "groceries") || str_eq(
        n,
        "food",
    ) || str_eq(n, "meals") || str_eq(n, "maintenance") || str_eq(n, "insurance") || str_eq(
        n,
        "bills",
    ) || str_eq(n, "loan emi") || str_eq(n, "loans") || str_eq(n, "emi") || str_eq(n, "tax")
        || str_eq(n, "taxes") || str_eq(n, "train travel") || str_eq(n, "fuel")
}

/// Classifying a label that is already normalized (trimmed and lowercased)
/// gives the same kind, and the same essential verdict, as classifying the
/// label it came from: normalizing twice changes nothing. Stated for labels
/// written in ASCII, where the lowercase mapping is known character by
/// character.
pub proof fn law_classify_normalized_label(label: Seq<char>)
    requires
        ascii_text(label),
    ensures
        ascii_text(ascii_normalized(label)),
        kind_of_name(ascii_normalized(ascii_normalized(label))) == kind_of_name(
            ascii_normalized(label),
        ),
        is_essential_name(ascii_normalized(ascii_normalized(label))) == is_essential_name(
            ascii_normalized(label),
        ),
{
    lemma_ascii_normalized_idempotent(label);
}

/// Law: the kind a category label gets, by its trimmed, lowercased name.
/// Income names: salary, dividend, interest, refund, bonus, cashback.
/// Transfer names (own-account moves, counted neither as income nor as
/// expense): credit card payment, cc payment, bank transfer. Investment
/// names: investments, investment, sip, sips, mutual fund(s), mf, elss, ppf,
/// nps, equity, stocks, fixed deposit, fd, recurring deposit, rd. Every
/// other label is an expense.
pub proof fn law_category_kinds(label: Seq<char>)
    ensures
        ({
            let n = normalize_label(label);
            kind_of_label(label) == CategoryKind::Income <==> (
                n == "salary"@ || n == "dividend"@ || n == "interest"@ || n == "refund"@
                || n == "bonus"@ || n == "cashback"@
            )
        }),
        ({
            let n = normalize_label(label);
            kind_of_label(label) == CategoryKind::Transfer <==> (
                n == "credit card payment"@ || n == "cc payment"@ || n == "bank transfer"@
            )
        }),
        ({
            let n = normalize_label(label);
            kind_of_label(label) == CategoryKind::Investment <==> (
                n == "investments"@ || n == "investment"@ || n == "sip"@ || n == "sips"@
                || n == "mutual fund"@ || n == "mutual funds"@ || n == "mf"@ || n == "elss"@
                || n == "ppf"@ || n == "nps"@ || n == "equity"@ || n == "stocks"@
                || n == "fixed deposit"@ || n == "fd"@ || n == "recurring deposit"@
                || n == "rd"@
            )
        }),
        ({
            let n = normalize_label(label);
            kind_of_label(label) == CategoryKind::Expense <==> !(
                n == "salary"@ || n == "dividend"@ || n == "interest"@ || n == "refund"@
                || n == "bonus"@ || n == "cashback"@ || n == "credit card payment"@
                || n == "cc payment"@ || n == "bank transfer"@ || n == "investments"@
                || n == "investment"@ || n == "sip"@ || n == "sips"@ || n == "mutual fund"@
                || n == "mutual funds"@ || n == "mf"@ || n == "elss"@ || n == "ppf"@
                || n == "nps"@ || n == "equity"@ || n == "stocks"@ || n == "fixed deposit"@
                || n == "fd"@ || n == "recurring deposit"@ || n == "rd"@
            )
        }),
{
    let n = normalize_label(label);
    reveal_strlit("salary");
    reveal_strlit("dividend");
    reveal_strlit("interest");
    reveal_strlit("refund");
    reveal_strlit("bonus");
    reveal_strlit("cashback");
    reveal_strlit("credit card payment");
    reveal_strlit("cc payment");
    reveal_strlit("bank transfer");
    reveal_strlit("investments");
    reveal_strlit("investment");
    reveal_strlit("sip");
    reveal_strlit("sips");
    reveal_strlit("mutual fund");
    reveal_strlit("mutual funds");
    reveal_strlit("mf");
    reveal_strlit("elss");
    reveal_strlit("ppf");
    reveal_strlit("nps");
    reveal_strlit("equity");
    reveal_strlit("stocks");
    reveal_strlit("fixed deposit");
    reveal_strlit("fd");
    reveal_strlit("recurring deposit");
    reveal_strlit("rd");
    if n == "salary"@ {
        assert(n.len() == 6 && n[0] == 's' && n[1] == 'a' && n[2] == 'l');
    } else if n == "dividend"@ {
        assert(n.len() == 8 && n[0] == 'd' && n[1] == 'i' && n[2] == 'v');
    } else if n == "interest"@ {
        assert(n.len() == 8 && n[0] == 'i' && n[1] == 'n' && n[2] == 't');
    } else if n == "refund"@ {
        assert(n.len() == 6 && n[0] == 'r' && n[1] == 'e' && n[2] == 'f');
    } else if n == "bonus"@ {
        assert(n.len() == 5 && n[0] == 'b' && n[1] == 'o' && n[2] == 'n');
    } else if n == "cashback"@ {
        assert(n.len() == 8 && n[0] == 'c' && n[1] == 'a' && n[2] == 's');
    } else if n == "credit card payment"@ {
        assert(n.len() == 19 && n[0] == 'c' && n[1] == 'r' && n[2] == 'e');
    } else if n == "cc payment"@ {
        assert(n.len() == 10 && n[0] == 'c' && n[1] == 'c' && n[2] == ' ');
    } else if n == "bank transfer"@ {
        assert(n.len() == 13 && n[0] == 'b' && n[1] == 'a' && n[2] == 'n');
    } else if n == "investments"@ {
        assert(n.len() == 11 && n[0] == 'i' && n[1] == 'n' && n[2] == 'v');
    } else if n == "investment"@ {
        assert(n.len() == 10 && n[0] == 'i' && n[1] == 'n' && n[2] == 'v');
    } else if n == "sip"@ {
        assert(n.len() == 3 && n[0] == 's' && n[1] == 'i' && n[2] == 'p');
    } else if n == "sips"@ {
        assert(n.len() == 4 && n[0] == 's' && n[1] == 'i' && n[2] == 'p');
    } else if n == "mutual fund"@ {
        assert(n.len() == 11 && n[0] == 'm' && n[1] == 'u' && n[2] == 't');
    } else if n == "mutual funds"@ {
        assert(n.len() == 12 && n[0] == 'm' && n[1] == 'u' && n[2] == 't');
    } else if n == "mf"@ {
        assert(n.len() == 2 && n[0] == 'm' && n[1] == 'f');
    } else if n == "elss"@ {
        assert(n.len() == 4 && n[0] == 'e' && n[1] == 'l' && n[2] == 's');
    } else if n == "ppf"@ {
        assert(n.len() == 3 && n[0] == 'p' && n[1] == 'p' && n[2] == 'f');
    } else if n == "nps"@ {
        assert(n.len() == 3 && n[0] == 'n' && n[1] == 'p' && n[2] == 's');
    } else if n == "equity"@ {
        assert(n.len() == 6 && n[0] == 'e' && n[1] == 'q' && n[2] == 'u');
    } else if n == "stocks"@ {
        assert(n.len() == 6 && n[0] == 's' && n[1] == 't' && n[2] == 'o');
    } else if n == "fixed deposit"@ {
        assert(n.len() == 13 && n[0] == 'f' && n[1] == 'i' && n[2] == 'x');
    } else if n == "fd"@ {
        assert(n.len() == 2 && n[0] == 'f' && n[1] == 'd');
    } else if n == "recurring deposit"@ {
        assert(n.len() == 17 && n[0] == 'r' && n[1] == 'e' && n[2] == 'c');
    } else if n == "rd"@ {
        assert(n.len() == 2 && n[0] == 'r' && n[1] == 'd');
    }
}

/// Law: the essential categories, by trimmed, lowercased name: rent,
/// electricity, gas, water, mobile, internet, groceries, food, meals,
/// maintenance, insurance, bills, loan emi, loans, emi, tax, taxes, train
/// travel, fuel. Nothing else is essential, and every essential category is
/// an expense.
pub proof fn law_essential_categories(label: Seq<char>)
    ensures
        ({
            let n = normalize_label(label);
            essential_label(label) <==> (
                n == "rent"@ || n == "electricity"@ || n == "gas"@ || n == "water"@
                || n == "mobile"@ || n == "internet"@ || n == "groceries"@ || n == "food"@
                || n == "meals"@ || n == "maintenance"@ || n == "insurance"@ || n == "bills"@
                || n == "loan emi"@ || n == "loans"@ || n == "emi"@ || n == "tax"@
                || n == "taxes"@ || n == "train travel"@ || n == "fuel"@
            )
        }),
        essential_label(label) ==> kind_of_label(label) == CategoryKind::Expense,
{
    law_essential_is_expense(label);
}

/// An essential category is always an expense: none of the essential names
/// is an income, transfer or investment name.
pub proof fn law_essential_is_expense(label: Seq<char>)
    ensures
        essential_label(label) ==> kind_of_label(label) == CategoryKind::Expense,
{
    let n = normalize_label(label);
    reveal_strlit("salary");
    reveal_strlit("dividend");
    reveal_strlit("interest");
    reveal_strlit("refund");
    reveal_strlit("bonus");
    reveal_strlit("cashback");
    reveal_strlit("credit card payment");
    reveal_strlit("cc payment");
    reveal_strlit("bank transfer");
    reveal_strlit("investments");
    reveal_strlit("investment");
    reveal_strlit("sip");
    reveal_strlit("sips");
    reveal_strlit("mutual fund");
    reveal_strlit("mutual funds");
    reveal_strlit("mf");
    reveal_strlit("elss");
    reveal_strlit("ppf");
    reveal_strlit("nps");
    reveal_strlit("equity");
    reveal_strlit("stocks");
    reveal_strlit("fixed deposit");
    reveal_strlit("fd");
    reveal_strlit("recurring deposit");
    reveal_strlit("rd");
    if n == "rent"@ {
        reveal_strlit("rent");
        assert(n.len() == 4 && n[0] == 'r' && n[1] == 'e' && n[2] == 'n');
    } else if n == "electricity"@ {
        reveal_strlit("electricity");
        assert(n.len() == 11 && n[0] == 'e' && n[1] == 'l' && n[2] == 'e');
    } else if n == "gas"@ {
        reveal_strlit("gas");
        assert(n.len() == 3 && n[0] == 'g' && n[1] == 'a' && n[2] == 's');
    } else if n == "water"@ {
        reveal_strlit("water");
        assert(n.len() == 5 && n[0] == 'w' && n[1] == 'a' && n[2] == 't');
    } else if n == "mobile"@ {
        reveal_strlit("mobile");
        assert(n.len() == 6 && n[0] == 'm' && n[1] == 'o' && n[2] == 'b');
    } else if n == "internet"@ {
        reveal_strlit("internet");
        assert(n.len() == 8 && n[0] == 'i' && n[1] == 'n' && n[2] == 't' && n[5] == 'n');
    } else if n == "groceries"@ {
        reveal_strlit("groceries");
        assert(n.len() == 9 && n[0] == 'g' && n[1] == 'r' && n[2] == 'o');
    } else if n == "food"@ {
        reveal_strlit("food");
        assert(n.len() == 4 && n[0] == 'f' && n[1] == 'o' && n[2] == 'o');
    } else if n == "meals"@ {
        reveal_strlit("meals");
        assert(n.len() == 5 && n[0] == 'm' && n[1] == 'e' && n[2] == 'a');
    } else if n == "maintenance"@ {
        reveal_strlit("maintenance");
        assert(n.len() == 11 && n[0] == 'm' && n[1] == 'a' && n[2] == 'i');
    } else if n == "insurance"@ {
        reveal_strlit("insurance");
        assert(n.len() == 9 && n[0] == 'i' && n[1] == 'n' && n[2] == 's');
    } else if n == "bills"@ {
        reveal_strlit("bills");
        assert(n.len() == 5 && n[0] == 'b' && n[1] == 'i' && n[2] == 'l');
    } else if n == "loan emi"@ {
        reveal_strlit("loan emi");
        assert(n.len() == 8 && n[0] == 'l' && n[1] == 'o' && n[2] == 'a');
    } else if n == "loans"@ {
        reveal_strlit("loans");
        assert(n.len() == 5 && n[0] == 'l' && n[1] == 'o' && n[2] == 'a');
    } else if n == "emi"@ {
        reveal_strlit("emi");
        assert(n.len() == 3 && n[0] == 'e' && n[1] == 'm' && n[2] == 'i');
    } else if n == "tax"@ {
        reveal_strlit("tax");
        assert(n.len() == 3 && n[0] == 't' && n[1] == 'a' && n[2] == 'x');
    } else if n == "taxes"@ {
        reveal_strlit("taxes");
        assert(n.len() == 5 && n[0] == 't' && n[1] == 'a' && n[2] == 'x');
    } else if n == "train travel"@ {
        reveal_strlit("train travel");
        assert(n.len() == 12 && n[0] == 't' && n[1] == 'r' && n[2] == 'a');
    } else if n == "fuel"@ {
        reveal_strlit("fuel");
        assert(n.len() == 4 && n[0] == 'f' && n[1] == 'u' && n[2] == 'e');
    }
}

pub open spec fn is_ascii_digit(c: char) -> bool {
    '0' <= c && c <= '9'
}

/// A well-formed ISO `YYYY-MM-DD` date.
pub open spec fn iso_date_shape(d: Seq<char>) -> bool {
    &&& d.len() == 10
    &&& d[4] == '-'
    &&& d[7] == '-'
    &&& is_ascii_digit(d[0]) && is_ascii_digit(d[1]) && is_ascii_digit(d[2]) && is_ascii_digit(d[3])
    &&& is_ascii_digit(d[5]) && is_ascii_digit(d[6])
    &&& is_ascii_digit(d[8]) && is_ascii_digit(d[9])
}

/// The `YYYY-MM` prefix of a well-formed ISO date.
pub open spec fn iso_month(d: Seq<char>) -> Option<Seq<char>> {
    if iso_date_shape(d) {
        Some(d.subrange(0, 7))
    } else {
        None
    }
}

fn digit_at(s: &str, i: usize) -> (r: bool)
    requires
        i < s@.len(),
    ensures
        r == is_ascii_digit(s@[i as int]),
{
    let c = s.get_char(i);
    '0' <= c && c <= '9'
}

/// Validate that a date is a well-formed ISO `YYYY-MM-DD` and return its
/// `YYYY-MM` prefix.
pub fn parse_iso_month(date: &str) -> (r: Option<&str>)
    ensures
        match r {
            Some(m) => iso_month(date@) == Some(m@),
            None => iso_month(date@).is_none(),
        },
{
    if date.unicode_len() != 10 {
        return None;
    }
    if date.get_char(4) != '-' || date.get_char(7) != '-' {
        return None;
    }
    if !(digit_at(date, 0) && digit_at(date, 1) && digit_at(date, 2) && digit_at(date, 3)
        && digit_at(date, 5) && digit_at(date, 6) && digit_at(date, 8) && digit_at(date, 9)) {
        return None;
    }
    Some(date.substring_char(0, 7))
}

/// The explainer shown next to a health-score driver.
pub open spec fn driver_detail_text(key: Seq<char>, score: u32) -> Seq<char> {
    if key == "savingsRate"@ {
        if score == 0 {
            "No income recorded yet — upload a salary statement."@
        } else if score <= 24 {
            "Spending more than 75% of income. Tighten the top categories."@
        } else if score <= 49 {
            "Saving some, but well below the 30% sweet spot."@
        } else if score <= 74 {
            "Healthy savings rate."@
        } else {
            "Strong saver — over 50% of income kept."@
        }
    } else if key == "debtBurden"@ {
        "No loan data yet — fill in the Loan Tracker for a real score."@
    } else if key == "essentialDiscretionary"@ {
        if score <= 39 {
            "Discretionary spend dominates. Look at restaurants / shopping / cabs."@
        } else if score <= 69 {
            "Balanced mix."@
        } else {
            "Mostly essentials — little discretionary fat to cut."@
        }
    } else if key == "investmentConsistency"@ {
        if score == 0 {
            "No investment outflows detected. Categories like 'SIP', 'Mutual Fund', 'Investments', 'PPF', 'NPS' count toward this."@
        } else if score <= 33 {
            "Investing in fewer than 1 in 3 months — consider a fixed monthly SIP."@
        } else if score <= 66 {
            "Investing in some months but not all. A standing SIP keeps this consistent."@
        } else if score <= 99 {
            "Investing most months — close to a perfect SIP cadence."@
        } else {
            "Investing every month tracked. Strong consistency."@
        }
    } else {
        Seq::<char>::empty()
    }
}

pub fn driver_detail(key: &str, score: u32) -> (r: String)
    ensures
        r@ == driver_detail_text(key@, score),
{
    if str_eq(key, "savingsRate") {
        if score == 0 {
            string_of("No income recorded yet — upload a salary statement.")
        } else if score <= 24 {
            string_of("Spending more than 75% of income. Tighten the top categories.")
        } else if score <= 49 {
            string_of("Saving some, but well below the 30% sweet spot.")
        } else if score <= 74 {
            string_of("Healthy savings rate.")
        } else {
            string_of("Strong saver — over 50% of income kept.")
        }
    } else if str_eq(key, "debtBurden") {
        string_of("No loan data yet — fill in the Loan Tracker for a real score.")
    } else if str_eq(key, "essentialDiscretionary") {
        if score <= 39 {
            string_of("Discretionary spend dominates. Look at restaurants / shopping / cabs.")
        } else if score <= 69 {
            string_of("Balanced mix.")
        } else {
            string_of("Mostly essentials — little discretionary fat to cut.")
        }
    } else if str_eq(key, "investmentConsistency") {
        if score == 0 {
            string_of(
                "No investment outflows detected. Categories like 'SIP', 'Mutual Fund', 'Investments', 'PPF', 'NPS' count toward this.",
            )
        } else if score <= 33 {
            string_of("Investing in fewer than 1 in 3 months — consider a fixed monthly SIP.")
        } else if score <= 66 {
            string_of("Investing in some months but not all. A standing SIP keeps this consistent.")
        } else if score <= 99 {
            string_of("Investing most months — close to a perfect SIP cadence.")
        } else {
            string_of("Investing every month tracked. Strong consistency.")
        }
    } else {
        String::new()
    }
}

pub fn parse_year_month(import_id: &str) -> (r: Option<(&str, &str)>)
    ensures
        match r {
            Some((y, m)) => upload::import_year_month(import_id@) == Some((y@, m@)),
            None => upload::import_year_month(import_id@).is_none(),
        },
{
    upload::parse_year_month(import_id)
}

/// Where an import's sealed transaction rows are stored.
pub fn txn_path(import_id: &str) -> (r: String)
    ensures
        r@ == upload::upload_path_text(import_id@, "raw-transactions.json"@),
{
    upload::upload_path(import_id, "raw-transactions.json")
}

// ---------------------------------------------------------------------------
// Per-row contributions
// ---------------------------------------------------------------------------

pub open spec fn row_kind(r: TxnRow) -> CategoryKind {
    kind_of_label(row_label(r))
}

/// What a row adds to income: all of an income row's credit; the positive
/// credit (refund, payout) of an expense or investment row; nothing for a
/// transfer. A debit on an income row is not folded into expense.
pub open spec fn income_part(r: TxnRow) -> int {
    let c = credit_of(r);
    match row_kind(r) {
        CategoryKind::Income => c,
        CategoryKind::Transfer => 0,
        _ => if c > 0 {
            c
        } else {
            0
        },
    }
}

/// What a row adds to expense: the positive debit of an expense row.
pub open spec fn expense_part(r: TxnRow) -> int {
    if row_kind(r) == CategoryKind::Expense && debit_of(r) > 0 {
        debit_of(r)
    } else {
        0
    }
}

pub open spec fn transfer_part(r: TxnRow) -> int {
    if row_kind(r) == CategoryKind::Transfer {
        debit_of(r) + credit_of(r)
    } else {
        0
    }
}

pub open spec fn transfer_hit(r: TxnRow) -> int {
    if row_kind(r) == CategoryKind::Transfer && (debit_of(r) > 0 || credit_of(r) > 0) {
        1
    } else {
        0
    }
}

pub open spec fn essential_part(r: TxnRow) -> int {
    if row_kind(r) == CategoryKind::Expense && debit_of(r) > 0 && essential_label(row_label(r)) {
        debit_of(r)
    } else {
        0
    }
}

/// The wealth-building outflow of an investment row.
pub open spec fn investment_part(r: TxnRow) -> int {
    if row_kind(r) == CategoryKind::Investment && debit_of(r) > 0 {
        debit_of(r)
    } else {
        0
    }
}

pub open spec fn income_fn() -> spec_fn(TxnRow) -> int {
    |r: TxnRow| income_part(r)
}

pub open spec fn expense_fn() -> spec_fn(TxnRow) -> int {
    |r: TxnRow| expense_part(r)
}

pub open spec fn transfer_fn() -> spec_fn(TxnRow) -> int {
    |r: TxnRow| transfer_part(r)
}

pub open spec fn transfer_hit_fn() -> spec_fn(TxnRow) -> int {
    |r: TxnRow| transfer_hit(r)
}

pub open spec fn essential_fn() -> spec_fn(TxnRow) -> int {
    |r: TxnRow| essential_part(r)
}

pub open spec fn total_income(rows: Seq<TxnRow>) -> int {
    sum_by(rows, income_fn())
}

pub open spec fn total_expense(rows: Seq<TxnRow>) -> int {
    sum_by(rows, expense_fn())
}

pub open spec fn total_transfer(rows: Seq<TxnRow>) -> int {
    sum_by(rows, transfer_fn())
}

pub open spec fn transfer_count(rows: Seq<TxnRow>) -> int {
    sum_by(rows, transfer_hit_fn())
}

pub open spec fn total_essential(rows: Seq<TxnRow>) -> int {
    sum_by(rows, essential_fn())
}

proof fn lemma_parts_bounded()
    ensures
        forall|r: TxnRow| abs(#[trigger] income_fn()(r)) <= row_weight(r),
        forall|r: TxnRow| abs(#[trigger] expense_fn()(r)) <= row_weight(r),
        forall|r: TxnRow| abs(#[trigger] transfer_fn()(r)) <= row_weight(r),
        forall|r: TxnRow| abs(#[trigger] essential_fn()(r)) <= row_weight(r),
        forall|r: TxnRow| 0 <= #[trigger] transfer_hit_fn()(r) <= 1,
{
}

/// What classification reads of one row.
struct RowFacts {
    kind: CategoryKind,
    debit: i128,
    credit: i128,
    essential: bool,
}

fn row_facts(r: &TxnRow) -> (f: RowFacts)
    ensures
        f.kind == row_kind(*r),
        f.debit == debit_of(*r),
        f.credit == credit_of(*r),
        f.essential == essential_label(row_label(*r)),
{
    let label = label_of(r);
    RowFacts {
        kind: classify_category(label),
        debit: amount_value(&r.debit),
        credit: amount_value(&r.credit),
        essential: is_essential(label),
    }
}

/// Headline totals in paise: income, expense, transfers, transfer count,
/// essential spend.
struct Headline {
    income: i128,
    expense: i128,
    transfer: i128,
    transfer_count: u32,
    essential: i128,
}

fn headline_totals(rows: &Vec<TxnRow>) -> (h: Headline)
    requires
        rows_in_range(rows@),
    ensures
        h.income == total_income(rows@),
        h.expense == total_expense(rows@),
        h.transfer == total_transfer(rows@),
        h.transfer_count == transfer_count(rows@),
        h.essential == total_essential(rows@),
{
    let mut h = Headline { income: 0, expense: 0, transfer: 0, transfer_count: 0, essential: 0 };
    let n = rows.len();
    let mut i: usize = 0;
    proof {
        lemma_parts_bounded();
    }
    while i < n
        invariant
            0 <= i <= n,
            n == rows@.len(),
            rows_in_range(rows@),
            h.income == total_income(rows@.subrange(0, i as int)),
            h.expense == total_expense(rows@.subrange(0, i as int)),
            h.transfer == total_transfer(rows@.subrange(0, i as int)),
            h.transfer_count == transfer_count(rows@.subrange(0, i as int)),
            h.essential == total_essential(rows@.subrange(0, i as int)),
        decreases n - i,
    {
        let f = row_facts(&rows[i]);
        let ghost next = rows@.subrange(0, i + 1);
        proof {
            lemma_parts_bounded();
            lemma_sum_by_step(rows@, i as int, income_fn());
            lemma_sum_by_step(rows@, i as int, expense_fn());
            lemma_sum_by_step(rows@, i as int, transfer_fn());
            lemma_sum_by_step(rows@, i as int, transfer_hit_fn());
            lemma_sum_by_step(rows@, i as int, essential_fn());
            lemma_abs_total_prefix(rows@, i + 1);
            lemma_abs_total_prefix(rows@, i as int);
            lemma_sum_by_step(rows@, i as int, weight_fn());
            lemma_sum_by_bounded(next, income_fn());
            lemma_sum_by_bounded(next, expense_fn());
            lemma_sum_by_bounded(next, transfer_fn());
            lemma_sum_by_bounded(next, essential_fn());
            lemma_sum_by_count(next, transfer_hit_fn());
        }
        match f.kind {
            CategoryKind::Income => {
                h.income = h.income + f.credit;
            },
            CategoryKind::Expense => {
                if f.debit > 0 {
                    h.expense = h.expense + f.debit;
                    if f.essential {
                        h.essential = h.essential + f.debit;
                    }
                }
                if f.credit > 0 {
                    h.income = h.income + f.credit;
                }
            },
            CategoryKind::Transfer => {
                h.transfer = h.transfer + (f.debit + f.credit);
                if f.debit > 0 || f.credit > 0 {
                    h.transfer_count = h.transfer_count + 1;
                }
            },
            CategoryKind::Investment => {
                if f.credit > 0 {
                    h.income = h.income + f.credit;
                }
            },
        }
        i = i + 1;
    }
    proof {
        lemma_sum_by_whole(rows@, income_fn());
        lemma_sum_by_whole(rows@, expense_fn());
        lemma_sum_by_whole(rows@, transfer_fn());
        lemma_sum_by_whole(rows@, transfer_hit_fn());
        lemma_sum_by_whole(rows@, essential_fn());
    }
    h
}

// ---------------------------------------------------------------------------
// Period covered
// ---------------------------------------------------------------------------

/// Earliest transaction date (text order), the first one seen on ties.
pub open spec fn earliest_date(rows: Seq<TxnRow>) -> Option<Seq<char>>
    decreases rows.len(),
{
    if rows.len() == 0 {
        None
    } else {
        let d = rows.last().txn_date@;
        match earliest_date(rows.drop_last()) {
            None => Some(d),
            Some(e) => if text_less(d, e) {
                Some(d)
            } else {
                Some(e)
            },
        }
    }
}

/// Latest transaction date (text order).
pub open spec fn latest_date(rows: Seq<TxnRow>) -> Option<Seq<char>>
    decreases rows.len(),
{
    if rows.len() == 0 {
        None
    } else {
        let d = rows.last().txn_date@;
        match latest_date(rows.drop_last()) {
            None => Some(d),
            Some(e) => if text_less(e, d) {
                Some(d)
            } else {
                Some(e)
            },
        }
    }
}

fn period_bounds(rows: &Vec<TxnRow>) -> (r: (Option<String>, Option<String>))
    ensures
        opt_view(r.0) == earliest_date(rows@),
        opt_view(r.1) == latest_date(rows@),
{
    let mut earliest: Option<String> = None;
    let mut latest: Option<String> = None;
    let n = rows.len();
    let mut i: usize = 0;
    while i < n
        invariant
            0 <= i <= n,
            n == rows@.len(),
            opt_view(earliest) == earliest_date(rows@.subrange(0, i as int)),
            opt_view(latest) == latest_date(rows@.subrange(0, i as int)),
        decreases n - i,
    {
        let d = &rows[i].txn_date;
        proof {
            assert(rows@.subrange(0, i + 1).drop_last() =~= rows@.subrange(0, i as int));
        }
        let take_early = match &earliest {
            None => true,
            Some(e) => str_less(d.as_str(), e.as_str()),
        };
        if take_early {
            earliest = Some(d.clone());
        }
        let take_late = match &latest {
            None => true,
            Some(e) => str_less(e.as_str(), d.as_str()),
        };
        if take_late {
            latest = Some(d.clone());
        }
        i = i + 1;
    }
    proof {
        assert(rows@.subrange(0, n as int) =~= rows@);
    }
    (earliest, latest)
}

/// Law: the reported period runs from a date no later than any row's to a
/// date no earlier than any row's, both taken from the rows; it is absent
/// exactly when there are no rows.
pub proof fn law_period_covers_all_dates(rows: Seq<TxnRow>)
    ensures
        earliest_date(rows).is_none() <==> rows.len() == 0,
        latest_date(rows).is_none() <==> rows.len() == 0,
        earliest_date(rows) matches Some(e) ==> (exists|k: int|
            0 <= k < rows.len() && rows[k].txn_date@ == e) && forall|k: int|
            0 <= k < rows.len() ==> !text_less(#[trigger] rows[k].txn_date@, e),
        latest_date(rows) matches Some(l) ==> (exists|k: int|
            0 <= k < rows.len() && rows[k].txn_date@ == l) && forall|k: int|
            0 <= k < rows.len() ==> !text_less(l, #[trigger] rows[k].txn_date@),
    decreases rows.len(),
{
    if rows.len() > 0 {
        let prev = rows.drop_last();
        law_period_covers_all_dates(prev);
        let d = rows.last().txn_date@;
        lemma_text_less_irreflexive(d);
        match earliest_date(prev) {
            None => {
                assert(rows.len() == 1);
                assert(rows[0].txn_date@ == d);
            },
            Some(e) => {
                lemma_text_less_total(d, e);
                let k0 = choose|k: int| 0 <= k < prev.len() && prev[k].txn_date@ == e;
                assert(rows[k0] == prev[k0]);
                assert forall|k: int| 0 <= k < rows.len() implies !text_less(
                    #[trigger] rows[k].txn_date@,
                    earliest_date(rows)->0,
                ) by {
                    let m = earliest_date(rows)->0;
                    if k < rows.len() - 1 {
                        assert(rows[k] == prev[k]);
                        if text_less(d, e) {
                            if text_less(rows[k].txn_date@, d) {
                                lemma_text_less_transitive(rows[k].txn_date@, d, e);
                            }
                        }
                    } else {
                        lemma_text_less_irreflexive(m);
                    }
                }
            },
        }
        match latest_date(prev) {
            None => {
                assert(rows[0].txn_date@ == d);
            },
            Some(l) => {
                lemma_text_less_total(l, d);
                let k0 = choose|k: int| 0 <= k < prev.len() && prev[k].txn_date@ == l;
                assert(rows[k0] == prev[k0]);
                assert forall|k: int| 0 <= k < rows.len() implies !text_less(
                    latest_date(rows)->0,
                    #[trigger] rows[k].txn_date@,
                ) by {
                    let m = latest_date(rows)->0;
                    if k < rows.len() - 1 {
                        assert(rows[k] == prev[k]);
                        if text_less(l, d) {
                            if text_less(d, rows[k].txn_date@) {
                                lemma_text_less_transitive(l, d, rows[k].txn_date@);
                            }
                        }
                    } else {
                        lemma_text_less_irreflexive(m);
                    }
                }
            },
        }
    }
}

// ---------------------------------------------------------------------------
// Per-category totals
// ---------------------------------------------------------------------------

pub open spec fn cat_count_fn(c: Seq<char>) -> spec_fn(TxnRow) -> int {
    |r: TxnRow|
        if row_label(r) == c {
            1int
        } else {
            0int
        }
}

pub open spec fn cat_debit_fn(c: Seq<char>) -> spec_fn(TxnRow) -> int {
    |r: TxnRow|
        if row_label(r) == c {
            debit_of(r)
        } else {
            0int
        }
}

pub open spec fn cat_credit_fn(c: Seq<char>) -> spec_fn(TxnRow) -> int {
    |r: TxnRow|
        if row_label(r) == c {
            credit_of(r)
        } else {
            0int
        }
}

pub open spec fn cat_debit_rows_fn(c: Seq<char>) -> spec_fn(TxnRow) -> int {
    |r: TxnRow|
        if row_label(r) == c && r.debit.is_some() {
            1int
        } else {
            0int
        }
}

pub open spec fn cat_credit_rows_fn(c: Seq<char>) -> spec_fn(TxnRow) -> int {
    |r: TxnRow|
        if row_label(r) == c && r.credit.is_some() {
            1int
        } else {
            0int
        }
}

/// Rows filed under `c` that carry a debit.
pub open spec fn cat_debit_rows(rows: Seq<TxnRow>, c: Seq<char>) -> int {
    sum_by(rows, cat_debit_rows_fn(c))
}

/// Rows filed under `c` that carry a credit.
pub open spec fn cat_credit_rows(rows: Seq<TxnRow>, c: Seq<char>) -> int {
    sum_by(rows, cat_credit_rows_fn(c))
}

/// Rows filed under category `c`.
pub open spec fn cat_count(rows: Seq<TxnRow>, c: Seq<char>) -> int {
    sum_by(rows, cat_count_fn(c))
}

/// Sum of the debits of rows filed under `c`.
pub open spec fn cat_debit(rows: Seq<TxnRow>, c: Seq<char>) -> int {
    sum_by(rows, cat_debit_fn(c))
}

/// Sum of the credits of rows filed under `c`.
pub open spec fn cat_credit(rows: Seq<TxnRow>, c: Seq<char>) -> int {
    sum_by(rows, cat_credit_fn(c))
}

pub open spec fn has_label(rows: Seq<TxnRow>, c: Seq<char>) -> bool {
    exists|t: int| 0 <= t < rows.len() && row_label(#[trigger] rows[t]) == c
}

proof fn lemma_sum_by_zero(rows: Seq<TxnRow>, f: spec_fn(TxnRow) -> int)
    requires
        forall|k: int| 0 <= k < rows.len() ==> f(#[trigger] rows[k]) == 0,
    ensures
        sum_by(rows, f) == 0,
    decreases rows.len(),
{
    if rows.len() > 0 {
        let p = rows.drop_last();
        assert forall|k: int| 0 <= k < p.len() implies f(#[trigger] p[k]) == 0 by {
            assert(p[k] == rows[k]);
        }
        lemma_sum_by_zero(p, f);
        assert(f(rows[rows.len() - 1]) == 0);
    }
}

proof fn lemma_cat_fns_bounded(c: Seq<char>)
    ensures
        forall|r: TxnRow| abs(#[trigger] cat_debit_fn(c)(r)) <= row_weight(r),
        forall|r: TxnRow| abs(#[trigger] cat_credit_fn(c)(r)) <= row_weight(r),
        forall|r: TxnRow| 0 <= #[trigger] cat_count_fn(c)(r) <= 1,
        forall|r: TxnRow| 0 <= #[trigger] cat_debit_rows_fn(c)(r) <= 1,
        forall|r: TxnRow| 0 <= #[trigger] cat_credit_rows_fn(c)(r) <= 1,
{
}

/// Running totals of one category.
pub struct CatAcc {
    pub category: String,
    pub count: u32,
    pub debit_rows: u32,
    pub credit_rows: u32,
    pub debit: i128,
    pub credit: i128,
}

/// `accs` holds exactly one entry per distinct category label of `rows`,
/// with that category's count and debit / credit sums.
pub open spec fn groups_categories(rows: Seq<TxnRow>, accs: Seq<CatAcc>) -> bool {
    &&& forall|j: int, k: int|
        0 <= j < accs.len() && 0 <= k < accs.len() && j != k ==> (#[trigger] accs[j]).category@
            != (#[trigger] accs[k]).category@
    &&& forall|t: int| 0 <= t < rows.len() ==> has_category(accs, row_label(#[trigger] rows[t]))
    &&& forall|j: int| 0 <= j < accs.len() ==> cat_entry_ok(rows, #[trigger] accs[j])
}

pub open spec fn has_category(accs: Seq<CatAcc>, c: Seq<char>) -> bool {
    exists|j: int| 0 <= j < accs.len() && (#[trigger] accs[j]).category@ == c
}

/// One category entry: its label occurs in the rows and it carries that
/// label's count and sums.
#[verifier::opaque]
pub open spec fn cat_entry_ok(rows: Seq<TxnRow>, a: CatAcc) -> bool {
    &&& has_label(rows, a.category@)
    &&& a.count == cat_count(rows, a.category@)
    &&& a.debit_rows == cat_debit_rows(rows, a.category@)
    &&& a.credit_rows == cat_credit_rows(rows, a.category@)
    &&& a.debit == cat_debit(rows, a.category@)
    &&& a.credit == cat_credit(rows, a.category@)
}

fn find_category(accs: &Vec<CatAcc>, label: &str) -> (r: Option<usize>)
    ensures
        match r {
            Some(j) => j < accs@.len() && accs@[j as int].category@ == label@,
            None => forall|j: int| 0 <= j < accs@.len() ==> accs@[j].category@ != label@,
        },
{
    let n = accs.len();
    let mut j: usize = 0;
    while j < n
        invariant
            0 <= j <= n,
            n == accs@.len(),
            forall|k: int| 0 <= k < j ==> accs@[k].category@ != label@,
        decreases n - j,
    {
        if str_eq(accs[j].category.as_str(), label) {
            return Some(j);
        }
        j = j + 1;
    }
    None
}

pub(crate) fn accumulate_categories(rows: &Vec<TxnRow>) -> (accs: Vec<CatAcc>)
    requires
        rows_in_range(rows@),
    ensures
        groups_categories(rows@, accs@),
{
    let mut accs: Vec<CatAcc> = Vec::new();
    let n = rows.len();
    let mut i: usize = 0;
    reveal(cat_entry_ok);
    while i < n
        invariant
            0 <= i <= n,
            n == rows@.len(),
            rows_in_range(rows@),
            groups_categories(rows@.subrange(0, i as int), accs@),
        decreases n - i,
    {
        proof {
            reveal(cat_entry_ok);
        }
        let r = &rows[i];
        let label = label_of(r);
        let d = amount_value(&r.debit);
        let c = amount_value(&r.credit);
        let dr: u32 = if r.debit.is_some() {
            1
        } else {
            0
        };
        let cr: u32 = if r.credit.is_some() {
            1
        } else {
            0
        };
        let ghost prev = rows@.subrange(0, i as int);
        let ghost next = rows@.subrange(0, i + 1);
        let ghost old_accs = accs@;
        proof {
            assert(next[i as int] == rows@[i as int]);
            assert forall|t: int| 0 <= t < i implies next[t] == #[trigger] prev[t] by {}
            lemma_abs_total_prefix(rows@, i + 1);
            lemma_cat_fns_bounded(label@);
            lemma_sum_by_bounded(next, cat_debit_fn(label@));
            lemma_sum_by_bounded(next, cat_credit_fn(label@));
            lemma_sum_by_count(next, cat_count_fn(label@));
            lemma_sum_by_count(next, cat_debit_rows_fn(label@));
            lemma_sum_by_count(next, cat_credit_rows_fn(label@));
            lemma_sum_by_step(rows@, i as int, cat_count_fn(label@));
            lemma_sum_by_step(rows@, i as int, cat_debit_rows_fn(label@));
            lemma_sum_by_step(rows@, i as int, cat_credit_rows_fn(label@));
            lemma_sum_by_step(rows@, i as int, cat_debit_fn(label@));
            lemma_sum_by_step(rows@, i as int, cat_credit_fn(label@));
            // every other group gains nothing from this row
            assert forall|j: int| 0 <= j < old_accs.len() && old_accs[j].category@ != label@ implies {
                let a = #[trigger] old_accs[j];
                &&& cat_count(next, a.category@) == cat_count(prev, a.category@)
                &&& cat_debit_rows(next, a.category@) == cat_debit_rows(prev, a.category@)
                &&& cat_credit_rows(next, a.category@) == cat_credit_rows(prev, a.category@)
                &&& cat_debit(next, a.category@) == cat_debit(prev, a.category@)
                &&& cat_credit(next, a.category@) == cat_credit(prev, a.category@)
            } by {
                let cc = old_accs[j].category@;
                lemma_sum_by_step(rows@, i as int, cat_count_fn(cc));
                lemma_sum_by_step(rows@, i as int, cat_debit_rows_fn(cc));
                lemma_sum_by_step(rows@, i as int, cat_credit_rows_fn(cc));
                lemma_sum_by_step(rows@, i as int, cat_debit_fn(cc));
                lemma_sum_by_step(rows@, i as int, cat_credit_fn(cc));
            }
        }
        match find_category(&accs, label) {
            Some(j) => {
                let old = &accs[j];
                let updated = CatAcc {
                    category: old.category.clone(),
                    count: old.count + 1,
                    debit_rows: old.debit_rows + dr,
                    credit_rows: old.credit_rows + cr,
                    debit: old.debit + d,
                    credit: old.credit + c,
                };
                accs.set(j, updated);
                proof {
                    assert forall|t: int| 0 <= t < next.len() implies exists|k: int|
                        0 <= k < accs@.len() && (#[trigger] accs@[k]).category@ == row_label(
                            #[trigger] next[t],
                        ) by {
                        if t < i {
                            let k = choose|k: int|
                                0 <= k < old_accs.len() && (#[trigger] old_accs[k]).category@
                                    == row_label(prev[t]);
                            assert(accs@[k].category@ == old_accs[k].category@);
                        } else {
                            assert(accs@[j as int].category@ == row_label(next[t]));
                        }
                    }
                    assert forall|k: int| 0 <= k < accs@.len() implies has_label(
                        next,
                        (#[trigger] accs@[k]).category@,
                    ) by {
                        assert(accs@[k].category@ == old_accs[k].category@);
                        let t = choose|t: int|
                            0 <= t < prev.len() && row_label(#[trigger] prev[t])
                                == old_accs[k].category@;
                        assert(next[t] == prev[t]);
                    }
                }
            },
            None => {
                proof {
                    assert forall|k: int| 0 <= k < prev.len() implies #[trigger] cat_count_fn(
                        label@,
                    )(prev[k]) == 0 && cat_debit_fn(label@)(prev[k]) == 0 && cat_credit_fn(
                        label@,
                    )(prev[k]) == 0 && cat_debit_rows_fn(label@)(prev[k]) == 0
                        && cat_credit_rows_fn(label@)(prev[k]) == 0 by {
                        if row_label(prev[k]) == label@ {
                            let jj = choose|jj: int|
                                0 <= jj < old_accs.len() && (#[trigger] old_accs[jj]).category@
                                    == row_label(prev[k]);
                        }
                    }
                    assert forall|k: int| 0 <= k < prev.len() implies #[trigger] cat_debit_fn(
                        label@,
                    )(prev[k]) == 0 by {
                        assert(cat_count_fn(label@)(prev[k]) == 0);
                    }
                    assert forall|k: int| 0 <= k < prev.len() implies #[trigger] cat_credit_fn(
                        label@,
                    )(prev[k]) == 0 by {
                        assert(cat_count_fn(label@)(prev[k]) == 0);
                    }
                    assert forall|k: int| 0 <= k < prev.len() implies #[trigger] cat_debit_rows_fn(
                        label@,
                    )(prev[k]) == 0 by {
                        assert(cat_count_fn(label@)(prev[k]) == 0);
                    }
                    assert forall|k: int| 0 <= k < prev.len() implies #[trigger] cat_credit_rows_fn(
                        label@,
                    )(prev[k]) == 0 by {
                        assert(cat_count_fn(label@)(prev[k]) == 0);
                    }
                    lemma_sum_by_zero(prev, cat_count_fn(label@));
                    lemma_sum_by_zero(prev, cat_debit_rows_fn(label@));
                    lemma_sum_by_zero(prev, cat_credit_rows_fn(label@));
                    lemma_sum_by_zero(prev, cat_debit_fn(label@));
                    lemma_sum_by_zero(prev, cat_credit_fn(label@));
                }
                accs.push(
                    CatAcc {
                        category: string_of(label),
                        count: 1,
                        debit_rows: dr,
                        credit_rows: cr,
                        debit: d,
                        credit: c,
                    },
                );
                proof {
                    let nj = old_accs.len() as int;
                    assert(accs@[nj].category@ == label@);
                    assert forall|t: int| 0 <= t < next.len() implies exists|k: int|
                        0 <= k < accs@.len() && (#[trigger] accs@[k]).category@ == row_label(
                            #[trigger] next[t],
                        ) by {
                        if t < i {
                            let k = choose|k: int|
                                0 <= k < old_accs.len() && (#[trigger] old_accs[k]).category@
                                    == row_label(prev[t]);
                            assert(accs@[k] == old_accs[k]);
                        } else {
                            assert(accs@[nj].category@ == row_label(next[t]));
                        }
                    }
                    assert forall|k: int| 0 <= k < accs@.len() implies has_label(
                        next,
                        (#[trigger] accs@[k]).category@,
                    ) by {
                        if k < nj {
                            assert(accs@[k] == old_accs[k]);
                            let t = choose|t: int|
                                0 <= t < prev.len() && row_label(#[trigger] prev[t])
                                    == old_accs[k].category@;
                            assert(next[t] == prev[t]);
                        } else {
                            assert(row_label(next[i as int]) == label@);
                        }
                    }
                }
            },
        }
        i = i + 1;
    }
    proof {
        assert(rows@.subrange(0, n as int) =~= rows@);
    }
    accs
}

// ---------------------------------------------------------------------------
// Per-month buckets
// ---------------------------------------------------------------------------

pub open spec fn row_month(r: TxnRow) -> Option<Seq<char>> {
    iso_month(r.txn_date@)
}

/// A row with a well-formed date opens its month's bucket when it moves
/// income, expense or investment money (an income row always does).
pub open spec fn opens_bucket(r: TxnRow) -> bool {
    row_month(r).is_some() && (row_kind(r) == CategoryKind::Income || ((row_kind(r)
        == CategoryKind::Expense || row_kind(r) == CategoryKind::Investment) && (debit_of(r) > 0
        || credit_of(r) > 0)))
}

pub open spec fn month_income_fn(m: Seq<char>) -> spec_fn(TxnRow) -> int {
    |r: TxnRow|
        if row_month(r) == Some(m) {
            income_part(r)
        } else {
            0int
        }
}

pub open spec fn month_expense_fn(m: Seq<char>) -> spec_fn(TxnRow) -> int {
    |r: TxnRow|
        if row_month(r) == Some(m) {
            expense_part(r)
        } else {
            0int
        }
}

pub open spec fn month_investment_fn(m: Seq<char>) -> spec_fn(TxnRow) -> int {
    |r: TxnRow|
        if row_month(r) == Some(m) {
            investment_part(r)
        } else {
            0int
        }
}

pub open spec fn month_income(rows: Seq<TxnRow>, m: Seq<char>) -> int {
    sum_by(rows, month_income_fn(m))
}

pub open spec fn month_expense(rows: Seq<TxnRow>, m: Seq<char>) -> int {
    sum_by(rows, month_expense_fn(m))
}

pub open spec fn month_investment(rows: Seq<TxnRow>, m: Seq<char>) -> int {
    sum_by(rows, month_investment_fn(m))
}

/// Month `m` has a bucket: some row opens it.
pub open spec fn is_bucket_month(rows: Seq<TxnRow>, m: Seq<char>) -> bool {
    exists|t: int| 0 <= t < rows.len() && opens_bucket(#[trigger] rows[t]) && row_month(rows[t]) == Some(m)
}

proof fn lemma_month_fns_bounded(m: Seq<char>)
    ensures
        forall|r: TxnRow| abs(#[trigger] month_income_fn(m)(r)) <= row_weight(r),
        forall|r: TxnRow| abs(#[trigger] month_expense_fn(m)(r)) <= row_weight(r),
        forall|r: TxnRow| abs(#[trigger] month_investment_fn(m)(r)) <= row_weight(r),
{
}

/// A row that does not open a bucket adds nothing to any month.
proof fn lemma_closed_row_adds_nothing(r: TxnRow)
    requires
        !opens_bucket(r),
    ensures
        row_month(r).is_some() ==> income_part(r) == 0 && expense_part(r) == 0 && investment_part(
            r,
        ) == 0,
{
}

pub struct MonthAcc {
    pub month: String,
    pub income: i128,
    pub expense: i128,
    pub investment: i128,
}

/// `accs` holds exactly one entry per bucket month of `rows`, with that
/// month's income, expense and investment sums.
pub open spec fn groups_months(rows: Seq<TxnRow>, accs: Seq<MonthAcc>) -> bool {
    &&& forall|j: int, k: int|
        0 <= j < accs.len() && 0 <= k < accs.len() && j != k ==> (#[trigger] accs[j]).month@
            != (#[trigger] accs[k]).month@
    &&& forall|t: int|
        0 <= t < rows.len() && opens_bucket(#[trigger] rows[t]) ==> exists|j: int|
            0 <= j < accs.len() && Some((#[trigger] accs[j]).month@) == row_month(rows[t])
    &&& forall|j: int| 0 <= j < accs.len() ==> is_bucket_month(rows, (#[trigger] accs[j]).month@)
    &&& forall|j: int|
        0 <= j < accs.len() ==> {
            let a = #[trigger] accs[j];
            &&& a.income == month_income(rows, a.month@)
            &&& a.expense == month_expense(rows, a.month@)
            &&& a.investment == month_investment(rows, a.month@)
        }
}

fn find_month(accs: &Vec<MonthAcc>, m: &str) -> (r: Option<usize>)
    ensures
        match r {
            Some(j) => j < accs@.len() && accs@[j as int].month@ == m@,
            None => forall|j: int| 0 <= j < accs@.len() ==> accs@[j].month@ != m@,
        },
{
    let n = accs.len();
    let mut j: usize = 0;
    while j < n
        invariant
            0 <= j <= n,
            n == accs@.len(),
            forall|k: int| 0 <= k < j ==> accs@[k].month@ != m@,
        decreases n - j,
    {
        if str_eq(accs[j].month.as_str(), m) {
            return Some(j);
        }
        j = j + 1;
    }
    None
}

fn accumulate_months(rows: &Vec<TxnRow>) -> (accs: Vec<MonthAcc>)
    requires
        rows_in_range(rows@),
    ensures
        groups_months(rows@, accs@),
{
    let mut accs: Vec<MonthAcc> = Vec::new();
    let n = rows.len();
    let mut i: usize = 0;
    while i < n
        invariant
            0 <= i <= n,
            n == rows@.len(),
            rows_in_range(rows@),
            groups_months(rows@.subrange(0, i as int), accs@),
        decreases n - i,
    {
        let r = &rows[i];
        let f = row_facts(r);
        let month = parse_iso_month(r.txn_date.as_str());
        let ghost prev = rows@.subrange(0, i as int);
        let ghost next = rows@.subrange(0, i + 1);
        let ghost old_accs = accs@;
        let ghost row = rows@[i as int];
        proof {
            assert(next[i as int] == row);
            assert forall|t: int| 0 <= t < i implies next[t] == #[trigger] prev[t] by {}
            lemma_abs_total_prefix(rows@, i + 1);
            // every bucket the row does not touch keeps its sums
            assert forall|j: int|
                0 <= j < old_accs.len() && row_month(row) != Some(
                    old_accs[j].month@,
                ) implies {
                let a = #[trigger] old_accs[j];
                &&& month_income(next, a.month@) == month_income(prev, a.month@)
                &&& month_expense(next, a.month@) == month_expense(prev, a.month@)
                &&& month_investment(next, a.month@) == month_investment(prev, a.month@)
            } by {
                let mm = old_accs[j].month@;
                lemma_sum_by_step(rows@, i as int, month_income_fn(mm));
                lemma_sum_by_step(rows@, i as int, month_expense_fn(mm));
                lemma_sum_by_step(rows@, i as int, month_investment_fn(mm));
            }
        }
        let opens = match month {
            None => false,
            Some(_) => match f.kind {
                CategoryKind::Income => true,
                CategoryKind::Transfer => false,
                _ => f.debit > 0 || f.credit > 0,
            },
        };
        if opens {
            let m = month.unwrap();
            let inc: i128 = match f.kind {
                CategoryKind::Income => f.credit,
                _ => if f.credit > 0 {
                    f.credit
                } else {
                    0
                },
            };
            let exp: i128 = if f.kind == CategoryKind::Expense && f.debit > 0 {
                f.debit
            } else {
                0
            };
            let inv: i128 = if f.kind == CategoryKind::Investment && f.debit > 0 {
                f.debit
            } else {
                0
            };
            proof {
                lemma_month_fns_bounded(m@);
                lemma_sum_by_bounded(next, month_income_fn(m@));
                lemma_sum_by_bounded(next, month_expense_fn(m@));
                lemma_sum_by_bounded(next, month_investment_fn(m@));
                lemma_sum_by_step(rows@, i as int, month_income_fn(m@));
                lemma_sum_by_step(rows@, i as int, month_expense_fn(m@));
                lemma_sum_by_step(rows@, i as int, month_investment_fn(m@));
            }
            match find_month(&accs, m) {
                Some(j) => {
                    let old = &accs[j];
                    let updated = MonthAcc {
                        month: old.month.clone(),
                        income: old.income + inc,
                        expense: old.expense + exp,
                        investment: old.investment + inv,
                    };
                    accs.set(j, updated);
                    proof {
                        assert forall|t: int|
                            0 <= t < next.len() && opens_bucket(#[trigger] next[t]) implies exists|
                            k: int,
                        |
                            0 <= k < accs@.len() && Some((#[trigger] accs@[k]).month@)
                                == row_month(next[t]) by {
                            if t < i {
                                let k = choose|k: int|
                                    0 <= k < old_accs.len() && Some(
                                        (#[trigger] old_accs[k]).month@,
                                    ) == row_month(prev[t]);
                                assert(accs@[k].month@ == old_accs[k].month@);
                            } else {
                                assert(Some(accs@[j as int].month@) == row_month(next[t]));
                            }
                        }
                        assert forall|k: int| 0 <= k < accs@.len() implies is_bucket_month(
                            next,
                            (#[trigger] accs@[k]).month@,
                        ) by {
                            assert(accs@[k].month@ == old_accs[k].month@);
                            let t = choose|t: int|
                                0 <= t < prev.len() && opens_bucket(#[trigger] prev[t])
                                    && row_month(prev[t]) == Some(old_accs[k].month@);
                            assert(next[t] == prev[t]);
                        }
                    }
                },
                None => {
                    proof {
                        assert forall|k: int| 0 <= k < prev.len() implies #[trigger] month_income_fn(
                            m@,
                        )(prev[k]) == 0 by {
                            if row_month(prev[k]) == Some(m@) {
                                if opens_bucket(prev[k]) {
                                    let jj = choose|jj: int|
                                        0 <= jj < old_accs.len() && Some(
                                            (#[trigger] old_accs[jj]).month@,
                                        ) == row_month(prev[k]);
                                }
                                lemma_closed_row_adds_nothing(prev[k]);
                            }
                        }
                        assert forall|k: int| 0 <= k < prev.len() implies #[trigger] month_expense_fn(
                            m@,
                        )(prev[k]) == 0 by {
                            if row_month(prev[k]) == Some(m@) {
                                if opens_bucket(prev[k]) {
                                    let jj = choose|jj: int|
                                        0 <= jj < old_accs.len() && Some(
                                            (#[trigger] old_accs[jj]).month@,
                                        ) == row_month(prev[k]);
                                }
                                lemma_closed_row_adds_nothing(prev[k]);
                            }
                        }
                        assert forall|k: int|
                            0 <= k < prev.len() implies #[trigger] month_investment_fn(m@)(prev[k])
                            == 0 by {
                            if row_month(prev[k]) == Some(m@) {
                                if opens_bucket(prev[k]) {
                                    let jj = choose|jj: int|
                                        0 <= jj < old_accs.len() && Some(
                                            (#[trigger] old_accs[jj]).month@,
                                        ) == row_month(prev[k]);
                                }
                                lemma_closed_row_adds_nothing(prev[k]);
                            }
                        }
                        lemma_sum_by_zero(prev, month_income_fn(m@));
                        lemma_sum_by_zero(prev, month_expense_fn(m@));
                        lemma_sum_by_zero(prev, month_investment_fn(m@));
                    }
                    accs.push(
                        MonthAcc { month: string_of(m), income: inc, expense: exp, investment: inv },
                    );
                    proof {
                        let nj = old_accs.len() as int;
                        assert(accs@[nj].month@ == m@);
                        assert forall|t: int|
                            0 <= t < next.len() && opens_bucket(#[trigger] next[t]) implies exists|
                            k: int,
                        |
                            0 <= k < accs@.len() && Some((#[trigger] accs@[k]).month@)
                                == row_month(next[t]) by {
                            if t < i {
                                let k = choose|k: int|
                                    0 <= k < old_accs.len() && Some(
                                        (#[trigger] old_accs[k]).month@,
                                    ) == row_month(prev[t]);
                                assert(accs@[k] == old_accs[k]);
                            } else {
                                assert(Some(accs@[nj].month@) == row_month(next[t]));
                            }
                        }
                        assert forall|k: int| 0 <= k < accs@.len() implies is_bucket_month(
                            next,
                            (#[trigger] accs@[k]).month@,
                        ) by {
                            if k < nj {
                                assert(accs@[k] == old_accs[k]);
                                let t = choose|t: int|
                                    0 <= t < prev.len() && opens_bucket(#[trigger] prev[t])
                                        && row_month(prev[t]) == Some(old_accs[k].month@);
                                assert(next[t] == prev[t]);
                            } else {
                                assert(opens_bucket(next[i as int]));
                            }
                        }
                    }
                },
            }
        } else {
            proof {
                lemma_closed_row_adds_nothing(row);
                assert forall|j: int| 0 <= j < old_accs.len() implies {
                    let a = #[trigger] old_accs[j];
                    &&& month_income(next, a.month@) == month_income(prev, a.month@)
                    &&& month_expense(next, a.month@) == month_expense(prev, a.month@)
                    &&& month_investment(next, a.month@) == month_investment(prev, a.month@)
                } by {
                    let mm = old_accs[j].month@;
                    lemma_sum_by_step(rows@, i as int, month_income_fn(mm));
                    lemma_sum_by_step(rows@, i as int, month_expense_fn(mm));
                    lemma_sum_by_step(rows@, i as int, month_investment_fn(mm));
                }
                assert forall|k: int| 0 <= k < accs@.len() implies is_bucket_month(
                    next,
                    (#[trigger] accs@[k]).month@,
                ) by {
                    let t = choose|t: int|
                        0 <= t < prev.len() && opens_bucket(#[trigger] prev[t]) && row_month(prev[t])
                            == Some(old_accs[k].month@);
                    assert(next[t] == prev[t]);
                }
            }
        }
        i = i + 1;
    }
    proof {
        assert(rows@.subrange(0, n as int) =~= rows@);
    }
    accs
}

// ---------------------------------------------------------------------------
// Orderings
// ---------------------------------------------------------------------------

impl Ranked for CatAcc {
    /// Larger debit first, then larger credit.
    open spec fn ranks_before(&self, other: &Self) -> bool {
        self.debit > other.debit || (self.debit == other.debit && self.credit > other.credit)
    }

    fn ranks_before_exec(&self, other: &Self) -> (r: bool) {
        self.debit > other.debit || (self.debit == other.debit && self.credit > other.credit)
    }

    proof fn lemma_strict(a: &Self, b: &Self, c: &Self) {
    }
}

impl Ranked for MonthAcc {
    /// Chronological (text order of `YYYY-MM`).
    open spec fn ranks_before(&self, other: &Self) -> bool {
        text_less(self.month@, other.month@)
    }

    fn ranks_before_exec(&self, other: &Self) -> (r: bool) {
        str_less(self.month.as_str(), other.month.as_str())
    }

    proof fn lemma_strict(a: &Self, b: &Self, c: &Self) {
        lemma_text_less_negative_transitive(a.month@, b.month@, c.month@);
        lemma_text_less_irreflexive(a.month@);
        if text_less(a.month@, b.month@) && text_less(b.month@, c.month@) {
            lemma_text_less_transitive(a.month@, b.month@, c.month@);
        }
    }
}

proof fn lemma_categories_reordered(rows: Seq<TxnRow>, a: Seq<CatAcc>, b: Seq<CatAcc>)
    requires
        groups_categories(rows, a),
        a.to_multiset() == b.to_multiset(),
    ensures
        groups_categories(rows, b),
{
    assert(a.no_duplicates()) by {
        assert forall|i: int, j: int| 0 <= i < a.len() && 0 <= j < a.len() && i != j implies a[i]
            != a[j] by {
            assert(a[i].category@ != a[j].category@);
        }
    }
    lemma_same_elements(a, b);
    assert forall|j: int, k: int|
        0 <= j < b.len() && 0 <= k < b.len() && j != k implies (#[trigger] b[j]).category@
        != (#[trigger] b[k]).category@ by {
        let jj = choose|x: int| 0 <= x < a.len() && a[x] == b[j];
        let kk = choose|x: int| 0 <= x < a.len() && a[x] == b[k];
        assert(b[j] != b[k]);
        assert(jj != kk);
    }
    assert forall|t: int| 0 <= t < rows.len() implies exists|j: int|
        0 <= j < b.len() && (#[trigger] b[j]).category@ == row_label(#[trigger] rows[t]) by {
        let j0 = choose|j: int| 0 <= j < a.len() && (#[trigger] a[j]).category@ == row_label(rows[t]);
        assert(a.contains(a[j0]));
        assert(b.contains(a[j0]));
        let k = choose|k: int| 0 <= k < b.len() && b[k] == a[j0];
        assert(b[k].category@ == row_label(rows[t]));
    }
    assert forall|j: int| 0 <= j < b.len() implies cat_entry_ok(rows, #[trigger] b[j]) by {
        let jj = choose|x: int| 0 <= x < a.len() && a[x] == b[j];
        assert(a[jj] == b[j]);
    }
}

proof fn lemma_months_reordered(rows: Seq<TxnRow>, a: Seq<MonthAcc>, b: Seq<MonthAcc>)
    requires
        groups_months(rows, a),
        a.to_multiset() == b.to_multiset(),
    ensures
        groups_months(rows, b),
{
    assert(a.no_duplicates()) by {
        assert forall|i: int, j: int| 0 <= i < a.len() && 0 <= j < a.len() && i != j implies a[i]
            != a[j] by {
            assert(a[i].month@ != a[j].month@);
        }
    }
    lemma_same_elements(a, b);
    assert forall|j: int, k: int|
        0 <= j < b.len() && 0 <= k < b.len() && j != k implies (#[trigger] b[j]).month@
        != (#[trigger] b[k]).month@ by {
        let jj = choose|x: int| 0 <= x < a.len() && a[x] == b[j];
        let kk = choose|x: int| 0 <= x < a.len() && a[x] == b[k];
        assert(b[j] != b[k]);
        assert(jj != kk);
    }
    assert forall|t: int| 0 <= t < rows.len() && opens_bucket(#[trigger] rows[t]) implies exists|
        j: int,
    | 0 <= j < b.len() && Some((#[trigger] b[j]).month@) == row_month(rows[t]) by {
        let j0 = choose|j: int| 0 <= j < a.len() && Some((#[trigger] a[j]).month@) == row_month(rows[t]);
        assert(a.contains(a[j0]));
        assert(b.contains(a[j0]));
        let k = choose|k: int| 0 <= k < b.len() && b[k] == a[j0];
        assert(Some(b[k].month@) == row_month(rows[t]));
    }
    assert forall|j: int| 0 <= j < b.len() implies is_bucket_month(rows, (#[trigger] b[j]).month@)
        && {
        let x = b[j];
        &&& x.income == month_income(rows, x.month@)
        &&& x.expense == month_expense(rows, x.month@)
        &&& x.investment == month_investment(rows, x.month@)
    } by {
        let jj = choose|x: int| 0 <= x < a.len() && a[x] == b[j];
        assert(a[jj] == b[j]);
    }
}

// ---------------------------------------------------------------------------
// The aggregate
// ---------------------------------------------------------------------------

/// One calendar month of the trend. Amounts are two-decimal texts.
pub struct MonthlyBucket {
    /// `YYYY-MM`.
    pub month: String,
    pub income: String,
    pub expense: String,
    pub net: String,
}

/// Totals of one category across every row.
pub struct CategoryTotal {
    pub category: String,
    pub count: u32,
    pub total_debit: String,
    pub total_credit: String,
    /// `"income"`, `"expense"` or `"transfer"` (investment categories are
    /// reported as `"transfer"`).
    pub kind: &'static str,
}

/// A category's exact debit total, for recommendations.
pub struct CategorySpend {
    pub category: String,
    pub debit: i128,
    pub count: u32,
    pub kind: CategoryKind,
}

/// Everything the dashboard derives from the rows themselves. The health
/// score (floating point) is computed from `income`, `expense`, `essential`,
/// `months_with_investment` and `total_months`.
pub struct RowsSummary {
    pub import_count: u32,
    pub period_start: Option<String>,
    pub period_end: Option<String>,
    pub transaction_count: u32,
    pub total_income: String,
    pub total_expense: String,
    pub net_savings: String,
    pub transfer_count: u32,
    pub transfer_total: String,
    /// Sorted by debit total, then credit total, both descending.
    pub category_totals: Vec<CategoryTotal>,
    /// One bucket per month, chronological.
    pub monthly_trend: Vec<MonthlyBucket>,
    pub income: i128,
    pub expense: i128,
    pub essential: i128,
    pub months_with_investment: u32,
    pub total_months: u32,
    /// Same order as `category_totals`.
    pub category_spend: Vec<CategorySpend>,
}

/// Category `c` is listed before `d`: larger debit total, then larger credit
/// total.
pub open spec fn cat_ranks_before(rows: Seq<TxnRow>, c: Seq<char>, d: Seq<char>) -> bool {
    cat_debit(rows, c) > cat_debit(rows, d) || (cat_debit(rows, c) == cat_debit(rows, d)
        && cat_credit(rows, c) > cat_credit(rows, d))
}

pub open spec fn category_total_ok(rows: Seq<TxnRow>, ct: CategoryTotal) -> bool {
    let c = ct.category@;
    &&& has_label(rows, c)
    &&& ct.count == cat_count(rows, c)
    &&& ct.total_debit@ == cents_text(cat_debit(rows, c))
    &&& ct.total_credit@ == cents_text(cat_credit(rows, c))
    &&& ct.kind@ == kind_name(kind_of_label(c))
}

pub open spec fn lists_category(cts: Seq<CategoryTotal>, c: Seq<char>) -> bool {
    exists|j: int| 0 <= j < cts.len() && (#[trigger] cts[j]).category@ == c
}

/// One entry per distinct category of the rows, with its totals, in ranking
/// order.
pub open spec fn category_totals_match(rows: Seq<TxnRow>, cts: Seq<CategoryTotal>) -> bool {
    &&& forall|j: int, k: int|
        0 <= j < cts.len() && 0 <= k < cts.len() && j != k ==> (#[trigger] cts[j]).category@
            != (#[trigger] cts[k]).category@
    &&& forall|t: int| 0 <= t < rows.len() ==> lists_category(cts, row_label(#[trigger] rows[t]))
    &&& forall|j: int| 0 <= j < cts.len() ==> category_total_ok(rows, #[trigger] cts[j])
    &&& forall|i: int, j: int|
        #![trigger cts[i], cts[j]]
        0 <= i < j < cts.len() ==> !cat_ranks_before(rows, cts[j].category@, cts[i].category@)
}

pub open spec fn spend_matches(rows: Seq<TxnRow>, cts: Seq<CategoryTotal>, sp: Seq<CategorySpend>) -> bool {
    &&& sp.len() == cts.len()
    &&& forall|j: int|
        0 <= j < sp.len() ==> {
            let c = (#[trigger] sp[j]).category@;
            &&& c == cts[j].category@
            &&& sp[j].debit == cat_debit(rows, c)
            &&& sp[j].count == cat_count(rows, c)
            &&& sp[j].kind == kind_of_label(c)
        }
}

pub open spec fn bucket_ok(rows: Seq<TxnRow>, b: MonthlyBucket) -> bool {
    let m = b.month@;
    &&& is_bucket_month(rows, m)
    &&& b.income@ == cents_text(month_income(rows, m))
    &&& b.expense@ == cents_text(month_expense(rows, m))
    &&& b.net@ == cents_text(month_income(rows, m) - month_expense(rows, m))
}

pub open spec fn lists_month(ms: Seq<MonthlyBucket>, m: Seq<char>) -> bool {
    exists|j: int| 0 <= j < ms.len() && (#[trigger] ms[j]).month@ == m
}

/// One bucket per month some row opens, chronological.
pub open spec fn monthly_trend_match(rows: Seq<TxnRow>, ms: Seq<MonthlyBucket>) -> bool {
    &&& forall|i: int, j: int|
        #![trigger ms[i], ms[j]]
        0 <= i < j < ms.len() ==> text_less(ms[i].month@, ms[j].month@)
    &&& forall|t: int|
        0 <= t < rows.len() && opens_bucket(#[trigger] rows[t]) ==> lists_month(
            ms,
            row_month(rows[t])->0,
        )
    &&& forall|j: int| 0 <= j < ms.len() ==> bucket_ok(rows, #[trigger] ms[j])
}

/// Buckets with an investment outflow.
pub open spec fn invested_months(rows: Seq<TxnRow>, ms: Seq<MonthlyBucket>) -> int
    decreases ms.len(),
{
    if ms.len() == 0 {
        0
    } else {
        invested_months(rows, ms.drop_last()) + if month_investment(rows, ms.last().month@) > 0 {
            1int
        } else {
            0int
        }
    }
}

pub proof fn lemma_group_sums_bounded(rows: Seq<TxnRow>, c: Seq<char>)
    requires
        rows_in_range(rows),
    ensures
        abs(cat_debit(rows, c)) <= MONEY_LIMIT,
        abs(cat_credit(rows, c)) <= MONEY_LIMIT,
        abs(month_income(rows, c)) <= MONEY_LIMIT,
        abs(month_expense(rows, c)) <= MONEY_LIMIT,
{
    lemma_cat_fns_bounded(c);
    lemma_month_fns_bounded(c);
    lemma_sum_by_bounded(rows, cat_debit_fn(c));
    lemma_sum_by_bounded(rows, cat_credit_fn(c));
    lemma_sum_by_bounded(rows, month_income_fn(c));
    lemma_sum_by_bounded(rows, month_expense_fn(c));
}

fn category_outputs(rows: &Vec<TxnRow>, sorted: &Vec<CatAcc>) -> (r: (Vec<CategoryTotal>, Vec<CategorySpend>))
    requires
        rows_in_range(rows@),
        groups_categories(rows@, sorted@),
        sorted_by_rank(sorted@),
    ensures
        category_totals_match(rows@, r.0@),
        spend_matches(rows@, r.0@, r.1@),
{
    let mut cts: Vec<CategoryTotal> = Vec::new();
    let mut sp: Vec<CategorySpend> = Vec::new();
    let n = sorted.len();
    let mut i: usize = 0;
    while i < n
        invariant
            0 <= i <= n,
            n == sorted@.len(),
            rows_in_range(rows@),
            groups_categories(rows@, sorted@),
            cts@.len() == i,
            sp@.len() == i,
            forall|j: int| 0 <= j < i ==> (#[trigger] cts@[j]).category@ == sorted@[j].category@,
            forall|j: int| 0 <= j < i ==> category_total_ok(rows@, #[trigger] cts@[j]),
            forall|j: int|
                0 <= j < i ==> {
                    let c = (#[trigger] sp@[j]).category@;
                    &&& c == cts@[j].category@
                    &&& sp@[j].debit == cat_debit(rows@, c)
                    &&& sp@[j].count == cat_count(rows@, c)
                    &&& sp@[j].kind == kind_of_label(c)
                },
        decreases n - i,
    {
        let a = &sorted[i];
        proof {
            reveal(cat_entry_ok);
            assert(cat_entry_ok(rows@, sorted@[i as int]));
            lemma_group_sums_bounded(rows@, a.category@);
        }
        let kind = classify_category(a.category.as_str());
        cts.push(
            CategoryTotal {
                category: a.category.clone(),
                count: a.count,
                total_debit: format_cents(a.debit),
                total_credit: format_cents(a.credit),
                kind: kind.as_str(),
            },
        );
        sp.push(CategorySpend { category: a.category.clone(), debit: a.debit, count: a.count, kind });
        i = i + 1;
    }
    proof {
        reveal(cat_entry_ok);
        assert forall|t: int| 0 <= t < rows@.len() implies lists_category(
            cts@,
            row_label(#[trigger] rows@[t]),
        ) by {
            assert(has_category(sorted@, row_label(rows@[t])));
            let j = choose|j: int| 0 <= j < sorted@.len() && (#[trigger] sorted@[j]).category@ == row_label(rows@[t]);
            assert(cts@[j].category@ == row_label(rows@[t]));
        }
        assert forall|x: int, y: int|
            #![trigger cts@[x], cts@[y]]
            0 <= x < y < cts@.len() implies !cat_ranks_before(
            rows@,
            cts@[y].category@,
            cts@[x].category@,
        ) by {
            assert(cat_entry_ok(rows@, sorted@[x]));
            assert(cat_entry_ok(rows@, sorted@[y]));
            assert(!sorted@[y].ranks_before(&sorted@[x]));
        }
        assert forall|x: int, y: int|
            0 <= x < cts@.len() && 0 <= y < cts@.len() && x != y implies (#[trigger] cts@[x]).category@
            != (#[trigger] cts@[y]).category@ by {
            assert(sorted@[x].category@ != sorted@[y].category@);
        }
    }
    (cts, sp)
}

fn month_outputs(rows: &Vec<TxnRow>, sorted: &Vec<MonthAcc>) -> (r: (Vec<MonthlyBucket>, u32))
    requires
        rows_in_range(rows@),
        groups_months(rows@, sorted@),
        sorted_by_rank(sorted@),
    ensures
        monthly_trend_match(rows@, r.0@),
        r.0@.len() == sorted@.len(),
        r.1 == invested_months(rows@, r.0@) as u32,
{
    let mut ms: Vec<MonthlyBucket> = Vec::new();
    let mut invested: usize = 0;
    let n = sorted.len();
    let mut i: usize = 0;
    while i < n
        invariant
            0 <= i <= n,
            n == sorted@.len(),
            rows_in_range(rows@),
            groups_months(rows@, sorted@),
            ms@.len() == i,
            forall|j: int| 0 <= j < i ==> (#[trigger] ms@[j]).month@ == sorted@[j].month@,
            forall|j: int| 0 <= j < i ==> bucket_ok(rows@, #[trigger] ms@[j]),
            invested == invested_months(rows@, ms@),
            invested <= i,
        decreases n - i,
    {
        let a = &sorted[i];
        proof {
            lemma_group_sums_bounded(rows@, a.month@);
        }
        let b = MonthlyBucket {
            month: a.month.clone(),
            income: format_cents(a.income),
            expense: format_cents(a.expense),
            net: format_cents(a.income - a.expense),
        };
        let ghost old_ms = ms@;
        ms.push(b);
        proof {
            assert(ms@.drop_last() =~= old_ms);
        }
        if a.investment > 0 {
            invested = invested + 1;
        }
        i = i + 1;
    }
    proof {
        assert forall|t: int|
            0 <= t < rows@.len() && opens_bucket(#[trigger] rows@[t]) implies lists_month(
            ms@,
            row_month(rows@[t])->0,
        ) by {
            let j = choose|j: int| 0 <= j < sorted@.len() && Some((#[trigger] sorted@[j]).month@) == row_month(rows@[t]);
            assert(ms@[j].month@ == row_month(rows@[t])->0);
        }
        assert forall|x: int, y: int|
            #![trigger ms@[x], ms@[y]]
            0 <= x < y < ms@.len() implies text_less(ms@[x].month@, ms@[y].month@) by {
            assert(!sorted@[y].ranks_before(&sorted@[x]));
            assert(sorted@[x].month@ != sorted@[y].month@);
            lemma_text_less_total(sorted@[x].month@, sorted@[y].month@);
        }
    }
    (ms, invested as u32)
}

/// Aggregates every statement row: headline totals, transfers, period,
/// per-category totals and the monthly trend.
pub fn summarise_rows(import_count: u32, rows: &Vec<TxnRow>) -> (r: RowsSummary)
    requires
        rows_in_range(rows@),
    ensures
        r.import_count == import_count,
        opt_view(r.period_start) == earliest_date(rows@),
        opt_view(r.period_end) == latest_date(rows@),
        r.transaction_count == rows@.len(),
        r.income == total_income(rows@),
        r.expense == total_expense(rows@),
        r.essential == total_essential(rows@),
        r.total_income@ == cents_text(total_income(rows@)),
        r.total_expense@ == cents_text(total_expense(rows@)),
        r.net_savings@ == cents_text(total_income(rows@) - total_expense(rows@)),
        r.transfer_count == transfer_count(rows@),
        r.transfer_total@ == cents_text(total_transfer(rows@)),
        category_totals_match(rows@, r.category_totals@),
        spend_matches(rows@, r.category_totals@, r.category_spend@),
        monthly_trend_match(rows@, r.monthly_trend@),
        r.total_months == r.monthly_trend@.len() as u32,
        r.months_with_investment == invested_months(rows@, r.monthly_trend@) as u32,
{
    let h = headline_totals(rows);
    proof {
        lemma_parts_bounded();
        lemma_abs_total_prefix(rows@, rows@.len() as int);
        assert(rows@.subrange(0, rows@.len() as int) =~= rows@);
        lemma_sum_by_bounded(rows@, income_fn());
        lemma_sum_by_bounded(rows@, expense_fn());
        lemma_sum_by_bounded(rows@, transfer_fn());
    }
    let (earliest, latest) = period_bounds(rows);
    let cats = accumulate_categories(rows);
    let sorted_cats = sort_by_rank(cats);
    proof {
        lemma_categories_reordered(rows@, cats@, sorted_cats@);
    }
    let (category_totals, category_spend) = category_outputs(rows, &sorted_cats);
    let months = accumulate_months(rows);
    let sorted_months = sort_by_rank(months);
    proof {
        lemma_months_reordered(rows@, months@, sorted_months@);
    }
    let (monthly_trend, invested) = month_outputs(rows, &sorted_months);
    let total_months = sorted_months.len() as u32;
    RowsSummary {
        import_count,
        period_start: earliest,
        period_end: latest,
        transaction_count: rows.len() as u32,
        total_income: format_cents(h.income),
        total_expense: format_cents(h.expense),
        net_savings: format_cents(h.income - h.expense),
        transfer_count: h.transfer_count,
        transfer_total: format_cents(h.transfer),
        category_totals,
        monthly_trend,
        income: h.income,
        expense: h.expense,
        essential: h.essential,
        months_with_investment: invested,
        total_months,
        category_spend,
    }
}

// ---------------------------------------------------------------------------
// Recommendations
// ---------------------------------------------------------------------------

pub struct Recommendation {
    /// `"expense-cut"`, `"wealth-building"` or `"behavioral"`.
    pub kind: &'static str,
    pub title: String,
    pub detail: String,
    /// Two-decimal text; absent when the advice has no monetary impact.
    pub monthly_impact: Option<String>,
}

/// Where the savings rate (net / income) stands, as the health computation
/// measures it: under 10 %, under 30 %, or at least 30 %.
#[derive(Clone, Copy, Debug, PartialEq, Eq, Structural)]
pub enum SavingsBand {
    UnderTen,
    UnderThirty,
    Healthy,
}

/// A recommendation as plain text: kind, title, detail, monthly impact.
pub open spec fn rec_view(r: Recommendation) -> (Seq<char>, Seq<char>, Seq<char>, Option<Seq<char>>) {
    (r.kind@, r.title@, r.detail@, opt_view(r.monthly_impact))
}

/// A discretionary expense category with real outflow: the candidate for a
/// trim.
pub open spec fn is_discretionary_spend(x: CategorySpend) -> bool {
    x.kind == CategoryKind::Expense && !essential_label(x.category@) && x.debit > 0
}

/// Index of the first discretionary spend (the list is ranked by debit, so
/// this is the largest).
pub open spec fn first_discretionary(s: Seq<CategorySpend>) -> Option<int>
    decreases s.len(),
{
    if s.len() == 0 {
        None
    } else if is_discretionary_spend(s[0]) {
        Some(0)
    } else {
        match first_discretionary(s.drop_first()) {
            Some(i) => Some(i + 1),
            None => None,
        }
    }
}

proof fn lemma_first_discretionary(s: Seq<CategorySpend>)
    ensures
        match first_discretionary(s) {
            Some(i) => 0 <= i < s.len() && is_discretionary_spend(s[i]),
            None => true,
        },
    decreases s.len(),
{
    if s.len() > 0 && !is_discretionary_spend(s[0]) {
        lemma_first_discretionary(s.drop_first());
    }
}

pub open spec fn expense_cut_title(category: Seq<char>) -> Seq<char> {
    "Cut "@ + category + " by 20%"@
}

/// The number of months a period total is spread over: at least one.
pub open spec fn effective_months(months: nat) -> nat {
    if months == 0 {
        1
    } else {
        months
    }
}

/// The monthly average as `rust_decimal` computes it: the period debit (two
/// places) divided by the number of months.
pub open spec fn monthly_avg_parts(debit: int, months: nat) -> (bool, u128, u32) {
    decimal_quotient(cents_parts(debit), (false, months as u128, 0u32))
}

/// The 20 % trim: the monthly average times `0.2`, as `rust_decimal`
/// multiplies.
pub open spec fn monthly_trim_parts(debit: int, months: nat) -> (bool, u128, u32) {
    decimal_product(monthly_avg_parts(debit, months), (false, 2u128, 1u32))
}

/// A decimal given by its parts is greater than the whole number `k`.
pub open spec fn parts_exceed(t: (bool, u128, u32), k: nat) -> bool {
    !t.0 && t.1 > k * pow10(t.2 as nat)
}

/// The expense-cut explanation: the monthly average and the 20 % trim over
/// `months` (both written with two places), naming the period as `shown`
/// months.
pub open spec fn expense_cut_detail(category: Seq<char>, debit: int, count: nat, shown: nat, months: nat) -> Seq<char> {
    category + " ran at roughly ₹"@ + parts_text2(monthly_avg_parts(debit, months)) + "/month across "@
        + nat_text(count) + " transactions over "@ + nat_text(shown)
        + " month(s). A 20% reduction would free up about ₹"@ + parts_text2(
        monthly_trim_parts(debit, months),
    ) + " every month."@
}

/// The expense-cut recommendation, when the top discretionary category's
/// 20 % monthly trim is above ₹500. A period of `shown` months is spread over
/// at least one month.
pub open spec fn expense_cut_part(s: Seq<CategorySpend>, shown: nat) -> Seq<(Seq<char>, Seq<char>, Seq<char>, Option<Seq<char>>)> {
    let months = effective_months(shown);
    match first_discretionary(s) {
        Some(i) => {
            let x = s[i];
            if parts_exceed(monthly_trim_parts(x.debit as int, months), 500) {
                seq![
                    (
                        "expense-cut"@,
                        expense_cut_title(x.category@),
                        expense_cut_detail(x.category@, x.debit as int, x.count as nat, shown, months),
                        Some(parts_text2(monthly_trim_parts(x.debit as int, months))),
                    ),
                ]
            } else {
                seq![]
            }
        },
        None => seq![],
    }
}

pub open spec fn savings_part(income: int, band: SavingsBand) -> Seq<(Seq<char>, Seq<char>, Seq<char>, Option<Seq<char>>)> {
    if income > 0 && band == SavingsBand::UnderTen {
        seq![
            (
                "wealth-building"@,
                "Build an emergency fund first"@,
                "Savings rate is under 10%. Target a buffer worth 3 months of expenses in a liquid account before optimizing anything else."@,
                None,
            ),
        ]
    } else if income > 0 && band == SavingsBand::UnderThirty {
        seq![
            (
                "wealth-building"@,
                "Push savings rate toward 30%"@,
                "Solid baseline. Each additional rupee saved compounds — consider a fixed SIP step-up so saving happens before spending."@,
                None,
            ),
        ]
    } else {
        seq![]
    }
}

pub open spec fn behavioral_part(ess_score: u32, cut_given: bool) -> Seq<(Seq<char>, Seq<char>, Seq<char>, Option<Seq<char>>)> {
    if ess_score < 40 && !cut_given {
        seq![
            (
                "behavioral"@,
                "Discretionary spend is large vs essentials"@,
                "More than 60% of expenses are non-essential. Review the top discretionary categories in 'Where the money went' and pick one to reduce next month."@,
                None,
            ),
        ]
    } else {
        seq![]
    }
}

pub open spec fn has_investment_outflow(s: Seq<CategorySpend>) -> bool {
    exists|i: int| 0 <= i < s.len() && (#[trigger] s[i]).kind == CategoryKind::Investment && s[i].debit > 0
}

pub open spec fn investing_nudge_part(s: Seq<CategorySpend>) -> Seq<(Seq<char>, Seq<char>, Seq<char>, Option<Seq<char>>)> {
    if !has_investment_outflow(s) {
        seq![
            (
                "wealth-building"@,
                "Start tracking investments"@,
                "No investment outflows seen yet. Categorize SIPs, mutual-fund purchases, PPF/NPS contributions, or fixed deposits under labels like 'SIP', 'Mutual Fund', 'Investments', 'PPF', or 'NPS' to feed the investment-consistency driver of the health score."@,
                None,
            ),
        ]
    } else {
        seq![]
    }
}

/// Up to four recommendations, in order: the expense cut, the savings-rate
/// nudge, the behavioral nudge (only when no cut was named), the investment
/// nudge.
pub open spec fn recommendations_spec(
    s: Seq<CategorySpend>,
    income: int,
    band: SavingsBand,
    ess_score: u32,
    months: nat,
) -> Seq<(Seq<char>, Seq<char>, Seq<char>, Option<Seq<char>>)> {
    let cut = expense_cut_part(s, months);
    cut + savings_part(income, band) + behavioral_part(ess_score, cut.len() > 0) + investing_nudge_part(s)
}

fn find_discretionary(spend: &Vec<CategorySpend>) -> (r: Option<usize>)
    ensures
        match r {
            Some(i) => first_discretionary(spend@) == Some(i as int) && i < spend@.len(),
            None => first_discretionary(spend@).is_none(),
        },
{
    let n = spend.len();
    let mut i: usize = 0;
    assert(spend@.subrange(0, n as int) =~= spend@);
    while i < n
        invariant
            0 <= i <= n,
            n == spend@.len(),
            first_discretionary(spend@) == match first_discretionary(spend@.subrange(i as int, n as int)) {
                Some(k) => Some(k + i),
                None => None,
            },
        decreases n - i,
    {
        let x = &spend[i];
        let ghost tail = spend@.subrange(i as int, n as int);
        assert(tail[0] == spend@[i as int]);
        assert(tail.drop_first() =~= spend@.subrange(i + 1, n as int));
        if x.kind == CategoryKind::Expense && !is_essential(x.category.as_str()) && x.debit > 0 {
            return Some(i);
        }
        i = i + 1;
    }
    None
}

fn has_investment(spend: &Vec<CategorySpend>) -> (r: bool)
    ensures
        r == has_investment_outflow(spend@),
{
    let n = spend.len();
    let mut i: usize = 0;
    while i < n
        invariant
            0 <= i <= n,
            n == spend@.len(),
            forall|k: int| 0 <= k < i ==> !((#[trigger] spend@[k]).kind == CategoryKind::Investment && spend@[k].debit > 0),
        decreases n - i,
    {
        if spend[i].kind == CategoryKind::Investment && spend[i].debit > 0 {
            return true;
        }
        i = i + 1;
    }
    false
}

/// Surface up to four actionable recommendations, leading with the
/// highest-impact expense cut. `spend` is ranked by debit (descending);
/// `months_in_period` (taken as 1 when 0) turns a period total into a
/// monthly figure; `band` and `ess_score` come from the health score.
pub fn build_recommendations(
    spend: &Vec<CategorySpend>,
    income: i128,
    band: SavingsBand,
    ess_score: u32,
    months_in_period: u32,
) -> (r: Vec<Recommendation>)
    requires
        forall|i: int| 0 <= i < spend@.len() ==> abs((#[trigger] spend@[i]).debit as int) <= MONEY_LIMIT,
    ensures
        r@.map_values(|x: Recommendation| rec_view(x)) == recommendations_spec(
            spend@,
            income as int,
            band,
            ess_score,
            months_in_period as nat,
        ),
{
    let mut out: Vec<Recommendation> = Vec::new();
    let mut cut_given = false;
    let ghost months = months_in_period as nat;
    match find_discretionary(spend) {
        Some(i) => {
            let x = &spend[i];
            let m: i128 = if months_in_period == 0 {
                1
            } else {
                months_in_period as i128
            };
            proof {
                lemma_first_discretionary(spend@);
                assert(abs(spend@[i as int].debit as int) <= MONEY_LIMIT);
            }
            let period = DecimalValue { negative: false, mantissa: x.debit as u128, scale: 2 };
            let spread = DecimalValue { negative: false, mantissa: m as u128, scale: 0 };
            proof {
                assert(pow10(2) == 100 && pow10(0) == 1) by {
                    reveal_with_fuel(pow10, 3);
                }
                assert(x.debit * 1 <= (MONEY_LIMIT - 1) * m * 100) by (nonlinear_arith)
                    requires
                        x.debit <= MONEY_LIMIT,
                        m >= 1,
                ;
            }
            let avg_d = decimal_div(&period, &spread);
            let fifth = DecimalValue { negative: false, mantissa: 2, scale: 1 };
            proof {
                lemma_pow10_mono(1, (avg_d.scale + 1) as nat);
                assert(pow10(1) == 10) by {
                    reveal_with_fuel(pow10, 2);
                }
                assert(avg_d.mantissa * 2 <= MONEY_LIMIT * pow10((avg_d.scale + 1) as nat))
                    by (nonlinear_arith)
                    requires
                        avg_d.mantissa <= MONEY_LIMIT,
                        pow10((avg_d.scale + 1) as nat) >= 10,
                ;
            }
            let trim_d = decimal_mul(&avg_d, &fifth);
            if trim_d.exceeds_exec(500) {
                let avg = avg_d.to_text2();
                let trim = trim_d.to_text2();
                let mut title = string_of("Cut ");
                title.append(x.category.as_str());
                title.append(" by 20%");
                let mut detail = string_of(x.category.as_str());
                detail.append(" ran at roughly ₹");
                detail.append(avg.as_str());
                detail.append("/month across ");
                detail.append(nat_string(x.count as u128).as_str());
                detail.append(" transactions over ");
                detail.append(nat_string(months_in_period as u128).as_str());
                detail.append(" month(s). A 20% reduction would free up about ₹");
                detail.append(trim.as_str());
                detail.append(" every month.");
                let impact = trim.clone();
                out.push(
                    Recommendation {
                        kind: "expense-cut",
                        title,
                        detail,
                        monthly_impact: Some(impact),
                    },
                );
                cut_given = true;
            }
        },
        None => {},
    }
    let ghost after_cut = out@;
    assert(after_cut.map_values(|x: Recommendation| rec_view(x)) =~= expense_cut_part(spend@, months));
    if income > 0 {
        match band {
            SavingsBand::UnderTen => {
                out.push(
                    Recommendation {
                        kind: "wealth-building",
                        title: string_of("Build an emergency fund first"),
                        detail: string_of(
                            "Savings rate is under 10%. Target a buffer worth 3 months of expenses in a liquid account before optimizing anything else.",
                        ),
                        monthly_impact: None,
                    },
                );
            },
            SavingsBand::UnderThirty => {
                out.push(
                    Recommendation {
                        kind: "wealth-building",
                        title: string_of("Push savings rate toward 30%"),
                        detail: string_of(
                            "Solid baseline. Each additional rupee saved compounds — consider a fixed SIP step-up so saving happens before spending.",
                        ),
                        monthly_impact: None,
                    },
                );
            },
            SavingsBand::Healthy => {},
        }
    }
    let ghost after_savings = out@;
    assert(after_savings.map_values(|x: Recommendation| rec_view(x)) =~= expense_cut_part(spend@, months) + savings_part(income as int, band));
    if ess_score < 40 && !cut_given {
        out.push(
            Recommendation {
                kind: "behavioral",
                title: string_of("Discretionary spend is large vs essentials"),
                detail: string_of(
                    "More than 60% of expenses are non-essential. Review the top discretionary categories in 'Where the money went' and pick one to reduce next month.",
                ),
                monthly_impact: None,
            },
        );
    }
    let ghost after_behavioral = out@;
    assert(after_behavioral.map_values(|x: Recommendation| rec_view(x)) =~= expense_cut_part(spend@, months) + savings_part(income as int, band) + behavioral_part(ess_score, expense_cut_part(spend@, months).len() > 0));
    if !has_investment(spend) {
        out.push(
            Recommendation {
                kind: "wealth-building",
                title: string_of("Start tracking investments"),
                detail: string_of(
                    "No investment outflows seen yet. Categorize SIPs, mutual-fund purchases, PPF/NPS contributions, or fixed deposits under labels like 'SIP', 'Mutual Fund', 'Investments', 'PPF', or 'NPS' to feed the investment-consistency driver of the health score.",
                ),
                monthly_impact: None,
            },
        );
    }
    assert(out@.map_values(|x: Recommendation| rec_view(x)) =~= recommendations_spec(
        spend@,
        income as int,
        band,
        ess_score,
        months,
    ));
    out
}

// ---------------------------------------------------------------------------
// Laws of the aggregate
// ---------------------------------------------------------------------------

/// Law: a transfer between own accounts moves neither income nor expense.
pub proof fn law_transfer_excluded_from_income_and_expense(rows: Seq<TxnRow>, t: TxnRow)
    requires
        row_kind(t) == CategoryKind::Transfer,
    ensures
        total_income(rows.push(t)) == total_income(rows),
        total_expense(rows.push(t)) == total_expense(rows),
        total_transfer(rows.push(t)) == total_transfer(rows) + debit_of(t) + credit_of(t),
{
    assert(rows.push(t).drop_last() =~= rows);
}

/// Law: an investment outflow is not expense; its inflow is income.
pub proof fn law_investment_not_expense(rows: Seq<TxnRow>, t: TxnRow)
    requires
        row_kind(t) == CategoryKind::Investment,
    ensures
        total_expense(rows.push(t)) == total_expense(rows),
        total_income(rows.push(t)) == total_income(rows) + if credit_of(t) > 0 {
            credit_of(t)
        } else {
            0
        },
{
    assert(rows.push(t).drop_last() =~= rows);
}

/// Law: expense, overall and per month, is never negative; a credit on an
/// expense category is counted as income instead.
pub proof fn law_expense_never_negative(rows: Seq<TxnRow>, m: Seq<char>)
    ensures
        total_expense(rows) >= 0,
        month_expense(rows, m) >= 0,
    decreases rows.len(),
{
    if rows.len() > 0 {
        law_expense_never_negative(rows.drop_last(), m);
    }
}

/// Law: a row whose date is malformed still counts in the headline totals
/// but in no month of the trend.
pub proof fn law_malformed_date_skips_trend(rows: Seq<TxnRow>, t: TxnRow, m: Seq<char>)
    requires
        iso_month(t.txn_date@).is_none(),
    ensures
        month_income(rows.push(t), m) == month_income(rows, m),
        month_expense(rows.push(t), m) == month_expense(rows, m),
        month_investment(rows.push(t), m) == month_investment(rows, m),
        !opens_bucket(t),
        total_income(rows.push(t)) == total_income(rows) + income_part(t),
        total_expense(rows.push(t)) == total_expense(rows) + expense_part(t),
{
    assert(rows.push(t).drop_last() =~= rows);
}

pub open spec fn cat_count_of() -> spec_fn(Seq<char>) -> spec_fn(TxnRow) -> int {
    |c: Seq<char>| cat_count_fn(c)
}

pub open spec fn cat_totals_debit_of() -> spec_fn(Seq<char>) -> spec_fn(TxnRow) -> int {
    |c: Seq<char>| cat_debit_fn(c)
}

pub open spec fn cat_totals_credit_of() -> spec_fn(Seq<char>) -> spec_fn(TxnRow) -> int {
    |c: Seq<char>| cat_credit_fn(c)
}

pub open spec fn one_fn() -> spec_fn(TxnRow) -> int {
    |r: TxnRow| 1int
}

/// The categories of the totals, in order.
pub open spec fn total_categories(cts: Seq<CategoryTotal>) -> Seq<Seq<char>> {
    cts.map_values(|c: CategoryTotal| c.category@)
}

proof fn lemma_sum_of_ones(rows: Seq<TxnRow>)
    ensures
        sum_by(rows, one_fn()) == rows.len(),
    decreases rows.len(),
{
    if rows.len() > 0 {
        lemma_sum_of_ones(rows.drop_last());
    }
}

/// Law: every row lands in exactly one category total: the counts add up to
/// the number of rows, and the debit and credit totals to the sums of all
/// debits and credits.
pub proof fn law_category_totals_account_for_every_row(rows: Seq<TxnRow>, cts: Seq<CategoryTotal>)
    requires
        category_totals_match(rows, cts),
    ensures
        sum_over_categories(total_categories(cts), rows, cat_count_of()) == rows.len(),
        sum_over_categories(total_categories(cts), rows, cat_totals_debit_of()) == sum_by(
            rows,
            upload::debit_amount_fn(),
        ),
        sum_over_categories(total_categories(cts), rows, cat_totals_credit_of()) == sum_by(
            rows,
            upload::credit_amount_fn(),
        ),
{
    let cs = total_categories(cts);
    assert(cs.no_duplicates()) by {
        assert forall|a: int, b: int| 0 <= a < cs.len() && 0 <= b < cs.len() && a != b implies cs[a]
            != cs[b] by {
            assert(cts[a].category@ != cts[b].category@);
        }
    }
    assert forall|t: int| 0 <= t < rows.len() implies cs.contains(row_label(#[trigger] rows[t])) by {
        assert(lists_category(cts, row_label(rows[t])));
        let j = choose|j: int| 0 <= j < cts.len() && (#[trigger] cts[j]).category@ == row_label(rows[t]);
        assert(cs[j] == row_label(rows[t]));
    }
    assert(restricts(cat_count_of(), one_fn()));
    assert(restricts(cat_totals_debit_of(), upload::debit_amount_fn()));
    assert(restricts(cat_totals_credit_of(), upload::credit_amount_fn()));
    lemma_partition(cs, rows, cat_count_of(), one_fn());
    lemma_partition(cs, rows, cat_totals_debit_of(), upload::debit_amount_fn());
    lemma_partition(cs, rows, cat_totals_credit_of(), upload::credit_amount_fn());
    lemma_sum_of_ones(rows);
}

} // verus!
