//! Statement imports: where their files live, per-import summaries, the
//! category breakdown, and the categorization passes over freshly parsed rows.

use crate::dashboard::{
    accumulate_categories, cat_credit, cat_credit_fn, cat_credit_rows, cat_credit_rows_fn,
    cat_debit, cat_debit_fn, cat_debit_rows, cat_debit_rows_fn, cat_entry_ok,
    groups_categories, has_category, has_label, lemma_group_sums_bounded,
};
use crate::llm::{Direction, LookupItem, LookupResult};
use crate::merchant_cache::{cache_key, cache_key_text, MerchantCacheDoc, MerchantCacheEntry};
use crate::money::{abs, cents_text, format_cents, MONEY_LIMIT};
use crate::sorting::{lemma_same_elements, sort_by_rank, stable_arrangement, Ranked};
use crate::text::{
    lemma_text_less_negative_transitive,
    byte_slice, lemma_text_less_irreflexive, lemma_text_less_total, lemma_text_less_transitive,
    nat_text, opt_view, push_nat, starts_with_seq, str_byte_slice, str_eq, str_less,
    str_starts_with, string_of, text_less, trim, trim_seq,
};
use crate::transactions::{
    credit_of, debit_of, lemma_abs_total_prefix, lemma_partition, lemma_sum_by_bounded,
    lemma_sum_by_count, lemma_sum_by_step, restricts, row_label, row_weight, rows_in_range, sum_by,
    sum_over_categories, TxnRow,
};
use vstd::prelude::*;

verus! {

/// Default for a missing amount field in stored import metadata.
pub fn zero_str() -> (r: String)
    ensures
        r@ == "0.00"@,
{
    string_of("0.00")
}

/// `(year, month)` taken from an import id `imp-YYYY-MM-DD-xxxxxx`: the
/// byte ranges 0..4 and 5..7 after the `imp-` prefix.
pub open spec fn import_year_month(id: Seq<char>) -> Option<(Seq<char>, Seq<char>)> {
    if starts_with_seq(id, "imp-"@) {
        let after = id.subrange(4, id.len() as int);
        match (byte_slice(after, 0, 4), byte_slice(after, 5, 7)) {
            (Some(y), Some(m)) => Some((y, m)),
            _ => None,
        }
    } else {
        None
    }
}

pub fn parse_year_month(import_id: &str) -> (r: Option<(&str, &str)>)
    ensures
        match r {
            Some((y, m)) => import_year_month(import_id@) == Some((y@, m@)),
            None => import_year_month(import_id@).is_none(),
        },
{
    proof {
        reveal_strlit("imp-");
    }
    if !str_starts_with(import_id, "imp-") {
        return None;
    }
    let n = import_id.unicode_len();
    let after = import_id.substring_char(4, n);
    let year = str_byte_slice(after, 0, 4);
    let month = str_byte_slice(after, 5, 7);
    match (year, month) {
        (Some(y), Some(m)) => Some((y, m)),
        _ => None,
    }
}

/// `source/uploads/{year}/{month}/{import_id}/{file_name}`, with `0000` and
/// `00` standing in when the id does not carry a date.
pub open spec fn upload_path_text(import_id: Seq<char>, file_name: Seq<char>) -> Seq<char> {
    let (y, m) = match import_year_month(import_id) {
        Some((y, m)) => (y, m),
        None => ("0000"@, "00"@),
    };
    "source/uploads/"@ + y + "/"@ + m + "/"@ + import_id + "/"@ + file_name
}

pub fn upload_path(import_id: &str, file_name: &str) -> (r: String)
    ensures
        r@ == upload_path_text(import_id@, file_name@),
{
    let (y, m) = match parse_year_month(import_id) {
        Some((y, m)) => (y, m),
        None => ("0000", "00"),
    };
    let mut out = string_of("source/uploads/");
    out.append(y);
    out.append("/");
    out.append(m);
    out.append("/");
    out.append(import_id);
    out.append("/");
    out.append(file_name);
    out
}

// ---------------------------------------------------------------------------
// Per-import totals
// ---------------------------------------------------------------------------

/// Totals of one category within an import.
pub struct CategoryBreakdown {
    pub category: String,
    pub debit_count: u32,
    pub credit_count: u32,
    pub total_debit: String,
    pub total_credit: String,
}

/// What is stored about an import besides its rows.
pub struct FileMeta {
    pub import_id: String,
    pub uploaded_at: String,
    pub source_file: String,
    pub source_sha256: String,
    pub adapter_id: String,
    pub adapter_version: String,
    pub page_count: u32,
    pub transaction_count: u32,
    pub debit_count: u32,
    pub credit_count: u32,
    pub total_debit: String,
    pub total_credit: String,
    /// Sorted by debit total, then credit total, both descending, then by
    /// category name.
    pub category_breakdown: Vec<CategoryBreakdown>,
}

pub open spec fn debit_row_fn() -> spec_fn(TxnRow) -> int {
    |r: TxnRow|
        if r.debit.is_some() {
            1int
        } else {
            0int
        }
}

pub open spec fn credit_row_fn() -> spec_fn(TxnRow) -> int {
    |r: TxnRow|
        if r.credit.is_some() {
            1int
        } else {
            0int
        }
}

pub open spec fn debit_amount_fn() -> spec_fn(TxnRow) -> int {
    |r: TxnRow| debit_of(r)
}

pub open spec fn credit_amount_fn() -> spec_fn(TxnRow) -> int {
    |r: TxnRow| credit_of(r)
}

/// Counts and sums of the debits and credits of an import.
pub struct ImportTotals {
    pub debit_count: u32,
    pub credit_count: u32,
    pub total_debit: i128,
    pub total_credit: i128,
}

pub fn import_totals(rows: &Vec<TxnRow>) -> (r: ImportTotals)
    requires
        rows_in_range(rows@),
    ensures
        r.debit_count == sum_by(rows@, debit_row_fn()),
        r.credit_count == sum_by(rows@, credit_row_fn()),
        r.total_debit == sum_by(rows@, debit_amount_fn()),
        r.total_credit == sum_by(rows@, credit_amount_fn()),
        abs(r.total_debit as int) <= MONEY_LIMIT,
        abs(r.total_credit as int) <= MONEY_LIMIT,
{
    let n = rows.len();
    let mut dc: u32 = 0;
    let mut cc: u32 = 0;
    let mut td: i128 = 0;
    let mut tc: i128 = 0;
    let mut i: usize = 0;
    proof {
        assert(rows@.subrange(0, 0) =~= Seq::<TxnRow>::empty());
        assert forall|r: TxnRow| abs(#[trigger] debit_amount_fn()(r)) <= row_weight(r) by {}
        assert forall|r: TxnRow| abs(#[trigger] credit_amount_fn()(r)) <= row_weight(r) by {}
        assert forall|r: TxnRow| 0 <= #[trigger] debit_row_fn()(r) <= 1 by {}
        assert forall|r: TxnRow| 0 <= #[trigger] credit_row_fn()(r) <= 1 by {}
    }
    while i < n
        invariant
            0 <= i <= n,
            n == rows@.len(),
            rows_in_range(rows@),
            forall|r: TxnRow| abs(#[trigger] debit_amount_fn()(r)) <= row_weight(r),
            forall|r: TxnRow| abs(#[trigger] credit_amount_fn()(r)) <= row_weight(r),
            forall|r: TxnRow| 0 <= #[trigger] debit_row_fn()(r) <= 1,
            forall|r: TxnRow| 0 <= #[trigger] credit_row_fn()(r) <= 1,
            dc == sum_by(rows@.subrange(0, i as int), debit_row_fn()),
            cc == sum_by(rows@.subrange(0, i as int), credit_row_fn()),
            td == sum_by(rows@.subrange(0, i as int), debit_amount_fn()),
            tc == sum_by(rows@.subrange(0, i as int), credit_amount_fn()),
        decreases n - i,
    {
        let ghost next = rows@.subrange(0, i + 1);
        proof {
            lemma_sum_by_step(rows@, i as int, debit_row_fn());
            lemma_sum_by_step(rows@, i as int, credit_row_fn());
            lemma_sum_by_step(rows@, i as int, debit_amount_fn());
            lemma_sum_by_step(rows@, i as int, credit_amount_fn());
            lemma_abs_total_prefix(rows@, i + 1);
            lemma_sum_by_bounded(next, debit_amount_fn());
            lemma_sum_by_bounded(next, credit_amount_fn());
            lemma_sum_by_count(next, debit_row_fn());
            lemma_sum_by_count(next, credit_row_fn());
        }
        let r = &rows[i];
        match r.debit {
            Some(d) => {
                dc = dc + 1;
                td = td + d;
            },
            None => {},
        }
        match r.credit {
            Some(c) => {
                cc = cc + 1;
                tc = tc + c;
            },
            None => {},
        }
        i = i + 1;
    }
    proof {
        assert(rows@.subrange(0, n as int) =~= rows@);
        lemma_sum_by_bounded(rows@, debit_amount_fn());
        lemma_sum_by_bounded(rows@, credit_amount_fn());
    }
    ImportTotals { debit_count: dc, credit_count: cc, total_debit: td, total_credit: tc }
}

// ---------------------------------------------------------------------------
// Category breakdown
// ---------------------------------------------------------------------------

/// Category `c` is listed before `d`: larger debit total, then larger credit
/// total, then name order.
pub open spec fn breakdown_before(rows: Seq<TxnRow>, c: Seq<char>, d: Seq<char>) -> bool {
    cat_debit(rows, c) > cat_debit(rows, d) || (cat_debit(rows, c) == cat_debit(rows, d) && (
    cat_credit(rows, c) > cat_credit(rows, d) || (cat_credit(rows, c) == cat_credit(rows, d)
        && text_less(c, d))))
}

pub open spec fn breakdown_entry_ok(rows: Seq<TxnRow>, b: CategoryBreakdown) -> bool {
    let c = b.category@;
    &&& has_label(rows, c)
    &&& b.debit_count == cat_debit_rows(rows, c)
    &&& b.credit_count == cat_credit_rows(rows, c)
    &&& b.total_debit@ == cents_text(cat_debit(rows, c))
    &&& b.total_credit@ == cents_text(cat_credit(rows, c))
}

pub open spec fn lists_breakdown(bs: Seq<CategoryBreakdown>, c: Seq<char>) -> bool {
    exists|j: int| 0 <= j < bs.len() && (#[trigger] bs[j]).category@ == c
}

/// One entry per distinct category of the rows (rows without one count as
/// `Uncategorized`), with its counts and totals, in breakdown order.
pub open spec fn breakdown_matches(rows: Seq<TxnRow>, bs: Seq<CategoryBreakdown>) -> bool {
    &&& forall|t: int| 0 <= t < rows.len() ==> lists_breakdown(bs, row_label(#[trigger] rows[t]))
    &&& forall|j: int| 0 <= j < bs.len() ==> breakdown_entry_ok(rows, #[trigger] bs[j])
    &&& forall|i: int, j: int|
        #![trigger bs[i], bs[j]]
        0 <= i < j < bs.len() ==> breakdown_before(rows, bs[i].category@, bs[j].category@)
}

/// Running totals of one category, ranked for the breakdown.
pub struct BreakdownAcc {
    pub category: String,
    pub debit_rows: u32,
    pub credit_rows: u32,
    pub debit: i128,
    pub credit: i128,
}

impl Ranked for BreakdownAcc {
    open spec fn ranks_before(&self, other: &Self) -> bool {
        self.debit > other.debit || (self.debit == other.debit && (self.credit > other.credit || (
        self.credit == other.credit && text_less(self.category@, other.category@))))
    }

    fn ranks_before_exec(&self, other: &Self) -> (r: bool) {
        self.debit > other.debit || (self.debit == other.debit && (self.credit > other.credit || (
        self.credit == other.credit && str_less(self.category.as_str(), other.category.as_str()))))
    }

    proof fn lemma_strict(a: &Self, b: &Self, c: &Self) {
        lemma_text_less_negative_transitive(a.category@, b.category@, c.category@);
        lemma_text_less_irreflexive(a.category@);
        if text_less(a.category@, b.category@) && text_less(b.category@, c.category@) {
            lemma_text_less_transitive(a.category@, b.category@, c.category@);
        }
    }
}

pub open spec fn breakdown_acc_ok(rows: Seq<TxnRow>, a: BreakdownAcc) -> bool {
    let c = a.category@;
    &&& has_label(rows, c)
    &&& a.debit_rows == cat_debit_rows(rows, c)
    &&& a.credit_rows == cat_credit_rows(rows, c)
    &&& a.debit == cat_debit(rows, c)
    &&& a.credit == cat_credit(rows, c)
}

/// `accs` holds one entry per distinct category of the rows, with its sums.
pub open spec fn groups_breakdown(rows: Seq<TxnRow>, accs: Seq<BreakdownAcc>) -> bool {
    &&& forall|j: int, k: int|
        0 <= j < accs.len() && 0 <= k < accs.len() && j != k ==> (#[trigger] accs[j]).category@
            != (#[trigger] accs[k]).category@
    &&& forall|t: int| 0 <= t < rows.len() ==> lists_acc(accs, row_label(#[trigger] rows[t]))
    &&& forall|j: int| 0 <= j < accs.len() ==> breakdown_acc_ok(rows, #[trigger] accs[j])
}

pub open spec fn lists_acc(accs: Seq<BreakdownAcc>, c: Seq<char>) -> bool {
    exists|j: int| 0 <= j < accs.len() && (#[trigger] accs[j]).category@ == c
}

proof fn lemma_breakdown_reordered(rows: Seq<TxnRow>, a: Seq<BreakdownAcc>, b: Seq<BreakdownAcc>)
    requires
        groups_breakdown(rows, a),
        a.to_multiset() == b.to_multiset(),
    ensures
        groups_breakdown(rows, b),
{
    assert(a.no_duplicates()) by {
        assert forall|i: int, j: int| 0 <= i < a.len() && 0 <= j < a.len() && i != j implies a[i]
            != a[j] by {
            assert(a[i].category@ != a[j].category@);
        }
    }
    lemma_same_elements(a, b);
    assert forall|j: int, k: int|
        0 <= j < b.len() && 0 <= k < b.len() && j != k implies (#[trigger] b[j]).category@
        != (#[trigger] b[k]).category@ by {
        let jj = choose|x: int| 0 <= x < a.len() && a[x] == b[j];
        let kk = choose|x: int| 0 <= x < a.len() && a[x] == b[k];
        assert(b[j] != b[k]);
        assert(jj != kk);
    }
    assert forall|t: int| 0 <= t < rows.len() implies lists_acc(b, row_label(#[trigger] rows[t])) by {
        let j0 = choose|j: int| 0 <= j < a.len() && (#[trigger] a[j]).category@ == row_label(rows[t]);
        assert(a.contains(a[j0]));
        assert(b.contains(a[j0]));
        let k = choose|k: int| 0 <= k < b.len() && b[k] == a[j0];
        assert(b[k].category@ == row_label(rows[t]));
    }
    assert forall|j: int| 0 <= j < b.len() implies breakdown_acc_ok(rows, #[trigger] b[j]) by {
        let jj = choose|x: int| 0 <= x < a.len() && a[x] == b[j];
        assert(a[jj] == b[j]);
    }
}

fn breakdown_accs(rows: &Vec<TxnRow>) -> (r: Vec<BreakdownAcc>)
    requires
        rows_in_range(rows@),
    ensures
        groups_breakdown(rows@, r@),
{
    let accs = accumulate_categories(rows);
    let n = accs.len();
    let mut out: Vec<BreakdownAcc> = Vec::new();
    let mut i: usize = 0;
    while i < n
        invariant
            0 <= i <= n,
            n == accs@.len(),
            groups_categories(rows@, accs@),
            out@.len() == i,
            forall|q: int|
                0 <= q < i ==> {
                    let o = #[trigger] out@[q];
                    let a = accs@[q];
                    &&& o.category@ == a.category@
                    &&& o.debit_rows == a.debit_rows
                    &&& o.credit_rows == a.credit_rows
                    &&& o.debit == a.debit
                    &&& o.credit == a.credit
                },
        decreases n - i,
    {
        let a = &accs[i];
        out.push(
            BreakdownAcc {
                category: a.category.clone(),
                debit_rows: a.debit_rows,
                credit_rows: a.credit_rows,
                debit: a.debit,
                credit: a.credit,
            },
        );
        i = i + 1;
    }
    proof {
        reveal(cat_entry_ok);
        assert forall|j: int, k: int|
            0 <= j < out@.len() && 0 <= k < out@.len() && j != k implies (
            #[trigger] out@[j]).category@ != (#[trigger] out@[k]).category@ by {
            assert(accs@[j].category@ != accs@[k].category@);
        }
        assert forall|t: int| 0 <= t < rows@.len() implies lists_acc(
            out@,
            row_label(#[trigger] rows@[t]),
        ) by {
            assert(has_category(accs@, row_label(rows@[t])));
            let j = choose|j: int|
                0 <= j < accs@.len() && (#[trigger] accs@[j]).category@ == row_label(rows@[t]);
            assert(out@[j].category@ == row_label(rows@[t]));
        }
        assert forall|j: int| 0 <= j < out@.len() implies breakdown_acc_ok(
            rows@,
            #[trigger] out@[j],
        ) by {
            assert(cat_entry_ok(rows@, accs@[j]));
        }
    }
    out
}

/// Per-category counts and totals of an import, largest debit total first.
pub fn build_category_breakdown(rows: &Vec<TxnRow>) -> (r: Vec<CategoryBreakdown>)
    requires
        rows_in_range(rows@),
    ensures
        breakdown_matches(rows@, r@),
{
    let accs = breakdown_accs(rows);
    let sorted = sort_by_rank(accs);
    proof {
        lemma_breakdown_reordered(rows@, accs@, sorted@);
    }
    let n = sorted.len();
    let mut out: Vec<CategoryBreakdown> = Vec::new();
    let mut i: usize = 0;
    while i < n
        invariant
            0 <= i <= n,
            n == sorted@.len(),
            rows_in_range(rows@),
            groups_breakdown(rows@, sorted@),
            out@.len() == i,
            forall|q: int| 0 <= q < i ==> (#[trigger] out@[q]).category@ == sorted@[q].category@,
            forall|q: int| 0 <= q < i ==> breakdown_entry_ok(rows@, #[trigger] out@[q]),
        decreases n - i,
    {
        let a = &sorted[i];
        proof {
            assert(breakdown_acc_ok(rows@, sorted@[i as int]));
            lemma_group_sums_bounded(rows@, a.category@);
        }
        out.push(
            CategoryBreakdown {
                category: a.category.clone(),
                debit_count: a.debit_rows,
                credit_count: a.credit_rows,
                total_debit: format_cents(a.debit),
                total_credit: format_cents(a.credit),
            },
        );
        i = i + 1;
    }
    proof {
        assert forall|t: int| 0 <= t < rows@.len() implies lists_breakdown(
            out@,
            row_label(#[trigger] rows@[t]),
        ) by {
            let j = choose|j: int|
                0 <= j < sorted@.len() && (#[trigger] sorted@[j]).category@ == row_label(rows@[t]);
            assert(out@[j].category@ == row_label(rows@[t]));
        }
        assert forall|x: int, y: int|
            #![trigger out@[x], out@[y]]
            0 <= x < y < out@.len() implies breakdown_before(
            rows@,
            out@[x].category@,
            out@[y].category@,
        ) by {
            let a = sorted@[x];
            let b = sorted@[y];
            assert(breakdown_acc_ok(rows@, a));
            assert(breakdown_acc_ok(rows@, b));
            assert(!b.ranks_before(&a));
            assert(a.category@ != b.category@);
            lemma_text_less_total(a.category@, b.category@);
        }
    }
    out
}

/// Metadata of a fresh import: what the caller read off the file, the row
/// count, the debit and credit counts and totals, and the breakdown.
pub fn build_file_meta(
    import_id: String,
    uploaded_at: String,
    source_file: String,
    source_sha256: String,
    adapter_id: String,
    adapter_version: String,
    page_count: u32,
    rows: &Vec<TxnRow>,
) -> (r: FileMeta)
    requires
        rows_in_range(rows@),
    ensures
        r.import_id == import_id,
        r.uploaded_at == uploaded_at,
        r.source_file == source_file,
        r.source_sha256 == source_sha256,
        r.adapter_id == adapter_id,
        r.adapter_version == adapter_version,
        r.page_count == page_count,
        r.transaction_count == rows@.len(),
        r.debit_count == sum_by(rows@, debit_row_fn()),
        r.credit_count == sum_by(rows@, credit_row_fn()),
        r.total_debit@ == cents_text(sum_by(rows@, debit_amount_fn())),
        r.total_credit@ == cents_text(sum_by(rows@, credit_amount_fn())),
        breakdown_matches(rows@, r.category_breakdown@),
{
    let t = import_totals(rows);
    let breakdown = build_category_breakdown(rows);
    FileMeta {
        import_id,
        uploaded_at,
        source_file,
        source_sha256,
        adapter_id,
        adapter_version,
        page_count,
        transaction_count: rows.len() as u32,
        debit_count: t.debit_count,
        credit_count: t.credit_count,
        total_debit: format_cents(t.total_debit),
        total_credit: format_cents(t.total_credit),
        category_breakdown: breakdown,
    }
}

// ---------------------------------------------------------------------------
// Categorization passes over fresh rows
// ---------------------------------------------------------------------------

/// Everything but the category and its rule stays the same.
pub open spec fn same_facts(a: TxnRow, b: TxnRow) -> bool {
    a.row_number == b.row_number && a.txn_date@ == b.txn_date@ && a.debit == b.debit && a.credit
        == b.credit
}

fn copy_text(o: &Option<String>) -> (r: Option<String>)
    ensures
        opt_view(r) == opt_view(*o),
{
    match o {
        Some(s) => Some(s.clone()),
        None => None,
    }
}

/// The row with its category and rule replaced.
fn recategorized(r: &TxnRow, category: Option<String>, rule: Option<String>) -> (out: TxnRow)
    ensures
        same_facts(out, *r),
        out.category == category,
        out.category_rule_id == rule,
{
    TxnRow {
        row_number: r.row_number,
        txn_date: r.txn_date.clone(),
        debit: r.debit,
        credit: r.credit,
        category,
        category_rule_id: rule,
    }
}

/// What a categorization rule gave a row.
pub struct RuleHit {
    pub category: String,
    pub rule_id: String,
}

/// Files each row under its rule hit; a row without one is marked
/// `Uncategorized` (its rule id stays).
pub fn apply_category_hits(rows: &mut Vec<TxnRow>, hits: &Vec<Option<RuleHit>>)
    requires
        old(rows)@.len() == hits@.len(),
    ensures
        final(rows)@.len() == old(rows)@.len(),
        forall|i: int|
            0 <= i < old(rows)@.len() ==> same_facts(#[trigger] final(rows)@[i], old(rows)@[i])
                && match hits@[i] {
                Some(h) => opt_view(final(rows)@[i].category) == Some(h.category@) && opt_view(
                    final(rows)@[i].category_rule_id,
                ) == Some(h.rule_id@),
                None => opt_view(final(rows)@[i].category) == Some("Uncategorized"@) && opt_view(
                    final(rows)@[i].category_rule_id,
                ) == opt_view(old(rows)@[i].category_rule_id),
            },
{
    let n = rows.len();
    let mut i: usize = 0;
    while i < n
        invariant
            0 <= i <= n,
            n == rows@.len(),
            n == hits@.len(),
            n == old(rows)@.len(),
            forall|q: int| i <= q < n ==> #[trigger] rows@[q] == old(rows)@[q],
            forall|q: int|
                0 <= q < i ==> same_facts(#[trigger] rows@[q], old(rows)@[q]) && match hits@[q] {
                    Some(h) => opt_view(rows@[q].category) == Some(h.category@) && opt_view(
                        rows@[q].category_rule_id,
                    ) == Some(h.rule_id@),
                    None => opt_view(rows@[q].category) == Some("Uncategorized"@) && opt_view(
                        rows@[q].category_rule_id,
                    ) == opt_view(old(rows)@[q].category_rule_id),
                },
        decreases n - i,
    {
        let updated = match &hits[i] {
            Some(h) => recategorized(&rows[i], Some(h.category.clone()), Some(h.rule_id.clone())),
            None => {
                let rule = copy_text(&rows[i].category_rule_id);
                recategorized(&rows[i], Some(string_of("Uncategorized")), rule)
            },
        };
        rows.set(i, updated);
        i = i + 1;
    }
}

/// A row still waiting for a category from an outside lookup.
pub struct Pending {
    pub row_idx: usize,
    pub merchant: String,
    pub direction: Direction,
    pub cache_key: String,
}

/// The direction a row's money moved: debit first.
pub open spec fn row_direction(r: TxnRow) -> Option<Direction> {
    if r.debit.is_some() {
        Some(Direction::Debit)
    } else if r.credit.is_some() {
        Some(Direction::Credit)
    } else {
        None
    }
}

/// A row goes to the outside lookup when it is explicitly `Uncategorized`,
/// its merchant name is known and it moved money.
pub open spec fn wants_lookup(r: TxnRow, merchant: Seq<char>) -> bool {
    opt_view(r.category) == Some("Uncategorized"@) && merchant.len() > 0 && row_direction(
        r,
    ).is_some()
}

/// Positions, below `k`, of the rows that go to the lookup, in order.
pub open spec fn lookup_rows(rows: Seq<TxnRow>, merchants: Seq<String>, k: int) -> Seq<int>
    decreases k,
{
    if k <= 0 {
        Seq::empty()
    } else if wants_lookup(rows[k - 1], merchants[k - 1]@) {
        lookup_rows(rows, merchants, k - 1).push(k - 1)
    } else {
        lookup_rows(rows, merchants, k - 1)
    }
}

/// A pending entry for row `i`: its merchant, direction and cache key.
pub open spec fn pending_for(p: Pending, rows: Seq<TxnRow>, merchants: Seq<String>, i: int) -> bool {
    &&& p.row_idx == i
    &&& p.merchant@ == merchants[i]@
    &&& Some(p.direction) == row_direction(rows[i])
    &&& p.cache_key@ == cache_key_text(p.merchant@, p.direction)
}

/// The rows to look up, given each row's merchant name as extracted from its
/// description (`merchants[i]` for row `i`).
pub fn collect_pending(rows: &Vec<TxnRow>, merchants: &Vec<String>) -> (r: Vec<Pending>)
    requires
        merchants@.len() == rows@.len(),
    ensures
        r@.len() == lookup_rows(rows@, merchants@, rows@.len() as int).len(),
        forall|j: int|
            0 <= j < r@.len() ==> pending_for(
                #[trigger] r@[j],
                rows@,
                merchants@,
                lookup_rows(rows@, merchants@, rows@.len() as int)[j],
            ),
{
    let n = rows.len();
    let mut out: Vec<Pending> = Vec::new();
    let mut i: usize = 0;
    while i < n
        invariant
            0 <= i <= n,
            n == rows@.len(),
            n == merchants@.len(),
            out@.len() == lookup_rows(rows@, merchants@, i as int).len(),
            forall|j: int|
                0 <= j < out@.len() ==> pending_for(
                    #[trigger] out@[j],
                    rows@,
                    merchants@,
                    lookup_rows(rows@, merchants@, i as int)[j],
                ),
        decreases n - i,
    {
        let r = &rows[i];
        let name = merchants[i].as_str();
        let uncategorized = match &r.category {
            Some(c) => str_eq(c.as_str(), "Uncategorized"),
            None => false,
        };
        let direction = if r.debit.is_some() {
            Some(Direction::Debit)
        } else if r.credit.is_some() {
            Some(Direction::Credit)
        } else {
            None
        };
        if uncategorized && name.unicode_len() > 0 {
            match direction {
                Some(d) => {
                    let key = cache_key(name, d);
                    out.push(
                        Pending { row_idx: i, merchant: string_of(name), direction: d, cache_key: key },
                    );
                },
                None => {},
            }
        }
        i = i + 1;
    }
    out
}

/// The cache entry a row gets from the cache pass: that of the last pending
/// entry for the row whose key is cached with a real category.
pub open spec fn cache_hit_for(
    pending: Seq<Pending>,
    map: Map<Seq<char>, (Seq<char>, Seq<char>, Seq<char>)>,
    i: int,
) -> Option<(Seq<char>, Seq<char>, Seq<char>)>
    decreases pending.len(),
{
    if pending.len() == 0 {
        None
    } else {
        let p = pending.last();
        if p.row_idx == i && map.contains_key(p.cache_key@) && map[p.cache_key@].0
            != "Uncategorized"@ {
            Some(map[p.cache_key@])
        } else {
            cache_hit_for(pending.drop_last(), map, i)
        }
    }
}

/// The pending entries whose key is not cached at all, in order.
pub open spec fn uncached(pending: Seq<Pending>, map: Map<Seq<char>, (Seq<char>, Seq<char>, Seq<char>)>) -> Seq<Pending>
    decreases pending.len(),
{
    if pending.len() == 0 {
        Seq::empty()
    } else if map.contains_key(pending.last().cache_key@) {
        uncached(pending.drop_last(), map)
    } else {
        uncached(pending.drop_last(), map).push(pending.last())
    }
}

/// Row `i` after a pass that may have given it `hit` (category, source):
/// the category and `cache:{source}` as its rule, or the row unchanged.
pub open spec fn row_after_cache(old_row: TxnRow, new_row: TxnRow, hit: Option<(Seq<char>, Seq<char>, Seq<char>)>) -> bool {
    &&& same_facts(new_row, old_row)
    &&& match hit {
        Some(e) => opt_view(new_row.category) == Some(e.0) && opt_view(new_row.category_rule_id)
            == Some("cache:"@ + e.1),
        None => opt_view(new_row.category) == opt_view(old_row.category) && opt_view(
            new_row.category_rule_id,
        ) == opt_view(old_row.category_rule_id),
    }
}

fn copy_pending(p: &Pending) -> (r: Pending)
    ensures
        r == *p,
{
    Pending {
        row_idx: p.row_idx,
        merchant: p.merchant.clone(),
        direction: p.direction,
        cache_key: p.cache_key.clone(),
    }
}

/// The cache pass: rows whose merchant is cached with a real category take
/// it (rule `cache:{source}`); merchants cached as `Uncategorized` were
/// asked about before and are not asked again. Returns what is left to ask.
pub fn apply_cache_hits(rows: &mut Vec<TxnRow>, pending: &Vec<Pending>, cache: &MerchantCacheDoc) -> (still: Vec<Pending>)
    requires
        cache.well_formed(),
        forall|j: int| 0 <= j < pending@.len() ==> (#[trigger] pending@[j]).row_idx < old(rows)@.len(),
    ensures
        final(rows)@.len() == old(rows)@.len(),
        forall|i: int|
            0 <= i < old(rows)@.len() ==> row_after_cache(
                old(rows)@[i],
                #[trigger] final(rows)@[i],
                cache_hit_for(pending@, cache.view_map(), i),
            ),
        still@ == uncached(pending@, cache.view_map()),
{
    let ghost map = cache.view_map();
    let m = pending.len();
    let mut still: Vec<Pending> = Vec::new();
    let mut t: usize = 0;
    while t < m
        invariant
            0 <= t <= m,
            m == pending@.len(),
            map == cache.view_map(),
            cache.well_formed(),
            rows@.len() == old(rows)@.len(),
            forall|j: int| 0 <= j < pending@.len() ==> (#[trigger] pending@[j]).row_idx < old(rows)@.len(),
            forall|i: int|
                0 <= i < old(rows)@.len() ==> row_after_cache(
                    old(rows)@[i],
                    #[trigger] rows@[i],
                    cache_hit_for(pending@.subrange(0, t as int), map, i),
                ),
            still@ == uncached(pending@.subrange(0, t as int), map),
        decreases m - t,
    {
        let p = &pending[t];
        let ghost prev = pending@.subrange(0, t as int);
        let ghost next = pending@.subrange(0, t + 1);
        proof {
            assert(next.drop_last() =~= prev);
            assert(next.last() == pending@[t as int]);
        }
        match cache.get(p.cache_key.as_str()) {
            Some(entry) => {
                if !str_eq(entry.category.as_str(), "Uncategorized") {
                    let mut rule = string_of("cache:");
                    rule.append(entry.source.as_str());
                    let updated = recategorized(&rows[p.row_idx], Some(entry.category.clone()), Some(rule));
                    rows.set(p.row_idx, updated);
                }
            },
            None => {
                still.push(copy_pending(p));
            },
        }
        t = t + 1;
    }
    proof {
        assert(pending@.subrange(0, m as int) =~= pending@);
    }
    still
}

/// Why the language model is not asked, if it is not: switched off (with the
/// number of merchants left), or switched on without a key.
pub open spec fn gate_warning(enabled: bool, api_key: Seq<char>, waiting: nat) -> Option<Seq<char>> {
    if !enabled {
        Some(
            "LLM categorization disabled — "@ + nat_text(waiting)
                + " merchant(s) left uncategorized"@,
        )
    } else if api_key.len() == 0 {
        Some("LLM enabled but no API key configured — open Settings to add one"@)
    } else {
        None
    }
}

pub fn llm_gate(enabled: bool, api_key: &str, waiting: usize) -> (r: Option<String>)
    ensures
        opt_view(r) == gate_warning(enabled, api_key@, waiting as nat),
{
    if !enabled {
        let mut w = string_of("LLM categorization disabled — ");
        push_nat(&mut w, waiting as u128);
        w.append(" merchant(s) left uncategorized");
        Some(w)
    } else if api_key.unicode_len() == 0 {
        Some(string_of("LLM enabled but no API key configured — open Settings to add one"))
    } else {
        None
    }
}

/// One lookup per distinct cache key.
pub struct KeyedItem {
    pub key: String,
    pub item: LookupItem,
}

impl Ranked for KeyedItem {
    /// Key order.
    open spec fn ranks_before(&self, other: &Self) -> bool {
        text_less(self.key@, other.key@)
    }

    fn ranks_before_exec(&self, other: &Self) -> (r: bool) {
        str_less(self.key.as_str(), other.key.as_str())
    }

    proof fn lemma_strict(a: &Self, b: &Self, c: &Self) {
        lemma_text_less_negative_transitive(a.key@, b.key@, c.key@);
        lemma_text_less_irreflexive(a.key@);
        if text_less(a.key@, b.key@) && text_less(b.key@, c.key@) {
            lemma_text_less_transitive(a.key@, b.key@, c.key@);
        }
    }
}

/// Pending entry `t` is the first with its key.
pub open spec fn first_with_key(pending: Seq<Pending>, t: int) -> bool {
    0 <= t < pending.len() && forall|s: int|
        0 <= s < t ==> (#[trigger] pending[s]).cache_key@ != pending[t].cache_key@
}

/// The lookup was drawn from the first pending entry with its key.
pub open spec fn drawn_from_first(pending: Seq<Pending>, k: KeyedItem) -> bool {
    exists|t: int|
        first_with_key(pending, t) && (#[trigger] pending[t]).cache_key@ == k.key@
            && k.item.merchant@ == pending[t].merchant@ && k.item.direction == pending[t].direction
}

pub open spec fn lists_key(ks: Seq<KeyedItem>, key: Seq<char>) -> bool {
    exists|i: int| 0 <= i < ks.len() && (#[trigger] ks[i]).key@ == key
}

/// One lookup per distinct key of the pending entries, taken from the first
/// entry with that key, in key order.
pub open spec fn batch_matches(pending: Seq<Pending>, ks: Seq<KeyedItem>) -> bool {
    &&& forall|i: int, j: int|
        #![trigger ks[i], ks[j]]
        0 <= i < j < ks.len() ==> text_less(ks[i].key@, ks[j].key@)
    &&& forall|t: int| 0 <= t < pending.len() ==> lists_key(ks, (#[trigger] pending[t]).cache_key@)
    &&& forall|i: int| 0 <= i < ks.len() ==> drawn_from_first(pending, #[trigger] ks[i])
}

proof fn lemma_batch_reordered(pending: Seq<Pending>, a: Seq<KeyedItem>, b: Seq<KeyedItem>)
    requires
        forall|i: int, j: int|
            0 <= i < a.len() && 0 <= j < a.len() && i != j ==> (#[trigger] a[i]).key@ != (
            #[trigger] a[j]).key@,
        forall|t: int| 0 <= t < pending.len() ==> lists_key(a, (#[trigger] pending[t]).cache_key@),
        forall|i: int| 0 <= i < a.len() ==> drawn_from_first(pending, #[trigger] a[i]),
        a.to_multiset() == b.to_multiset(),
    ensures
        forall|i: int, j: int|
            0 <= i < b.len() && 0 <= j < b.len() && i != j ==> (#[trigger] b[i]).key@ != (
            #[trigger] b[j]).key@,
        forall|t: int| 0 <= t < pending.len() ==> lists_key(b, (#[trigger] pending[t]).cache_key@),
        forall|i: int| 0 <= i < b.len() ==> drawn_from_first(pending, #[trigger] b[i]),
{
    assert(a.no_duplicates()) by {
        assert forall|i: int, j: int| 0 <= i < a.len() && 0 <= j < a.len() && i != j implies a[i]
            != a[j] by {
            assert(a[i].key@ != a[j].key@);
        }
    }
    lemma_same_elements(a, b);
    assert forall|j: int, k: int|
        0 <= j < b.len() && 0 <= k < b.len() && j != k implies (#[trigger] b[j]).key@ != (
        #[trigger] b[k]).key@ by {
        let jj = choose|x: int| 0 <= x < a.len() && a[x] == b[j];
        let kk = choose|x: int| 0 <= x < a.len() && a[x] == b[k];
        assert(b[j] != b[k]);
        assert(jj != kk);
    }
    assert forall|t: int| 0 <= t < pending.len() implies lists_key(
        b,
        (#[trigger] pending[t]).cache_key@,
    ) by {
        let j0 = choose|j: int| 0 <= j < a.len() && (#[trigger] a[j]).key@ == pending[t].cache_key@;
        assert(a.contains(a[j0]));
        assert(b.contains(a[j0]));
        let k = choose|k: int| 0 <= k < b.len() && b[k] == a[j0];
        assert(b[k].key@ == pending[t].cache_key@);
    }
    assert forall|i: int| 0 <= i < b.len() implies drawn_from_first(pending, #[trigger] b[i]) by {
        let ii = choose|x: int| 0 <= x < a.len() && a[x] == b[i];
        assert(a[ii] == b[i]);
    }
}

fn key_position(ks: &Vec<KeyedItem>, key: &str) -> (r: Option<usize>)
    ensures
        match r {
            Some(j) => j < ks@.len() && ks@[j as int].key@ == key@,
            None => forall|j: int| 0 <= j < ks@.len() ==> ks@[j].key@ != key@,
        },
{
    let n = ks.len();
    let mut j: usize = 0;
    while j < n
        invariant
            0 <= j <= n,
            n == ks@.len(),
            forall|q: int| 0 <= q < j ==> ks@[q].key@ != key@,
        decreases n - j,
    {
        if str_eq(ks[j].key.as_str(), key) {
            return Some(j);
        }
        j = j + 1;
    }
    None
}

/// What to send: one lookup per distinct cache key, from the first pending
/// entry with that key, in key order.
pub fn lookup_batch(pending: &Vec<Pending>) -> (r: Vec<KeyedItem>)
    ensures
        batch_matches(pending@, r@),
{
    let m = pending.len();
    let mut firsts: Vec<KeyedItem> = Vec::new();
    let mut t: usize = 0;
    while t < m
        invariant
            0 <= t <= m,
            m == pending@.len(),
            forall|i: int, j: int|
                0 <= i < firsts@.len() && 0 <= j < firsts@.len() && i != j ==> (
                #[trigger] firsts@[i]).key@ != (#[trigger] firsts@[j]).key@,
            forall|s: int| 0 <= s < t ==> lists_key(firsts@, (#[trigger] pending@[s]).cache_key@),
            forall|i: int| 0 <= i < firsts@.len() ==> drawn_from_first(pending@, #[trigger] firsts@[i]),
        decreases m - t,
    {
        let p = &pending[t];
        match key_position(&firsts, p.cache_key.as_str()) {
            Some(_) => {},
            None => {
                proof {
                    assert(first_with_key(pending@, t as int)) by {
                        assert forall|s: int| 0 <= s < t implies (
                        #[trigger] pending@[s]).cache_key@ != pending@[t as int].cache_key@ by {
                            assert(lists_key(firsts@, pending@[s].cache_key@));
                            let i = choose|i: int|
                                0 <= i < firsts@.len() && (#[trigger] firsts@[i]).key@
                                    == pending@[s].cache_key@;
                        }
                    }
                }
                let ghost before = firsts@;
                let k = KeyedItem {
                    key: p.cache_key.clone(),
                    item: LookupItem { merchant: p.merchant.clone(), direction: p.direction },
                };
                firsts.push(k);
                proof {
                    let n = before.len() as int;
                    assert(firsts@[n].key@ == pending@[t as int].cache_key@);
                    assert(drawn_from_first(pending@, firsts@[n]));
                    assert forall|i: int| 0 <= i < firsts@.len() implies drawn_from_first(
                        pending@,
                        #[trigger] firsts@[i],
                    ) by {
                        if i < n {
                            assert(firsts@[i] == before[i]);
                        }
                    }
                    assert forall|s: int| 0 <= s < t implies lists_key(
                        firsts@,
                        (#[trigger] pending@[s]).cache_key@,
                    ) by {
                        let i = choose|i: int|
                            0 <= i < before.len() && (#[trigger] before[i]).key@
                                == pending@[s].cache_key@;
                        assert(firsts@[i] == before[i]);
                    }
                    assert forall|i: int, j: int|
                        0 <= i < firsts@.len() && 0 <= j < firsts@.len() && i != j implies (
                        #[trigger] firsts@[i]).key@ != (#[trigger] firsts@[j]).key@ by {
                        if i < n && j < n {
                            assert(firsts@[i] == before[i]);
                            assert(firsts@[j] == before[j]);
                        } else if i < n {
                            assert(firsts@[i] == before[i]);
                        } else {
                            assert(firsts@[j] == before[j]);
                        }
                    }
                }
            },
        }
        proof {
            assert(lists_key(firsts@, pending@[t as int].cache_key@));
        }
        t = t + 1;
    }
    let sorted = sort_by_rank(firsts);
    proof {
        lemma_batch_reordered(pending@, firsts@, sorted@);
        assert forall|i: int, j: int|
            #![trigger sorted@[i], sorted@[j]]
            0 <= i < j < sorted@.len() implies text_less(sorted@[i].key@, sorted@[j].key@) by {
            assert(!sorted@[j].ranks_before(&sorted@[i]));
            lemma_text_less_total(sorted@[i].key@, sorted@[j].key@);
        }
    }
    sorted
}

/// The category the lookup answered for a cache key: that of the last
/// result whose merchant, with its item's direction, has that key.
pub open spec fn answer_for(items: Seq<LookupItem>, results: Seq<LookupResult>, key: Seq<char>) -> Option<Seq<char>>
    decreases results.len(),
{
    if results.len() == 0 {
        None
    } else {
        let n = results.len() - 1;
        if cache_key_text(results[n].merchant@, items[n].direction) == key {
            Some(results[n].category@)
        } else {
            answer_for(items, results.drop_last(), key)
        }
    }
}

/// The cache after storing every result under its key, tagged `gemini` and
/// stamped `now`.
pub open spec fn cache_after(
    map: Map<Seq<char>, (Seq<char>, Seq<char>, Seq<char>)>,
    items: Seq<LookupItem>,
    results: Seq<LookupResult>,
    now: Seq<char>,
) -> Map<Seq<char>, (Seq<char>, Seq<char>, Seq<char>)>
    decreases results.len(),
{
    if results.len() == 0 {
        map
    } else {
        let n = results.len() - 1;
        cache_after(map, items, results.drop_last(), now).insert(
            cache_key_text(results[n].merchant@, items[n].direction),
            (results[n].category@, "gemini"@, now),
        )
    }
}

/// The pending entry takes the answer: there is one and it is a real
/// category.
pub open spec fn takes_answer(items: Seq<LookupItem>, results: Seq<LookupResult>, p: Pending) -> bool {
    match answer_for(items, results, p.cache_key@) {
        Some(c) => c != "Uncategorized"@,
        None => false,
    }
}

/// The answer row `i` ends up with: that of the last waiting entry for the
/// row that takes one.
pub open spec fn llm_hit_for(
    items: Seq<LookupItem>,
    results: Seq<LookupResult>,
    still: Seq<Pending>,
    i: int,
) -> Option<Seq<char>>
    decreases still.len(),
{
    if still.len() == 0 {
        None
    } else {
        let p = still.last();
        if p.row_idx == i && takes_answer(items, results, p) {
            answer_for(items, results, p.cache_key@)
        } else {
            llm_hit_for(items, results, still.drop_last(), i)
        }
    }
}

/// Waiting entries that take an answer.
pub open spec fn answered_count(items: Seq<LookupItem>, results: Seq<LookupResult>, still: Seq<Pending>) -> int
    decreases still.len(),
{
    if still.len() == 0 {
        0
    } else {
        answered_count(items, results, still.drop_last()) + if takes_answer(
            items,
            results,
            still.last(),
        ) {
            1int
        } else {
            0int
        }
    }
}

proof fn lemma_answered_count_bound(items: Seq<LookupItem>, results: Seq<LookupResult>, still: Seq<Pending>)
    ensures
        0 <= answered_count(items, results, still) <= still.len(),
    decreases still.len(),
{
    if still.len() > 0 {
        lemma_answered_count_bound(items, results, still.drop_last());
    }
}

fn answer_position(keys: &Vec<String>, key: &str) -> (r: Option<usize>)
    ensures
        match r {
            Some(j) => j < keys@.len() && keys@[j as int]@ == key@ && forall|q: int|
                j < q < keys@.len() ==> keys@[q]@ != key@,
            None => forall|q: int| 0 <= q < keys@.len() ==> keys@[q]@ != key@,
        },
{
    let mut j: usize = keys.len();
    while j > 0
        invariant
            0 <= j <= keys@.len(),
            forall|q: int| j <= q < keys@.len() ==> keys@[q]@ != key@,
        decreases j,
    {
        if str_eq(keys[j - 1].as_str(), key) {
            return Some(j - 1);
        }
        j = j - 1;
    }
    None
}

proof fn lemma_answer_at(items: Seq<LookupItem>, results: Seq<LookupResult>, keys: Seq<Seq<char>>, key: Seq<char>, j: int)
    requires
        keys.len() == results.len(),
        forall|q: int| 0 <= q < results.len() ==> #[trigger] keys[q] == cache_key_text(results[q].merchant@, items[q].direction),
        -1 <= j < results.len(),
        j >= 0 ==> keys[j] == key,
        forall|q: int| j < q < results.len() ==> keys[q] != key,
    ensures
        answer_for(items, results, key) == if j >= 0 {
            Some(results[j].category@)
        } else {
            None
        },
    decreases results.len(),
{
    if results.len() > 0 {
        let n = results.len() - 1;
        if j < n {
            assert(keys[n] != key);
            lemma_answer_at(items, results.drop_last(), keys.drop_last(), key, j);
        }
    }
}

/// Stores the lookup's answers and files the waiting rows under them.
/// `results[i]` answers `items[i]`. Every result is cached under its key
/// (source `gemini`, time `now`); each waiting row whose key got a real
/// category takes it, with rule `llm:gemini`. Returns how many waiting
/// entries took an answer.
pub fn apply_llm_results(
    rows: &mut Vec<TxnRow>,
    cache: &mut MerchantCacheDoc,
    still: &Vec<Pending>,
    items: &Vec<LookupItem>,
    results: &Vec<LookupResult>,
    now: &str,
) -> (count: u32)
    requires
        old(cache).well_formed(),
        results@.len() <= items@.len(),
        still@.len() <= u32::MAX,
        forall|j: int| 0 <= j < still@.len() ==> (#[trigger] still@[j]).row_idx < old(rows)@.len(),
    ensures
        final(cache).well_formed(),
        final(cache).view_map() == cache_after(old(cache).view_map(), items@, results@, now@),
        final(rows)@.len() == old(rows)@.len(),
        forall|i: int|
            0 <= i < old(rows)@.len() ==> same_facts(#[trigger] final(rows)@[i], old(rows)@[i])
                && match llm_hit_for(items@, results@, still@, i) {
                Some(c) => opt_view(final(rows)@[i].category) == Some(c) && opt_view(
                    final(rows)@[i].category_rule_id,
                ) == Some("llm:gemini"@),
                None => opt_view(final(rows)@[i].category) == opt_view(old(rows)@[i].category)
                    && opt_view(final(rows)@[i].category_rule_id) == opt_view(
                    old(rows)@[i].category_rule_id,
                ),
            },
        count == answered_count(items@, results@, still@),
{
    let k = results.len();
    let mut keys: Vec<String> = Vec::new();
    let mut i: usize = 0;
    while i < k
        invariant
            0 <= i <= k,
            k == results@.len(),
            k <= items@.len(),
            cache.well_formed(),
            keys@.len() == i,
            forall|q: int|
                0 <= q < i ==> (#[trigger] keys@[q])@ == cache_key_text(
                    results@[q].merchant@,
                    items@[q].direction,
                ),
            cache.view_map() == cache_after(
                old(cache).view_map(),
                items@,
                results@.subrange(0, i as int),
                now@,
            ),
        decreases k - i,
    {
        let r = &results[i];
        let key = cache_key(r.merchant.as_str(), items[i].direction);
        keys.push(key.clone());
        let entry = MerchantCacheEntry {
            category: r.category.clone(),
            source: string_of("gemini"),
            looked_up_at: string_of(now),
        };
        cache.insert(key, entry);
        proof {
            let s = results@.subrange(0, i + 1);
            assert(s.drop_last() =~= results@.subrange(0, i as int));
            assert(s[i as int] == results@[i as int]);
        }
        i = i + 1;
    }
    proof {
        assert(results@.subrange(0, k as int) =~= results@);
    }
    let ghost key_views = keys@.map_values(|s: String| s@);
    let m = still.len();
    let mut count: u32 = 0;
    let mut t: usize = 0;
    while t < m
        invariant
            0 <= t <= m,
            m == still@.len(),
            m <= u32::MAX,
            keys@.len() == results@.len(),
            key_views == keys@.map_values(|s: String| s@),
            forall|q: int|
                0 <= q < keys@.len() ==> (#[trigger] keys@[q])@ == cache_key_text(
                    results@[q].merchant@,
                    items@[q].direction,
                ),
            rows@.len() == old(rows)@.len(),
            forall|j: int| 0 <= j < still@.len() ==> (#[trigger] still@[j]).row_idx < old(rows)@.len(),
            forall|q: int|
                0 <= q < old(rows)@.len() ==> same_facts(#[trigger] rows@[q], old(rows)@[q])
                    && match llm_hit_for(items@, results@, still@.subrange(0, t as int), q) {
                    Some(c) => opt_view(rows@[q].category) == Some(c) && opt_view(
                        rows@[q].category_rule_id,
                    ) == Some("llm:gemini"@),
                    None => opt_view(rows@[q].category) == opt_view(old(rows)@[q].category)
                        && opt_view(rows@[q].category_rule_id) == opt_view(
                        old(rows)@[q].category_rule_id,
                    ),
                },
            count == answered_count(items@, results@, still@.subrange(0, t as int)),
            count <= t,
        decreases m - t,
    {
        let p = &still[t];
        let ghost prev = still@.subrange(0, t as int);
        let ghost next = still@.subrange(0, t + 1);
        proof {
            assert(next.drop_last() =~= prev);
            assert(next.last() == still@[t as int]);
        }
        let pos = answer_position(&keys, p.cache_key.as_str());
        proof {
            assert forall|q: int| 0 <= q < results@.len() implies #[trigger] key_views[q]
                == cache_key_text(results@[q].merchant@, items@[q].direction) by {
                assert(key_views[q] == keys@[q]@);
            }
            let j: int = match pos {
                Some(j) => j as int,
                None => -1,
            };
            assert forall|q: int| j < q < results@.len() implies key_views[q] != p.cache_key@ by {
                assert(key_views[q] == keys@[q]@);
            }
            lemma_answer_at(items@, results@, key_views, p.cache_key@, j);
        }
        match pos {
            Some(j) => {
                let cat = &results[j].category;
                if !str_eq(cat.as_str(), "Uncategorized") {
                    let updated = recategorized(
                        &rows[p.row_idx],
                        Some(cat.clone()),
                        Some(string_of("llm:gemini")),
                    );
                    rows.set(p.row_idx, updated);
                    count = count + 1;
                }
            },
            None => {},
        }
        t = t + 1;
    }
    proof {
        assert(still@.subrange(0, m as int) =~= still@);
    }
    count
}

// ---------------------------------------------------------------------------
// Manual recategorization
// ---------------------------------------------------------------------------

/// Row `j` is the first with number `n`.
pub open spec fn first_with_number(rows: Seq<TxnRow>, n: u32, j: int) -> bool {
    0 <= j < rows.len() && rows[j].row_number == n && forall|q: int|
        0 <= q < j ==> (#[trigger] rows[q]).row_number != n
}

/// A manual category: the trimmed text with rule `manual`, or, when blank,
/// no category and no rule.
pub open spec fn manual_category_ok(r: TxnRow, category: Seq<char>) -> bool {
    if trim_seq(category).len() == 0 {
        r.category.is_none() && r.category_rule_id.is_none()
    } else {
        opt_view(r.category) == Some(trim_seq(category)) && opt_view(r.category_rule_id) == Some(
            "manual"@,
        )
    }
}

pub open spec fn row_missing_text(row_number: u32, import_id: Seq<char>) -> Seq<char> {
    "row "@ + nat_text(row_number as nat) + " not found in "@ + import_id
}

/// Sets the category of the first row numbered `row_number` by hand; fails
/// when no row has that number.
pub fn recategorize_row(rows: &mut Vec<TxnRow>, row_number: u32, category: &str, import_id: &str) -> (r: Result<(), String>)
    ensures
        final(rows)@.len() == old(rows)@.len(),
        match r {
            Ok(()) => exists|j: int|
                #![trigger old(rows)@[j]]
                first_with_number(old(rows)@, row_number, j) && same_facts(
                    final(rows)@[j],
                    old(rows)@[j],
                ) && manual_category_ok(final(rows)@[j], category@) && forall|q: int|
                    0 <= q < old(rows)@.len() && q != j ==> #[trigger] final(rows)@[q] == old(
                        rows,
                    )@[q],
            Err(e) => final(rows)@ == old(rows)@ && e@ == row_missing_text(row_number, import_id@)
                && forall|q: int|
                0 <= q < old(rows)@.len() ==> (#[trigger] old(rows)@[q]).row_number != row_number,
        },
{
    let n = rows.len();
    let mut j: usize = 0;
    while j < n
        invariant
            0 <= j <= n,
            n == rows@.len(),
            rows@ == old(rows)@,
            forall|q: int| 0 <= q < j ==> (#[trigger] rows@[q]).row_number != row_number,
        decreases n - j,
    {
        if rows[j].row_number == row_number {
            let t = trim(category);
            let updated = if t.unicode_len() == 0 {
                recategorized(&rows[j], None, None)
            } else {
                recategorized(&rows[j], Some(string_of(t)), Some(string_of("manual")))
            };
            rows.set(j, updated);
            proof {
                assert(first_with_number(old(rows)@, row_number, j as int));
            }
            return Ok(());
        }
        j = j + 1;
    }
    let mut msg = string_of("row ");
    push_nat(&mut msg, row_number as u128);
    msg.append(" not found in ");
    msg.append(import_id);
    Err(msg)
}

/// The category a rule saved along with a manual recategorization gets: its
/// own when not blank, else the row's new (trimmed) category.
pub fn rule_category(given: &str, trimmed_category: &str) -> (r: String)
    ensures
        r@ == if trim_seq(given@).len() == 0 {
            trimmed_category@
        } else {
            given@
        },
{
    if trim(given).unicode_len() == 0 {
        string_of(trimmed_category)
    } else {
        string_of(given)
    }
}

// ---------------------------------------------------------------------------
// Listing imports
// ---------------------------------------------------------------------------

impl Ranked for FileMeta {
    /// Newest upload first.
    open spec fn ranks_before(&self, other: &Self) -> bool {
        text_less(other.uploaded_at@, self.uploaded_at@)
    }

    fn ranks_before_exec(&self, other: &Self) -> (r: bool) {
        str_less(other.uploaded_at.as_str(), self.uploaded_at.as_str())
    }

    proof fn lemma_strict(a: &Self, b: &Self, c: &Self) {
        lemma_text_less_negative_transitive(c.uploaded_at@, b.uploaded_at@, a.uploaded_at@);
        lemma_text_less_irreflexive(a.uploaded_at@);
        if text_less(b.uploaded_at@, a.uploaded_at@) && text_less(c.uploaded_at@, b.uploaded_at@) {
            lemma_text_less_transitive(c.uploaded_at@, b.uploaded_at@, a.uploaded_at@);
        }
    }
}

/// Imports, newest upload first; imports uploaded at the same moment keep
/// the order they were listed in.
pub fn newest_first(metas: Vec<FileMeta>) -> (r: Vec<FileMeta>)
    ensures
        r@.to_multiset() == metas@.to_multiset(),
        exists|p: Seq<int>| stable_arrangement(metas@, r@, p),
        forall|i: int, j: int|
            #![trigger r@[i], r@[j]]
            0 <= i < j < r@.len() ==> !text_less(r@[i].uploaded_at@, r@[j].uploaded_at@),
{
    let r = sort_by_rank(metas);
    proof {
        assert forall|i: int, j: int|
            #![trigger r@[i], r@[j]]
            0 <= i < j < r@.len() implies !text_less(r@[i].uploaded_at@, r@[j].uploaded_at@) by {
            assert(!r@[j].ranks_before(&r@[i]));
        }
    }
    r
}

/// Position of the first import of the file with this content hash.
pub fn find_by_sha256(metas: &Vec<FileMeta>, sha256: &str) -> (r: Option<usize>)
    ensures
        match r {
            Some(j) => j < metas@.len() && metas@[j as int].source_sha256@ == sha256@ && forall|q: int|
                0 <= q < j ==> (#[trigger] metas@[q]).source_sha256@ != sha256@,
            None => forall|q: int|
                0 <= q < metas@.len() ==> (#[trigger] metas@[q]).source_sha256@ != sha256@,
        },
{
    let n = metas.len();
    let mut j: usize = 0;
    while j < n
        invariant
            0 <= j <= n,
            n == metas@.len(),
            forall|q: int| 0 <= q < j ==> (#[trigger] metas@[q]).source_sha256@ != sha256@,
        decreases n - j,
    {
        if str_eq(metas[j].source_sha256.as_str(), sha256) {
            return Some(j);
        }
        j = j + 1;
    }
    None
}

pub open spec fn duplicate_import_text(m: FileMeta) -> Seq<char> {
    "This PDF was already imported on "@ + m.uploaded_at@ + " as "@ + m.import_id@ + " ("@
        + nat_text(m.transaction_count as nat)
        + " txns). Delete that import first if you want to re-upload."@
}

/// Why a re-upload of an already imported file is refused.
pub fn duplicate_import_message(m: &FileMeta) -> (r: String)
    ensures
        r@ == duplicate_import_text(*m),
{
    let mut out = string_of("This PDF was already imported on ");
    out.append(m.uploaded_at.as_str());
    out.append(" as ");
    out.append(m.import_id.as_str());
    out.append(" (");
    push_nat(&mut out, m.transaction_count as u128);
    out.append(" txns). Delete that import first if you want to re-upload.");
    out
}

// ---------------------------------------------------------------------------
// The breakdown accounts for every row
// ---------------------------------------------------------------------------

pub open spec fn cat_debit_of() -> spec_fn(Seq<char>) -> spec_fn(TxnRow) -> int {
    |c: Seq<char>| cat_debit_fn(c)
}

pub open spec fn cat_credit_of() -> spec_fn(Seq<char>) -> spec_fn(TxnRow) -> int {
    |c: Seq<char>| cat_credit_fn(c)
}

pub open spec fn cat_debit_rows_of() -> spec_fn(Seq<char>) -> spec_fn(TxnRow) -> int {
    |c: Seq<char>| cat_debit_rows_fn(c)
}

pub open spec fn cat_credit_rows_of() -> spec_fn(Seq<char>) -> spec_fn(TxnRow) -> int {
    |c: Seq<char>| cat_credit_rows_fn(c)
}

/// The categories of a breakdown, in order.
pub open spec fn breakdown_categories(bs: Seq<CategoryBreakdown>) -> Seq<Seq<char>> {
    bs.map_values(|b: CategoryBreakdown| b.category@)
}

/// Law: the breakdown accounts for every row: its per-category debit and
/// credit totals add up to the import's totals, and its debit and credit
/// row counts to the import's counts.
pub proof fn law_breakdown_accounts_for_every_row(rows: Seq<TxnRow>, bs: Seq<CategoryBreakdown>)
    requires
        breakdown_matches(rows, bs),
    ensures
        sum_over_categories(breakdown_categories(bs), rows, cat_debit_of()) == sum_by(
            rows,
            debit_amount_fn(),
        ),
        sum_over_categories(breakdown_categories(bs), rows, cat_credit_of()) == sum_by(
            rows,
            credit_amount_fn(),
        ),
        sum_over_categories(breakdown_categories(bs), rows, cat_debit_rows_of()) == sum_by(
            rows,
            debit_row_fn(),
        ),
        sum_over_categories(breakdown_categories(bs), rows, cat_credit_rows_of()) == sum_by(
            rows,
            credit_row_fn(),
        ),
{
    let cs = breakdown_categories(bs);
    assert(cs.no_duplicates()) by {
        assert forall|a: int, b: int| 0 <= a < cs.len() && 0 <= b < cs.len() && a != b implies cs[a]
            != cs[b] by {
            lemma_text_less_irreflexive(bs[a].category@);
            if a < b {
                assert(breakdown_before(rows, bs[a].category@, bs[b].category@));
            } else {
                assert(breakdown_before(rows, bs[b].category@, bs[a].category@));
            }
        }
    }
    assert forall|t: int| 0 <= t < rows.len() implies cs.contains(row_label(#[trigger] rows[t])) by {
        assert(lists_breakdown(bs, row_label(rows[t])));
        let j = choose|j: int| 0 <= j < bs.len() && (#[trigger] bs[j]).category@ == row_label(rows[t]);
        assert(cs[j] == row_label(rows[t]));
    }
    assert(restricts(cat_debit_of(), debit_amount_fn()));
    assert(restricts(cat_credit_of(), credit_amount_fn()));
    assert(restricts(cat_debit_rows_of(), debit_row_fn()));
    assert(restricts(cat_credit_rows_of(), credit_row_fn()));
    lemma_partition(cs, rows, cat_debit_of(), debit_amount_fn());
    lemma_partition(cs, rows, cat_credit_of(), credit_amount_fn());
    lemma_partition(cs, rows, cat_debit_rows_of(), debit_row_fn());
    lemma_partition(cs, rows, cat_credit_rows_of(), credit_row_fn());
}

} // verus!
