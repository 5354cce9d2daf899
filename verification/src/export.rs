//! What the spreadsheet export reports back: the counts, the warning about
//! rows still uncategorized, and the order rows are written in.

use crate::sorting::{lemma_same_elements, sort_by_rank, stable_arrangement, ties, Ranked};
use crate::text::{
    lemma_text_less_negative_transitive,
    eq_ignore_ascii, lemma_text_less_irreflexive, lemma_text_less_transitive, nat_text, opt_view,
    push_nat, str_eq_ignore_ascii_case, str_less, text_less,
};
use vstd::prelude::*;

verus! {

/// Summary of a finished export.
pub struct ExportResult {
    pub file_path: String,
    pub transaction_count: u32,
    pub uncategorized_count: u32,
    pub investment_count: u32,
    pub loan_count: u32,
    /// Set when rows are still uncategorized; the export runs anyway.
    pub warning: Option<String>,
}

/// A row counts as uncategorized without a category or with
/// `Uncategorized` in any ASCII case.
pub open spec fn is_uncategorized(c: Option<Seq<char>>) -> bool {
    match c {
        Some(s) => eq_ignore_ascii(s, "Uncategorized"@),
        None => true,
    }
}

pub open spec fn uncategorized_count(cats: Seq<Option<String>>) -> int
    decreases cats.len(),
{
    if cats.len() == 0 {
        0
    } else {
        uncategorized_count(cats.drop_last()) + if is_uncategorized(opt_view(cats.last())) {
            1int
        } else {
            0int
        }
    }
}

/// Number of rows, given by their categories, that are uncategorized.
pub fn count_uncategorized(categories: &Vec<Option<String>>) -> (r: u32)
    requires
        categories@.len() <= u32::MAX,
    ensures
        r == uncategorized_count(categories@),
{
    let n = categories.len();
    let mut count: u32 = 0;
    let mut i: usize = 0;
    while i < n
        invariant
            0 <= i <= n,
            n == categories@.len(),
            n <= u32::MAX,
            count <= i,
            count == uncategorized_count(categories@.subrange(0, i as int)),
        decreases n - i,
    {
        let hit = match &categories[i] {
            Some(c) => str_eq_ignore_ascii_case(c.as_str(), "Uncategorized"),
            None => true,
        };
        proof {
            let s = categories@.subrange(0, i + 1);
            assert(s.drop_last() =~= categories@.subrange(0, i as int));
            assert(s.last() == categories@[i as int]);
        }
        if hit {
            count = count + 1;
        }
        i = i + 1;
    }
    proof {
        assert(categories@.subrange(0, n as int) =~= categories@);
    }
    count
}

pub open spec fn export_warning_text(n: u32) -> Option<Seq<char>> {
    if n == 0 {
        None
    } else {
        Some(
            nat_text(n as nat) + " transaction"@ + (if n == 1 {
                ""@
            } else {
                "s"@
            })
                + " still Uncategorized — exported anyway, but the per-category breakdown will under-attribute spend."@,
        )
    }
}

/// The warning for `n` uncategorized rows; none when there are none.
pub fn export_warning(n: u32) -> (r: Option<String>)
    ensures
        opt_view(r) == export_warning_text(n),
{
    if n == 0 {
        return None;
    }
    let mut w = String::new();
    push_nat(&mut w, n as u128);
    w.append(" transaction");
    if n != 1 {
        w.append("s");
    }
    w.append(
        " still Uncategorized — exported anyway, but the per-category breakdown will under-attribute spend.",
    );
    proof {
        if n == 1 {
            reveal_strlit("");
            assert(""@ =~= Seq::<char>::empty());
            assert(w@ =~= export_warning_text(n)->0);
        }
    }
    Some(w)
}

/// The result reported for an export.
pub fn export_result(
    file_path: String,
    transaction_count: u32,
    uncategorized_count: u32,
    investment_count: u32,
    loan_count: u32,
) -> (r: ExportResult)
    ensures
        r.file_path == file_path,
        r.transaction_count == transaction_count,
        r.uncategorized_count == uncategorized_count,
        r.investment_count == investment_count,
        r.loan_count == loan_count,
        opt_view(r.warning) == export_warning_text(uncategorized_count),
{
    ExportResult {
        file_path,
        transaction_count,
        uncategorized_count,
        investment_count,
        loan_count,
        warning: export_warning(uncategorized_count),
    }
}

/// A row position with the date it is ordered by.
pub struct DatedIndex {
    pub date: String,
    pub index: usize,
}

impl Ranked for DatedIndex {
    /// Later date first.
    open spec fn ranks_before(&self, other: &Self) -> bool {
        text_less(other.date@, self.date@)
    }

    fn ranks_before_exec(&self, other: &Self) -> (r: bool) {
        str_less(other.date.as_str(), self.date.as_str())
    }

    proof fn lemma_strict(a: &Self, b: &Self, c: &Self) {
        lemma_text_less_negative_transitive(c.date@, b.date@, a.date@);
        lemma_text_less_irreflexive(a.date@);
        if text_less(b.date@, a.date@) && text_less(c.date@, b.date@) {
            lemma_text_less_transitive(c.date@, b.date@, a.date@);
        }
    }
}

/// The order rows are written in: a rearrangement of the positions of
/// `dates`, latest date first.
pub fn newest_first_order(dates: &Vec<String>) -> (r: Vec<usize>)
    ensures
        r@.len() == dates@.len(),
        forall|i: int, j: int|
            0 <= i < r@.len() && 0 <= j < r@.len() && i != j ==> (#[trigger] r@[i]) != (
            #[trigger] r@[j]),
        forall|i: int| 0 <= i < r@.len() ==> (#[trigger] r@[i]) < dates@.len(),
        forall|i: int, j: int|
            #![trigger r@[i], r@[j]]
            0 <= i < j < r@.len() ==> !text_less(dates@[r@[i] as int]@, dates@[r@[j] as int]@),
        forall|i: int, j: int|
            #![trigger r@[i], r@[j]]
            0 <= i < j < r@.len() && dates@[r@[i] as int]@ == dates@[r@[j] as int]@ ==> r@[i]
                < r@[j],
{
    let n = dates.len();
    let mut keyed: Vec<DatedIndex> = Vec::new();
    let mut i: usize = 0;
    while i < n
        invariant
            0 <= i <= n,
            n == dates@.len(),
            keyed@.len() == i,
            forall|q: int|
                0 <= q < i ==> (#[trigger] keyed@[q]).index == q && keyed@[q].date@ == dates@[q]@,
        decreases n - i,
    {
        keyed.push(DatedIndex { date: dates[i].clone(), index: i });
        i = i + 1;
    }
    let sorted = sort_by_rank(keyed);
    proof {
        assert(keyed@.no_duplicates()) by {
            assert forall|a: int, b: int|
                0 <= a < keyed@.len() && 0 <= b < keyed@.len() && a != b implies keyed@[a]
                != keyed@[b] by {
                assert(keyed@[a].index != keyed@[b].index);
            }
        }
        lemma_same_elements(keyed@, sorted@);
    }
    let mut out: Vec<usize> = Vec::new();
    let mut k: usize = 0;
    while k < n
        invariant
            0 <= k <= n,
            n == sorted@.len(),
            n == keyed@.len(),
            n == dates@.len(),
            sorted@.no_duplicates(),
            forall|q: int| 0 <= q < n ==> keyed@.contains(#[trigger] sorted@[q]),
            forall|q: int|
                0 <= q < n ==> (#[trigger] keyed@[q]).index == q && keyed@[q].date@ == dates@[q]@,
            out@.len() == k,
            forall|q: int| 0 <= q < k ==> (#[trigger] out@[q]) == sorted@[q].index,
        decreases n - k,
    {
        out.push(sorted[k].index);
        k = k + 1;
    }
    proof {
        assert forall|q: int| 0 <= q < n implies {
            let s = #[trigger] sorted@[q];
            s.index < n && s.date@ == dates@[s.index as int]@ && keyed@[s.index as int] == s
        } by {
            let s = sorted@[q];
            let x = choose|x: int| 0 <= x < keyed@.len() && keyed@[x] == s;
        }
        assert forall|a: int, b: int|
            0 <= a < out@.len() && 0 <= b < out@.len() && a != b implies (#[trigger] out@[a]) != (
            #[trigger] out@[b]) by {
            assert(sorted@[a] != sorted@[b]);
            if sorted@[a].index == sorted@[b].index {
                assert(keyed@[sorted@[a].index as int] == sorted@[a]);
                assert(keyed@[sorted@[b].index as int] == sorted@[b]);
            }
        }
        assert forall|a: int, b: int|
            #![trigger out@[a], out@[b]]
            0 <= a < b < out@.len() implies !text_less(
            dates@[out@[a] as int]@,
            dates@[out@[b] as int]@,
        ) by {
            assert(!sorted@[b].ranks_before(&sorted@[a]));
        }
        let p = choose|p: Seq<int>| stable_arrangement(keyed@, sorted@, p);
        assert forall|a: int, b: int|
            #![trigger out@[a], out@[b]]
            0 <= a < b < out@.len() && dates@[out@[a] as int]@ == dates@[out@[b] as int]@ implies out@[a]
            < out@[b] by {
            assert(sorted@[a] == keyed@[p[a]] && sorted@[b] == keyed@[p[b]]);
            lemma_text_less_irreflexive(sorted@[a].date@);
            assert(ties(sorted@[a], sorted@[b]));
        }
    }
    out
}

} // verus!
