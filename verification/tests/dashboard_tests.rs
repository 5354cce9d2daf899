use finance_manager::dashboard::{
    build_recommendations, classify_category, driver_detail, is_essential, parse_iso_month,
    summarise_rows, txn_path, CategoryKind, RowsSummary, SavingsBand,
};
use finance_manager::transactions::TxnRow;

fn paise(s: &str) -> i128 {
    let (whole, frac) = s.split_once('.').unwrap();
    whole.parse::<i128>().unwrap() * 100 + frac.parse::<i128>().unwrap()
}

fn row(date: &str, category: &str, debit: Option<&str>, credit: Option<&str>) -> TxnRow {
    TxnRow {
        row_number: 1,
        txn_date: date.to_string(),
        debit: debit.map(paise),
        credit: credit.map(paise),
        category: Some(category.to_string()),
        category_rule_id: Some("test".to_string()),
    }
}

fn summary(rows: &[TxnRow]) -> RowsSummary {
    summarise_rows(1, &rows.to_vec())
}

fn months_of(d: &RowsSummary) -> u32 {
    d.total_months.max(1)
}

#[test]
fn classify_categories_correctly() {
    assert_eq!(classify_category("Salary"), CategoryKind::Income);
    assert_eq!(classify_category("Dividend"), CategoryKind::Income);
    assert_eq!(classify_category("Credit Card Payment"), CategoryKind::Transfer);
    assert_eq!(classify_category("Bank Transfer"), CategoryKind::Transfer);
    assert_eq!(classify_category("ATM / Cash"), CategoryKind::Expense);
    assert_eq!(classify_category("Groceries"), CategoryKind::Expense);
    assert_eq!(classify_category("Uncategorized"), CategoryKind::Expense);
}

#[test]
fn classify_recognises_investment_synonyms() {
    assert_eq!(classify_category("SIP"), CategoryKind::Investment);
    assert_eq!(classify_category("sip"), CategoryKind::Investment);
    assert_eq!(classify_category("Mutual Fund"), CategoryKind::Investment);
    assert_eq!(classify_category("PPF"), CategoryKind::Investment);
    assert_eq!(classify_category("ELSS"), CategoryKind::Investment);
    assert_eq!(classify_category("Investments"), CategoryKind::Investment);
    assert_eq!(classify_category("Equity"), CategoryKind::Investment);
    assert_eq!(classify_category("Fixed Deposit"), CategoryKind::Investment);
    assert_eq!(classify_category("FD"), CategoryKind::Investment);
}

#[test]
fn is_essential_recognises_user_synonyms() {
    assert!(is_essential("Rent"));
    assert!(is_essential("rent"));
    assert!(is_essential("Loans"));
    assert!(is_essential("Loan EMI"));
    assert!(is_essential("EMI"));
    assert!(is_essential("Food"));
    assert!(is_essential("Groceries"));
    assert!(!is_essential("Restaurants"));
    assert!(!is_essential("SIP"));
}

#[test]
fn investments_are_excluded_from_expense_and_drive_consistency() {
    let rows = vec![
        row("2026-03-01", "Salary", None, Some("100000.00")),
        row("2026-03-15", "SIP", Some("10000.00"), None),
        row("2026-04-01", "Salary", None, Some("100000.00")),
        row("2026-04-15", "SIP", Some("10000.00"), None),
        row("2026-05-01", "Salary", None, Some("100000.00")),
        row("2026-05-15", "Mutual Fund", Some("10000.00"), None),
    ];
    let d = summary(&rows);
    assert_eq!(d.total_expense, "0.00");
    assert_eq!(d.months_with_investment, 3);
    assert_eq!(d.total_months, 3);
}

#[test]
fn investment_consistency_falls_when_user_skips_months() {
    let rows = vec![
        row("2026-02-01", "Salary", None, Some("100000.00")),
        row("2026-02-15", "Groceries", Some("5000.00"), None),
        row("2026-03-01", "Salary", None, Some("100000.00")),
        row("2026-03-15", "SIP", Some("10000.00"), None),
        row("2026-04-01", "Salary", None, Some("100000.00")),
        row("2026-04-15", "Groceries", Some("5000.00"), None),
        row("2026-05-01", "Salary", None, Some("100000.00")),
        row("2026-05-15", "SIP", Some("10000.00"), None),
    ];
    let d = summary(&rows);
    assert_eq!(d.months_with_investment, 2);
    assert_eq!(d.total_months, 4);
}

#[test]
fn transfers_are_excluded_from_income_and_expense() {
    let rows = vec![
        row("2026-04-01", "Salary", None, Some("50000.00")),
        row("2026-04-15", "Credit Card Payment", Some("20000.00"), None),
        row("2026-04-20", "Groceries", Some("3000.00"), None),
    ];
    let d = summary(&rows);
    assert_eq!(d.total_income, "50000.00");
    assert_eq!(d.total_expense, "3000.00");
    assert_eq!(d.net_savings, "47000.00");
    assert_eq!(d.transfer_total, "20000.00");
    assert_eq!(d.transfer_count, 1);
}

#[test]
fn cash_withdrawal_counted_as_expense() {
    let rows = vec![row("2026-04-10", "ATM / Cash", Some("5000.00"), None)];
    let d = summary(&rows);
    assert_eq!(d.total_expense, "5000.00");
    assert_eq!(d.transfer_total, "0.00");
}

#[test]
fn credit_on_expense_category_lands_in_income_not_negative_expense() {
    let rows = vec![
        row("2026-04-05", "Online Shopping", Some("1000.00"), None),
        row("2026-04-08", "Online Shopping", None, Some("400.00")),
    ];
    let d = summary(&rows);
    assert_eq!(d.total_expense, "1000.00");
    assert_eq!(d.total_income, "400.00");
    assert_eq!(d.net_savings, "-600.00");
    assert_eq!(d.monthly_trend[0].expense, "1000.00");
    assert_eq!(d.monthly_trend[0].income, "400.00");
}

#[test]
fn period_covers_earliest_to_latest_date() {
    let rows = vec![
        row("2026-04-15", "Groceries", Some("100.00"), None),
        row("2026-03-02", "Groceries", Some("100.00"), None),
        row("2026-05-20", "Groceries", Some("100.00"), None),
    ];
    let d = summary(&rows);
    assert_eq!(d.period_start.as_deref(), Some("2026-03-02"));
    assert_eq!(d.period_end.as_deref(), Some("2026-05-20"));
}

#[test]
fn salary_debit_is_ignored_not_silently_folded_into_expense() {
    let rows = vec![row("2026-04-01", "Salary", Some("5000.00"), None)];
    let d = summary(&rows);
    assert_eq!(d.total_income, "0.00");
    assert_eq!(d.total_expense, "0.00");
    assert_eq!(d.category_totals[0].category, "Salary");
    assert_eq!(d.category_totals[0].total_debit, "5000.00");
}

#[test]
fn empty_imports_return_zeroed_aggregate() {
    let d = summarise_rows(0, &Vec::new());
    assert_eq!(d.import_count, 0);
    assert_eq!(d.total_income, "0.00");
    assert_eq!(d.total_expense, "0.00");
    assert_eq!(d.net_savings, "0.00");
    assert!(d.period_start.is_none());
}

#[test]
fn monthly_trend_buckets_by_calendar_month() {
    let rows = vec![
        row("2026-03-15", "Groceries", Some("1000.00"), None),
        row("2026-04-01", "Salary", None, Some("50000.00")),
        row("2026-04-10", "Restaurants", Some("3000.00"), None),
        row("2026-04-20", "Restaurants", Some("2000.00"), None),
    ];
    let d = summary(&rows);
    assert_eq!(d.monthly_trend.len(), 2);
    assert_eq!(d.monthly_trend[0].month, "2026-03");
    assert_eq!(d.monthly_trend[0].income, "0.00");
    assert_eq!(d.monthly_trend[0].expense, "1000.00");
    assert_eq!(d.monthly_trend[1].month, "2026-04");
    assert_eq!(d.monthly_trend[1].income, "50000.00");
    assert_eq!(d.monthly_trend[1].expense, "5000.00");
    assert_eq!(d.monthly_trend[1].net, "45000.00");
}

#[test]
fn recommendations_lead_with_top_discretionary_cut() {
    let rows = vec![
        row("2026-04-01", "Salary", None, Some("100000.00")),
        row("2026-04-10", "Restaurants", Some("15000.00"), None),
        row("2026-04-20", "Rent", Some("20000.00"), None),
    ];
    let d = summary(&rows);
    let recs = build_recommendations(&d.category_spend, d.income, SavingsBand::Healthy, 57, months_of(&d));
    assert!(recs[0].title.contains("Restaurants"));
    assert_eq!(recs[0].kind, "expense-cut");
    assert_eq!(recs[0].monthly_impact.as_deref(), Some("3000.00"));
}

#[test]
fn expense_cut_impact_is_monthly_not_period_total() {
    let rows = vec![
        row("2026-03-01", "Salary", None, Some("100000.00")),
        row("2026-03-10", "Restaurants", Some("15000.00"), None),
        row("2026-04-01", "Salary", None, Some("100000.00")),
        row("2026-04-10", "Restaurants", Some("15000.00"), None),
        row("2026-05-01", "Salary", None, Some("100000.00")),
        row("2026-05-10", "Restaurants", Some("15000.00"), None),
    ];
    let d = summary(&rows);
    let recs = build_recommendations(&d.category_spend, d.income, SavingsBand::Healthy, 0, months_of(&d));
    let cut = recs
        .iter()
        .find(|r| r.kind == "expense-cut")
        .expect("should have an expense-cut recommendation");
    assert_eq!(cut.monthly_impact.as_deref(), Some("3000.00"));
}

#[test]
fn behavioral_nudge_skipped_when_expense_cut_already_fired() {
    let rows = vec![
        row("2026-04-01", "Salary", None, Some("50000.00")),
        row("2026-04-10", "Restaurants", Some("30000.00"), None),
        row("2026-04-15", "Online Shopping", Some("10000.00"), None),
    ];
    let d = summary(&rows);
    // Every expense here is discretionary: the essential-vs-discretionary
    // score is at its floor.
    let recs = build_recommendations(&d.category_spend, d.income, SavingsBand::UnderThirty, 0, months_of(&d));
    let has_cut = recs.iter().any(|r| r.kind == "expense-cut");
    let has_behavioral = recs.iter().any(|r| r.kind == "behavioral");
    assert!(has_cut);
    assert!(!has_behavioral, "behavioral nudge fired alongside expense-cut");
}

#[test]
fn behavioral_nudge_fires_without_a_cut() {
    let rows = vec![
        row("2026-04-01", "Salary", None, Some("50000.00")),
        row("2026-04-10", "Restaurants", Some("1000.00"), None),
    ];
    let d = summary(&rows);
    let recs = build_recommendations(&d.category_spend, d.income, SavingsBand::Healthy, 0, months_of(&d));
    assert!(recs.iter().all(|r| r.kind != "expense-cut"));
    assert!(recs.iter().any(|r| r.kind == "behavioral"));
    assert_eq!(recs.last().unwrap().title, "Start tracking investments");
}

#[test]
fn parse_iso_month_validates_shape() {
    assert_eq!(parse_iso_month("2026-04-15"), Some("2026-04"));
    assert_eq!(parse_iso_month("2026-12-31"), Some("2026-12"));
    assert!(parse_iso_month("").is_none());
    assert!(parse_iso_month("2026/04/15").is_none());
    assert!(parse_iso_month("not-a-date").is_none());
    assert!(parse_iso_month("2026-4-15").is_none());
    assert!(parse_iso_month("2026-04-15T00:00:00").is_none());
}

#[test]
fn monthly_trend_skips_malformed_dates() {
    let rows = vec![
        row("2026-04-10", "Groceries", Some("1000.00"), None),
        row("bad-date", "Groceries", Some("500.00"), None),
    ];
    let d = summary(&rows);
    assert_eq!(d.total_expense, "1500.00");
    assert_eq!(d.monthly_trend.len(), 1);
    assert_eq!(d.monthly_trend[0].month, "2026-04");
    assert_eq!(d.monthly_trend[0].expense, "1000.00");
}

#[test]
fn recommendations_skip_when_no_qualifying_categories() {
    let rows = vec![row("2026-04-01", "Salary", None, Some("50000.00"))];
    let d = summary(&rows);
    let recs = build_recommendations(&d.category_spend, d.income, SavingsBand::Healthy, 100, months_of(&d));
    assert!(recs.iter().all(|r| r.kind != "expense-cut"));
}

#[test]
fn category_totals_sorted_by_debit_descending() {
    let rows = vec![
        row("2026-04-01", "Groceries", Some("3000.00"), None),
        row("2026-04-02", "Restaurants", Some("8000.00"), None),
        row("2026-04-03", "Fuel", Some("2000.00"), None),
    ];
    let d = summary(&rows);
    assert_eq!(d.category_totals[0].category, "Restaurants");
    assert_eq!(d.category_totals[1].category, "Groceries");
    assert_eq!(d.category_totals[2].category, "Fuel");
}

#[test]
fn category_totals_carry_kind_and_counts() {
    let rows = vec![
        row("2026-04-01", "Salary", None, Some("1000.50")),
        row("2026-04-02", "SIP", Some("200.25"), None),
        row("2026-04-03", "SIP", Some("100.25"), None),
    ];
    let d = summary(&rows);
    assert_eq!(d.category_totals[0].category, "SIP");
    assert_eq!(d.category_totals[0].kind, "transfer");
    assert_eq!(d.category_totals[0].count, 2);
    assert_eq!(d.category_totals[0].total_debit, "300.50");
    assert_eq!(d.category_totals[1].kind, "income");
    assert_eq!(d.category_totals[1].total_credit, "1000.50");
}

#[test]
fn uncategorized_rows_are_grouped_as_uncategorized() {
    let mut r = row("2026-04-01", "x", Some("10.00"), None);
    r.category = None;
    let d = summary(&[r]);
    assert_eq!(d.category_totals[0].category, "Uncategorized");
    assert_eq!(d.category_totals[0].kind, "expense");
}

#[test]
fn kind_names_are_lowercase_words() {
    assert_eq!(CategoryKind::Income.as_str(), "income");
    assert_eq!(CategoryKind::Expense.as_str(), "expense");
    assert_eq!(CategoryKind::Transfer.as_str(), "transfer");
    assert_eq!(CategoryKind::Investment.as_str(), "transfer");
}

#[test]
fn driver_detail_names_the_score() {
    assert_eq!(driver_detail("savingsRate", 70), "Healthy savings rate.");
    assert_eq!(driver_detail("savingsRate", 0), "No income recorded yet — upload a salary statement.");
    assert_eq!(driver_detail("essentialDiscretionary", 50), "Balanced mix.");
    assert_eq!(driver_detail("unknown", 50), "");
}

#[test]
fn txn_path_points_into_the_import_directory() {
    assert_eq!(
        txn_path("imp-2026-05-26-abcdef"),
        "source/uploads/2026/05/imp-2026-05-26-abcdef/raw-transactions.json"
    );
}

#[test]
fn category_totals_account_for_every_row() {
    let rows = vec![
        row("2026-04-01", "Salary", None, Some("1000.50")),
        row("2026-04-02", "SIP", Some("200.25"), None),
        row("2026-04-03", "Rent", Some("100.25"), None),
        row("2026-04-04", "SIP", Some("1.00"), Some("2.00")),
    ];
    let d = summary(&rows);
    assert_eq!(d.category_totals.iter().map(|c| c.count).sum::<u32>(), 4);
    let total: i128 = d.category_totals.iter().map(|c| paise(&c.total_debit)).sum();
    assert_eq!(total, 20025 + 10025 + 100);
    let credit: i128 = d.category_totals.iter().map(|c| paise(&c.total_credit)).sum();
    assert_eq!(credit, 100050 + 200);
}

#[test]
fn zero_months_in_period_counts_as_one_month() {
    let rows = vec![
        row("2026-03-01", "Salary", None, Some("100000.00")),
        row("2026-03-10", "Restaurants", Some("15000.00"), None),
    ];
    let d = summary(&rows);
    let zero = build_recommendations(&d.category_spend, d.income, SavingsBand::Healthy, 57, 0);
    let one = build_recommendations(&d.category_spend, d.income, SavingsBand::Healthy, 57, 1);
    assert_eq!(zero.len(), one.len());
    assert_eq!(zero[0].kind, "expense-cut");
    assert_eq!(zero[0].monthly_impact.as_deref(), Some("3000.00"));
    assert_eq!(zero[0].monthly_impact, one[0].monthly_impact);
    assert!(zero[0].detail.contains("over 0 month(s)"));
}

#[test]
fn classifying_a_normalized_label_gives_the_same_kind() {
    for label in ["  SIP ", "Salary", " Credit Card Payment", "Rent  ", "Groceries", "ATM / Cash"] {
        let normalized = label.trim().to_lowercase();
        assert_eq!(classify_category(label), classify_category(&normalized));
        assert_eq!(is_essential(label), is_essential(&normalized));
    }
}

#[test]
fn essential_labels_are_expenses() {
    for label in ["Rent", "electricity", " FUEL ", "Loan EMI", "Train Travel"] {
        assert!(is_essential(label));
        assert_eq!(classify_category(label), CategoryKind::Expense);
    }
}
