use finance_manager::investments::{
    apply_investment_upsert, delete_investment, summarise as summarise_assets,
    summarise_if_readable as summarise_assets_if_readable, InvestmentAsset,
    InvestmentsDoc, UpsertInvestmentSpec,
};
use finance_manager::loans::{
    apply_loan_upsert, classification_for, classify, delete_loan, effective_rate_of, summarise,
    summarise_if_readable,
    total_monthly_emi, Loan,
    LoansDoc, UpsertLoanSpec,
};
use finance_manager::money::{
    format_cents, format_quotient, parse_amount, parse_stored_cents, read_stored_amount, remove_commas,
};

fn loan(id: &str, loan_type: &str, rate: &str, principal: &str, emi: &str, tax: bool) -> Loan {
    Loan {
        id: id.into(),
        loan_type: loan_type.into(),
        lender: "BANK".into(),
        principal_outstanding: principal.into(),
        interest_rate: rate.into(),
        rate_type: "Floating".into(),
        remaining_tenure_months: 120,
        emi: emi.into(),
        prepayment_penalty_pct: "0.00".into(),
        tax_benefit: tax,
        start_date: "2024-01-01".into(),
        next_due_date: "2026-06-01".into(),
        notes: None,
        last_updated_at: "2026-05-28T00:00:00Z".into(),
    }
}

fn asset(asset_type: &str, name: &str, invested: &str, current: &str) -> InvestmentAsset {
    InvestmentAsset {
        id: format!("inv:{name}"),
        asset_type: asset_type.into(),
        asset_name: name.into(),
        invested_amount: invested.into(),
        current_value: current.into(),
        last_updated_at: "2026-05-28T00:00:00Z".into(),
        notes: None,
    }
}

#[test]
fn loans_empty_summary_returns_zeros() {
    let s = summarise(&Vec::new());
    assert_eq!(s.loan_count, 0);
    assert_eq!(s.total_outstanding, "0.00");
    assert_eq!(s.total_monthly_emi, "0.00");
    assert_eq!(s.weighted_avg_rate, "0.00");
}

#[test]
fn home_loan_with_tax_benefit_classified_good() {
    let l = loan("h", "Home", "9.00", "5000000.00", "45000.00", true);
    let s = summarise(&vec![l]);
    assert_eq!(s.classifications[0].verdict, "good");
    assert_eq!(s.classifications[0].effective_rate, "6.50");
}

#[test]
fn personal_loan_at_14_pct_classified_bad() {
    let l = loan("p", "Personal", "14.00", "200000.00", "8000.00", false);
    let s = summarise(&vec![l]);
    assert_eq!(s.classifications[0].verdict, "bad");
    assert_eq!(s.classifications[0].effective_rate, "14.00");
}

#[test]
fn credit_card_always_bad_even_at_low_teaser_rate() {
    let l = loan("c", "Credit Card", "3.00", "50000.00", "2500.00", false);
    let s = summarise(&vec![l]);
    assert_eq!(s.classifications[0].verdict, "bad");
    assert!(s.classifications[0].rationale.contains("Credit-card"));
}

#[test]
fn car_loan_at_10_pct_classified_watch() {
    let l = loan("car", "Car", "10.50", "500000.00", "12000.00", false);
    let s = summarise(&vec![l]);
    assert_eq!(s.classifications[0].verdict, "watch");
}

#[test]
fn weighted_avg_rate_uses_principal_as_weight() {
    let loans = vec![
        loan("a", "Home", "8.00", "100000.00", "0.00", true),
        loan("b", "Car", "10.00", "900000.00", "0.00", false),
    ];
    let s = summarise(&loans);
    assert_eq!(s.weighted_avg_rate, "9.80");
}

#[test]
fn avalanche_orders_by_rate_descending() {
    let loans = vec![
        loan("a", "Home", "8.00", "100000.00", "0.00", true),
        loan("b", "Personal", "14.00", "200000.00", "0.00", false),
        loan("c", "Car", "10.00", "500000.00", "0.00", false),
    ];
    let s = summarise(&loans);
    assert_eq!(s.avalanche_order, vec!["b", "c", "a"]);
}

#[test]
fn snowball_orders_by_principal_ascending() {
    let loans = vec![
        loan("a", "Home", "8.00", "100000.00", "0.00", true),
        loan("b", "Personal", "14.00", "200000.00", "0.00", false),
        loan("c", "Car", "10.00", "50000.00", "0.00", false),
    ];
    let s = summarise(&loans);
    assert_eq!(s.snowball_order, vec!["c", "a", "b"]);
}

#[test]
fn tax_shave_never_drops_below_zero() {
    assert_eq!(effective_rate_of(100, true), 0);
}

#[test]
fn effective_rate_shaves_two_and_a_half_points() {
    assert_eq!(effective_rate_of(900, true), 650);
    assert_eq!(effective_rate_of(900, false), 900);
}

#[test]
fn classify_wording() {
    let (v, why) = classify(1300, false, "Personal");
    assert_eq!(v, "bad");
    assert!(why.starts_with("Effective rate 13.00% is at or above the 12% bad-loan threshold."));
}

#[test]
fn total_emi_sums_every_loan() {
    let loans = vec![
        loan("a", "Home", "8.00", "100000.00", "45000.50", true),
        loan("b", "Car", "10.00", "900000.00", "12000.25", false),
    ];
    assert_eq!(total_monthly_emi(&loans), 5700075);
}

fn loan_spec(id: Option<&str>, principal: &str, rate_type: &str) -> UpsertLoanSpec {
    UpsertLoanSpec {
        id: id.map(|s| s.to_string()),
        loan_type: "Home".into(),
        lender: " SBI ".into(),
        principal_outstanding: principal.into(),
        interest_rate: "8.5".into(),
        rate_type: rate_type.into(),
        remaining_tenure_months: 100,
        emi: "1,000".into(),
        prepayment_penalty_pct: None,
        tax_benefit: true,
        start_date: "2024-01-01".into(),
        next_due_date: "2026-01-01".into(),
        notes: Some("  ".into()),
    }
}

#[test]
fn loan_upsert_creates_edits_and_deletes() {
    let mut doc = LoansDoc { loans: Vec::new() };
    let created = apply_loan_upsert(
        &mut doc,
        loan_spec(None, "1,00,000.5", "fixed"),
        "2026-05-01T00:00:00Z".into(),
        "loan:abc".into(),
    );
    let created = match created {
        Ok(l) => l,
        Err(e) => panic!("{e}"),
    };
    assert_eq!(created.id, "loan:abc");
    assert_eq!(created.principal_outstanding, "100000.50");
    assert_eq!(created.interest_rate, "8.50");
    assert_eq!(created.emi, "1000.00");
    assert_eq!(created.rate_type, "Fixed");
    assert_eq!(doc.loans.len(), 1);
    let bad = apply_loan_upsert(&mut doc, loan_spec(None, "abc", "fixed"), "t".into(), "loan:x".into());
    assert!(bad.is_err());
    assert_eq!(doc.loans.len(), 1);
    let missing = apply_loan_upsert(&mut doc, loan_spec(Some("nope"), "1.00", "fixed"), "t".into(), "x".into());
    assert!(missing.is_err());
    assert!(delete_loan(&mut doc, "loan:abc").is_ok());
    assert!(doc.loans.is_empty());
    assert!(delete_loan(&mut doc, "loan:abc").is_err());
}

#[test]
fn investments_empty_summary_returns_zeros() {
    let s = summarise_assets(&Vec::new());
    assert_eq!(s.asset_count, 0);
    assert_eq!(s.total_invested, "0.00");
    assert_eq!(s.total_current_value, "0.00");
    assert_eq!(s.unrealized_gain_loss, "0.00");
    assert!(s.return_pct.is_empty());
    assert!(s.allocation.is_empty());
}

#[test]
fn summary_computes_totals_gain_and_return_pct() {
    let assets = vec![
        asset("Mutual Fund", "PPFAS Flexicap", "100000.00", "125000.00"),
        asset("Stock", "INFY", "50000.00", "45000.00"),
        asset("FD", "HDFC 1Y", "200000.00", "210000.00"),
    ];
    let s = summarise_assets(&assets);
    assert_eq!(s.asset_count, 3);
    assert_eq!(s.total_invested, "350000.00");
    assert_eq!(s.total_current_value, "380000.00");
    assert_eq!(s.unrealized_gain_loss, "30000.00");
    assert!(s.return_pct.starts_with("8.57"));
}

#[test]
fn allocation_sorted_by_current_value_desc() {
    let assets = vec![
        asset("Stock", "A", "10.00", "15.00"),
        asset("FD", "B", "100.00", "100.00"),
        asset("Mutual Fund", "C", "50.00", "60.00"),
    ];
    let s = summarise_assets(&assets);
    assert_eq!(s.allocation[0].asset_type, "FD");
    assert_eq!(s.allocation[1].asset_type, "Mutual Fund");
    assert_eq!(s.allocation[2].asset_type, "Stock");
}

#[test]
fn share_pct_sums_to_100_when_value_is_positive() {
    let assets = vec![asset("Stock", "A", "0.00", "30.00"), asset("FD", "B", "0.00", "70.00")];
    let s = summarise_assets(&assets);
    let sum: f64 = s
        .allocation
        .iter()
        .map(|a| a.share_pct.parse::<f64>().unwrap_or(0.0))
        .sum();
    assert!((sum - 100.0).abs() < 0.01);
}

#[test]
fn return_pct_empty_when_invested_zero() {
    let assets = vec![asset("Stock", "Gift", "0.00", "100.00")];
    let s = summarise_assets(&assets);
    assert_eq!(s.unrealized_gain_loss, "100.00");
    assert!(s.return_pct.is_empty());
}

#[test]
fn investment_upsert_and_delete() {
    let mut doc = InvestmentsDoc { assets: Vec::new() };
    let spec = UpsertInvestmentSpec {
        id: None,
        asset_type: " Stock ".into(),
        asset_name: "INFY".into(),
        invested_amount: "1,000".into(),
        current_value: "1200.5".into(),
        notes: None,
    };
    let a = match apply_investment_upsert(&mut doc, spec, "2026-05-01T00:00:00Z".into(), "inv:1".into()) {
        Ok(a) => a,
        Err(e) => panic!("{e}"),
    };
    assert_eq!(a.id, "inv:1");
    assert_eq!(a.invested_amount, "1000.00");
    assert_eq!(a.current_value, "1200.50");
    assert_eq!(doc.assets.len(), 1);
    assert!(delete_investment(&mut doc, "inv:1").is_ok());
    assert!(delete_investment(&mut doc, "inv:1").is_err());
}

#[test]
fn parse_amount_accepts_comma_separated_indian_format() {
    let d = parse_amount("1,25,000.50", "x").unwrap();
    assert_eq!(d.to_text2(), "125000.50");
    assert!(!d.negative);
}

#[test]
fn parse_amount_rejects_garbage() {
    assert!(parse_amount("not a number", "x").is_err());
}

#[test]
fn stored_amounts_round_trip() {
    assert_eq!(parse_stored_cents("125000.50"), Some(12500050));
    assert_eq!(parse_stored_cents("-0.05"), Some(-5));
    assert_eq!(parse_stored_cents("12.5"), None);
    assert_eq!(format_cents(12500050), "125000.50");
    assert_eq!(format_cents(-5), "-0.05");
    assert_eq!(format_quotient(2, 0, 300, 2), "0.66");
    assert_eq!(format_quotient(-1, 0, 300, 2), "-0.33");
    assert_eq!(format_quotient(45000, 4, 300, 2), "1.50");
    assert_eq!(remove_commas("1,25,000"), "125000");
}

#[test]
fn stored_amounts_read_as_decimals() {
    assert_eq!(read_stored_amount("1234.50"), Some(123450));
    assert_eq!(read_stored_amount("1234.5"), Some(123450));
    assert_eq!(read_stored_amount("1234"), Some(123400));
    assert_eq!(read_stored_amount("-0.75"), Some(-75));
    assert_eq!(read_stored_amount("10.500"), Some(1050));
    assert_eq!(read_stored_amount("10.505"), None);
    assert_eq!(read_stored_amount("ten"), None);
    assert_eq!(read_stored_amount(&format_cents(-123456)), Some(-123456));
}

#[test]
fn summaries_read_amounts_in_any_decimal_form() {
    let assets = vec![
        asset("FD", "A", "100", "110.5"),
        asset("Stock", "B", "50.00", "40"),
    ];
    let s = summarise_assets_if_readable(&assets).expect("readable amounts");
    assert_eq!(s.total_invested, "150.00");
    assert_eq!(s.total_current_value, "150.50");
    assert_eq!(s.allocation[0].asset_type, "FD");
    assert_eq!(s.allocation[0].current_value, "110.50");
    assert!(summarise_assets_if_readable(&vec![asset("FD", "A", "abc", "1.00")]).is_none());
    assert!(summarise_assets_if_readable(&vec![asset("FD", "A", "1.001", "1.00")]).is_none());

    let loans = vec![loan("a", "Home", "8", "100000", "0", true), loan("b", "Car", "10.0", "900000.00", "0.00", false)];
    let l = summarise_if_readable(&loans).expect("readable amounts");
    assert_eq!(l.total_outstanding, "1000000.00");
    assert_eq!(l.avalanche_order, vec!["b".to_string(), "a".to_string()]);
    assert!(summarise_if_readable(&vec![loan("a", "Home", "x", "1.00", "1.00", true)]).is_none());
}

#[test]
fn verdict_lookup_finds_the_loan_by_id() {
    let s = summarise(&vec![
        loan("a", "Home", "8.00", "100000.00", "0.00", true),
        loan("b", "Credit Card", "3.00", "50000.00", "0.00", false),
    ]);
    let j = classification_for(&s.classifications, "b").expect("loan b has a verdict");
    assert_eq!(s.classifications[j].loan_id, "b");
    assert_eq!(s.classifications[j].verdict, "bad");
    assert_eq!(classification_for(&s.classifications, "zzz"), None);
}

#[test]
fn weighted_rate_is_the_decimal_quotient() {
    let s = summarise(&vec![
        loan("a", "Home", "8.00", "100000.00", "0.00", true),
        loan("b", "Car", "10.00", "200000.00", "0.00", false),
    ]);
    // (8 × 100000 + 10 × 200000) / 300000 = 9.333…
    assert_eq!(s.weighted_avg_rate, "9.33");
}

#[test]
fn share_that_would_overflow_a_decimal_is_not_summarised() {
    let assets = vec![
        asset("X", "A", "0.00", "-79228162514264337593543950.00"),
        asset("Y", "B", "0.00", "79228162514264337593543950.01"),
    ];
    assert!(summarise_assets_if_readable(&assets).is_none());
}
