use finance_manager::llm::{Direction, LookupItem, LookupResult};
use finance_manager::merchant_cache::{cache_key, MerchantCacheDoc, MerchantCacheEntry};
use finance_manager::stamps::{format_import_id, make_import_id};
use finance_manager::transactions::TxnRow;
use finance_manager::upload::{
    apply_cache_hits, apply_category_hits, apply_llm_results, build_category_breakdown,
    build_file_meta, collect_pending, duplicate_import_message, find_by_sha256, import_totals,
    llm_gate, lookup_batch, newest_first, parse_year_month, recategorize_row, rule_category,
    upload_path, zero_str, FileMeta, Pending, RuleHit,
};

fn row(n: u32, category: Option<&str>, debit: Option<i128>, credit: Option<i128>) -> TxnRow {
    TxnRow {
        row_number: n,
        txn_date: "2026-04-01".to_string(),
        debit,
        credit,
        category: category.map(|c| c.to_string()),
        category_rule_id: None,
    }
}

fn entry(category: &str, source: &str) -> MerchantCacheEntry {
    MerchantCacheEntry {
        category: category.to_string(),
        source: source.to_string(),
        looked_up_at: "2026-05-01T00:00:00Z".to_string(),
    }
}

fn meta(id: &str, at: &str, sha: &str) -> FileMeta {
    FileMeta {
        import_id: id.to_string(),
        uploaded_at: at.to_string(),
        source_file: "s.pdf".to_string(),
        source_sha256: sha.to_string(),
        adapter_id: "a".to_string(),
        adapter_version: "1".to_string(),
        page_count: 1,
        transaction_count: 12,
        debit_count: 0,
        credit_count: 0,
        total_debit: zero_str(),
        total_credit: zero_str(),
        category_breakdown: Vec::new(),
    }
}

#[test]
fn key_normalizes_case_and_whitespace() {
    assert_eq!(cache_key("SWIGGY INSTAMART", Direction::Debit), "d|swiggy instamart");
    assert_eq!(cache_key("  Amazon  ", Direction::Debit), "d|amazon");
}

#[test]
fn key_separates_directions_for_same_merchant() {
    let debit = cache_key("INDIAN RAILWAY", Direction::Debit);
    let credit = cache_key("INDIAN RAILWAY", Direction::Credit);
    assert_ne!(debit, credit);
    assert!(debit.starts_with("d|"));
    assert!(credit.starts_with("c|"));
}

#[test]
fn cache_insert_then_get_returns_the_entry() {
    let mut c = MerchantCacheDoc::new();
    assert!(c.get("d|x").is_none());
    c.insert("d|x".to_string(), entry("Groceries", "gemini"));
    c.insert("c|x".to_string(), entry("Dividend", "gemini"));
    c.insert("d|x".to_string(), entry("Shopping", "gemini"));
    assert_eq!(c.entries.len(), 2);
    assert_eq!(c.get("d|x").map(|e| e.category.clone()), Some("Shopping".to_string()));
    assert_eq!(c.get("c|x").map(|e| e.category.clone()), Some("Dividend".to_string()));
}

#[test]
fn import_id_shape() {
    let id = make_import_id();
    assert!(id.starts_with("imp-"), "id={id}");
    assert_eq!(id.len(), 21, "unexpected length for {id}");
}

#[test]
fn import_id_formats_date_and_bytes() {
    assert_eq!(format_import_id(2026, 5, 7, &vec![0x0a, 0xbc, 0xff]), "imp-2026-05-07-0abcff");
}

#[test]
fn upload_path_uses_year_month_from_id() {
    let p = upload_path("imp-2026-05-26-abcdef", "file-meta.json");
    assert_eq!(p, "source/uploads/2026/05/imp-2026-05-26-abcdef/file-meta.json");
}

#[test]
fn upload_path_falls_back_for_malformed_ids() {
    assert_eq!(upload_path("weird", "f.json"), "source/uploads/0000/00/weird/f.json");
}

#[test]
fn parse_year_month_rejects_bad_id() {
    assert!(parse_year_month("not-an-import-id").is_none());
    assert!(parse_year_month("imp-2026-99-99-abcdef").is_some());
    assert_eq!(parse_year_month("imp-2026-05-26-abcdef"), Some(("2026", "05")));
}

#[test]
fn zero_str_is_two_decimal_zero() {
    assert_eq!(zero_str(), "0.00");
}

#[test]
fn totals_count_debits_and_credits() {
    let rows = vec![
        row(1, Some("A"), Some(1050), None),
        row(2, Some("B"), None, Some(20000)),
        row(3, Some("A"), Some(25), Some(5)),
    ];
    let t = import_totals(&rows);
    assert_eq!((t.debit_count, t.credit_count), (2, 2));
    assert_eq!((t.total_debit, t.total_credit), (1075, 20005));
}

#[test]
fn breakdown_orders_by_debit_then_credit_then_name() {
    let rows = vec![
        row(1, Some("Zeta"), Some(100), None),
        row(2, Some("Alpha"), Some(100), None),
        row(3, Some("Big"), Some(5000), None),
        row(4, None, None, Some(300)),
        row(5, Some("Credit"), Some(100), Some(1)),
    ];
    let b = build_category_breakdown(&rows);
    let names: Vec<&str> = b.iter().map(|x| x.category.as_str()).collect();
    assert_eq!(names, vec!["Big", "Credit", "Alpha", "Zeta", "Uncategorized"]);
    assert_eq!(b[0].total_debit, "50.00");
    assert_eq!(b[1].debit_count, 1);
    assert_eq!(b[1].credit_count, 1);
    assert_eq!(b[4].total_credit, "3.00");
    assert_eq!(b[4].debit_count, 0);
}

#[test]
fn file_meta_carries_totals_and_breakdown() {
    let rows = vec![row(1, Some("A"), Some(1050), None), row(2, Some("B"), None, Some(20000))];
    let m = build_file_meta(
        "imp-x".to_string(),
        "2026-05-01T00:00:00Z".to_string(),
        "s.pdf".to_string(),
        "abc".to_string(),
        "hdfc".to_string(),
        "1.0".to_string(),
        3,
        &rows,
    );
    assert_eq!(m.transaction_count, 2);
    assert_eq!(m.total_debit, "10.50");
    assert_eq!(m.total_credit, "200.00");
    assert_eq!(m.category_breakdown.len(), 2);
    assert_eq!(m.page_count, 3);
}

#[test]
fn rule_hits_categorize_and_misses_become_uncategorized() {
    let mut rows = vec![row(1, None, Some(1), None), row(2, Some("Old"), Some(1), None)];
    rows[1].category_rule_id = Some("keep".to_string());
    let hits = vec![
        Some(RuleHit { category: "Groceries".to_string(), rule_id: "curated:1".to_string() }),
        None,
    ];
    apply_category_hits(&mut rows, &hits);
    assert_eq!(rows[0].category.as_deref(), Some("Groceries"));
    assert_eq!(rows[0].category_rule_id.as_deref(), Some("curated:1"));
    assert_eq!(rows[1].category.as_deref(), Some("Uncategorized"));
    assert_eq!(rows[1].category_rule_id.as_deref(), Some("keep"));
}

fn pending_rows() -> (Vec<TxnRow>, Vec<String>) {
    let rows = vec![
        row(1, Some("Uncategorized"), Some(100), None),
        row(2, Some("Groceries"), Some(100), None),
        row(3, Some("Uncategorized"), None, Some(100)),
        row(4, Some("Uncategorized"), None, None),
        row(5, Some("Uncategorized"), Some(100), None),
        row(6, Some("Uncategorized"), Some(100), None),
    ];
    let names = vec!["Swiggy", "BigBasket", "INDIAN RAILWAY", "X", "", "swiggy "]
        .into_iter()
        .map(|s| s.to_string())
        .collect();
    (rows, names)
}

#[test]
fn pending_takes_only_uncategorized_rows_with_a_merchant_and_money() {
    let (rows, names) = pending_rows();
    let p = collect_pending(&rows, &names);
    let idx: Vec<usize> = p.iter().map(|x| x.row_idx).collect();
    assert_eq!(idx, vec![0, 2, 5]);
    assert_eq!(p[0].cache_key, "d|swiggy");
    assert_eq!(p[1].direction, Direction::Credit);
    assert_eq!(p[1].cache_key, "c|indian railway");
    assert_eq!(p[2].cache_key, "d|swiggy");
}

#[test]
fn cache_hits_fill_rows_and_cached_uncategorized_is_not_asked_again() {
    let (mut rows, names) = pending_rows();
    let p = collect_pending(&rows, &names);
    let mut cache = MerchantCacheDoc::new();
    cache.insert("d|swiggy".to_string(), entry("Food expenses", "gemini"));
    cache.insert("c|indian railway".to_string(), entry("Uncategorized", "gemini"));
    let still = apply_cache_hits(&mut rows, &p, &cache);
    assert!(still.is_empty());
    assert_eq!(rows[0].category.as_deref(), Some("Food expenses"));
    assert_eq!(rows[0].category_rule_id.as_deref(), Some("cache:gemini"));
    assert_eq!(rows[2].category.as_deref(), Some("Uncategorized"));
    assert_eq!(rows[5].category.as_deref(), Some("Food expenses"));
}

#[test]
fn gate_explains_why_the_model_is_not_asked() {
    assert_eq!(
        llm_gate(false, "k", 3).as_deref(),
        Some("LLM categorization disabled — 3 merchant(s) left uncategorized")
    );
    assert_eq!(
        llm_gate(true, "", 3).as_deref(),
        Some("LLM enabled but no API key configured — open Settings to add one")
    );
    assert!(llm_gate(true, "k", 3).is_none());
}

#[test]
fn batch_has_one_item_per_key_in_key_order() {
    let (rows, names) = pending_rows();
    let p = collect_pending(&rows, &names);
    let b = lookup_batch(&p);
    let keys: Vec<&str> = b.iter().map(|k| k.key.as_str()).collect();
    assert_eq!(keys, vec!["c|indian railway", "d|swiggy"]);
    assert_eq!(b[1].item.merchant, "Swiggy");
}

#[test]
fn llm_answers_fill_rows_and_the_cache() {
    let (mut rows, names) = pending_rows();
    let p = collect_pending(&rows, &names);
    let batch = lookup_batch(&p);
    let items: Vec<LookupItem> = batch.into_iter().map(|k| k.item).collect();
    let results = vec![
        LookupResult { merchant: "INDIAN RAILWAY".to_string(), category: "Dividend".to_string() },
        LookupResult { merchant: "Swiggy".to_string(), category: "Uncategorized".to_string() },
    ];
    let mut cache = MerchantCacheDoc::new();
    let n = apply_llm_results(&mut rows, &mut cache, &p, &items, &results, "2026-05-01T00:00:00Z");
    assert_eq!(n, 1);
    assert_eq!(rows[2].category.as_deref(), Some("Dividend"));
    assert_eq!(rows[2].category_rule_id.as_deref(), Some("llm:gemini"));
    assert_eq!(rows[0].category.as_deref(), Some("Uncategorized"));
    assert_eq!(cache.get("c|indian railway").map(|e| e.source.clone()), Some("gemini".to_string()));
    assert_eq!(cache.get("d|swiggy").map(|e| e.category.clone()), Some("Uncategorized".to_string()));
}

#[test]
fn manual_recategorization_trims_or_clears() {
    let mut rows = vec![row(7, Some("Old"), Some(1), None), row(8, Some("Old"), Some(1), None)];
    assert!(recategorize_row(&mut rows, 8, "  Rent ", "imp-1").is_ok());
    assert_eq!(rows[1].category.as_deref(), Some("Rent"));
    assert_eq!(rows[1].category_rule_id.as_deref(), Some("manual"));
    assert!(recategorize_row(&mut rows, 7, "   ", "imp-1").is_ok());
    assert!(rows[0].category.is_none());
    assert!(rows[0].category_rule_id.is_none());
    assert_eq!(recategorize_row(&mut rows, 9, "X", "imp-1"), Err("row 9 not found in imp-1".to_string()));
}

#[test]
fn saved_rule_category_defaults_to_the_row_category() {
    assert_eq!(rule_category("  ", "Rent"), "Rent");
    assert_eq!(rule_category("Housing", "Rent"), "Housing");
}

#[test]
fn imports_list_newest_first_and_duplicates_are_found() {
    let metas = vec![
        meta("imp-a", "2026-01-01T00:00:00Z", "s1"),
        meta("imp-b", "2026-03-01T00:00:00Z", "s2"),
        meta("imp-c", "2026-02-01T00:00:00Z", "s1"),
    ];
    let sorted = newest_first(metas);
    let ids: Vec<&str> = sorted.iter().map(|m| m.import_id.as_str()).collect();
    assert_eq!(ids, vec!["imp-b", "imp-c", "imp-a"]);
    assert_eq!(find_by_sha256(&sorted, "s1"), Some(1));
    assert_eq!(find_by_sha256(&sorted, "zz"), None);
    assert_eq!(
        duplicate_import_message(&sorted[1]),
        "This PDF was already imported on 2026-02-01T00:00:00Z as imp-c (12 txns). Delete that import first if you want to re-upload."
    );
}

#[test]
fn pending_struct_is_plain_data() {
    let p = Pending {
        row_idx: 0,
        merchant: "m".to_string(),
        direction: Direction::Debit,
        cache_key: cache_key("m", Direction::Debit),
    };
    assert_eq!(p.cache_key, "d|m");
}

#[test]
fn breakdown_counts_add_up_to_the_import_totals() {
    let rows = vec![
        row(1, Some("A"), Some(1050), None),
        row(2, Some("B"), None, Some(20000)),
        row(3, Some("A"), Some(25), Some(5)),
        row(4, None, Some(1), None),
    ];
    let t = import_totals(&rows);
    let b = build_category_breakdown(&rows);
    assert_eq!(b.iter().map(|x| x.debit_count).sum::<u32>(), t.debit_count);
    assert_eq!(b.iter().map(|x| x.credit_count).sum::<u32>(), t.credit_count);
    let cents = |s: &str| s.replace('.', "").parse::<i128>().unwrap();
    assert_eq!(b.iter().map(|x| cents(&x.total_debit)).sum::<i128>(), t.total_debit);
    assert_eq!(b.iter().map(|x| cents(&x.total_credit)).sum::<i128>(), t.total_credit);
}

#[test]
fn now_is_an_rfc3339_timestamp() {
    let t = finance_manager::stamps::now_rfc3339();
    let b: Vec<char> = t.chars().collect();
    assert!(b.len() >= 20, "{t}");
    for i in [0, 1, 2, 3, 5, 6, 8, 9, 11, 12, 14, 15, 17, 18] {
        assert!(b[i].is_ascii_digit(), "{t}");
    }
    assert_eq!((b[4], b[7], b[10], b[13], b[16]), ('-', '-', 'T', ':', ':'));
}

#[test]
fn newest_first_keeps_listing_order_for_equal_upload_times() {
    let metas = vec![
        meta("a", "2026-05-01T10:00:00Z", "1"),
        meta("b", "2026-05-02T10:00:00Z", "2"),
        meta("c", "2026-05-01T10:00:00Z", "3"),
        meta("d", "2026-05-02T10:00:00Z", "4"),
    ];
    let ids: Vec<String> = newest_first(metas).into_iter().map(|m| m.import_id).collect();
    assert_eq!(ids, vec!["b", "d", "a", "c"]);
}
