use finance_manager::llm::{
    after_rate_limit, allowed_category, build_prompt, friendly_429_message, http_error_message,
    is_od5_safe, is_per_day_quota, merge_results, plan_lookup, request_url,
    results_from_structured, sanitize_category, urlencode, Direction, LookupItem, LookupResult,
    RateLimitStep, StructuredItem, CATEGORY_COUNT,
};

fn item(merchant: &str, direction: Direction) -> LookupItem {
    LookupItem { merchant: merchant.to_string(), direction }
}

fn answer(index: u32, category: &str) -> StructuredItem {
    StructuredItem { index, category: category.to_string() }
}

#[test]
fn prompt_includes_all_categories_and_items() {
    let items = vec![
        item("SWIGGY INSTAMART", Direction::Debit),
        item("INDIAN RAILWAY", Direction::Credit),
    ];
    let p = build_prompt(&items);
    assert!(p.contains("Groceries"));
    assert!(p.contains("Dividend"));
    assert!(p.contains("SWIGGY INSTAMART"));
    assert!(p.contains("INDIAN RAILWAY"));
    assert!(p.contains("(outgoing)"));
    assert!(p.contains("(incoming)"));
}

#[test]
fn prompt_does_not_leak_amounts_or_accounts() {
    let items = vec![item("MERCHANT", Direction::Debit)];
    let p = build_prompt(&items);
    assert!(!p.contains("12345.67"));
    assert!(!p.contains("XXXXXX"));
    assert!(!p.contains("/04/26"));
}

#[test]
fn prompt_numbers_items_and_lists_categories_in_order() {
    let items = vec![item("A", Direction::Debit), item("B", Direction::Credit)];
    let p = build_prompt(&items);
    assert!(p.starts_with(
        "You categorize Indian bank-statement merchants into ONE category from this exact list:\n- Credit card bill\n- Electricity bill\n"
    ));
    assert!(p.ends_with("Categorize:\n1. A (outgoing)\n2. B (incoming)\n"));
    for i in 0..CATEGORY_COUNT {
        assert!(p.contains(&format!("- {}\n", allowed_category(i))));
    }
}

#[test]
fn parses_well_formed_response() {
    let items = vec![
        item("SWIGGY INSTAMART", Direction::Debit),
        item("INDIAN RAILWAY", Direction::Credit),
    ];
    let r = results_from_structured(&items, &vec![answer(1, "Groceries"), answer(2, "Dividend")]);
    assert_eq!(r.len(), 2);
    assert_eq!(r[0].category, "Groceries");
    assert_eq!(r[1].category, "Dividend");
    assert_eq!(r[0].merchant, "SWIGGY INSTAMART");
}

#[test]
fn parses_partial_response_filling_gaps_with_uncategorized() {
    let items = vec![
        item("A", Direction::Debit),
        item("B", Direction::Debit),
        item("C", Direction::Debit),
    ];
    let r = results_from_structured(&items, &vec![answer(2, "Groceries")]);
    assert_eq!(r.len(), 3);
    assert_eq!(r[0].category, "Uncategorized");
    assert_eq!(r[1].category, "Groceries");
    assert_eq!(r[2].category, "Uncategorized");
}

#[test]
fn rejects_off_list_category() {
    let items = vec![item("X", Direction::Debit)];
    let r = results_from_structured(&items, &vec![answer(1, "Cryptocurrency")]);
    assert_eq!(r[0].category, "Uncategorized");
}

#[test]
fn later_valid_answer_wins_and_bad_numbers_are_ignored() {
    let items = vec![item("X", Direction::Debit), item("Y", Direction::Debit)];
    let answers = vec![
        answer(1, "Groceries"),
        answer(1, " shopping "),
        answer(1, "Nonsense"),
        answer(0, "Salary"),
        answer(7, "Salary"),
    ];
    let r = results_from_structured(&items, &answers);
    assert_eq!(r[0].category, "Shopping");
    assert_eq!(r[1].category, "Uncategorized");
}

#[test]
fn sanitize_category_normalizes_case_and_spacing() {
    assert_eq!(sanitize_category("  groceries "), Some("Groceries".to_string()));
    assert_eq!(sanitize_category("sip"), Some("SIP".to_string()));
    assert_eq!(sanitize_category("Crypto"), None);
    assert_eq!(sanitize_category(""), None);
}

#[test]
fn od5_guard_rejects_long_digit_runs() {
    assert!(!is_od5_safe("SOMEMERCHANT 1234567"));
    assert!(!is_od5_safe("UPI-REF 09999999980421000325273"));
}

#[test]
fn od5_guard_rejects_masked_or_handle_artifacts() {
    assert!(!is_od5_safe("XXXX1234 SWIPE"));
    assert!(!is_od5_safe("john@oksbi"));
    assert!(!is_od5_safe("INDIA XXXX"));
}

#[test]
fn od5_guard_rejects_embedded_amounts() {
    assert!(!is_od5_safe("MERCHANT 1582.00"));
}

#[test]
fn od5_guard_accepts_clean_merchants() {
    assert!(is_od5_safe("SWIGGY INSTAMART"));
    assert!(is_od5_safe("Amazon Pay"));
    assert!(is_od5_safe("MAHESH SHETTY G M"));
    assert!(is_od5_safe("FORTPOINTMUMBAIMUMBAI"));
}

#[test]
fn od5_guard_rejects_empty() {
    assert!(!is_od5_safe(""));
    assert!(!is_od5_safe("   "));
}

#[test]
fn per_day_quota_detected_from_quota_id() {
    let detail = r#"{"error":{"details":[{"quotaId":"GenerateContentRequestsPerDayPerProjectPerModel"}]}}"#;
    assert!(is_per_day_quota(detail));
    assert!(friendly_429_message(detail).contains("daily quota"));
}

#[test]
fn per_minute_quota_friendly_message() {
    let detail = r#"{"error":{"details":[{"quotaId":"GenerateContentRequestsPerMinutePerProjectPerModel"}]}}"#;
    assert!(!is_per_day_quota(detail));
    assert!(friendly_429_message(detail).contains("per-minute"));
}

#[test]
fn rate_limit_retries_once_unless_daily() {
    assert!(matches!(after_rate_limit(0, "PerMinute"), RateLimitStep::RetryAfterPause));
    match after_rate_limit(1, "PerMinute") {
        RateLimitStep::GiveUp(m) => assert!(m.contains("per-minute")),
        RateLimitStep::RetryAfterPause => panic!("second 429 must give up"),
    }
    match after_rate_limit(0, "quota per day reached") {
        RateLimitStep::GiveUp(m) => assert!(m.contains("daily quota")),
        RateLimitStep::RetryAfterPause => panic!("daily quota must not be retried"),
    }
}

#[test]
fn http_error_keeps_first_300_characters() {
    let long = "é".repeat(400);
    let m = http_error_message(503, &long);
    assert_eq!(m, format!("Gemini returned HTTP 503: {}", "é".repeat(300)));
    assert_eq!(http_error_message(400, "bad"), "Gemini returned HTTP 400: bad");
}

#[test]
fn urlencode_handles_reserved_chars() {
    assert_eq!(urlencode("abc"), "abc");
    assert_eq!(urlencode("AIzaSyA_BC"), "AIzaSyA_BC");
    assert_eq!(urlencode("a b"), "a%20b");
    assert_eq!(urlencode("a/b"), "a%2Fb");
}

#[test]
fn urlencode_encodes_each_utf8_byte() {
    assert_eq!(urlencode("é"), "%C3%A9");
    assert_eq!(urlencode("₹"), "%E2%82%B9");
    assert_eq!(urlencode("😀"), "%F0%9F%98%80");
    assert_eq!(urlencode("-_.~"), "-_.~");
}

#[test]
fn request_url_encodes_the_model() {
    assert_eq!(
        request_url("gemini-2.0-flash"),
        "https://generativelanguage.googleapis.com/v1beta/models/gemini-2.0-flash:generateContent"
    );
    assert_eq!(
        request_url("a b"),
        "https://generativelanguage.googleapis.com/v1beta/models/a%20b:generateContent"
    );
}

#[test]
fn plan_needs_a_key_and_keeps_only_safe_items() {
    let items = vec![
        item("SWIGGY", Direction::Debit),
        item("john@oksbi", Direction::Credit),
        item("AMAZON", Direction::Credit),
    ];
    match plan_lookup("", &items) {
        Err(e) => assert_eq!(e, "Gemini API key not configured"),
        Ok(_) => panic!("a missing key must fail"),
    }
    let plan = plan_lookup("key", &items).unwrap_or_else(|e| panic!("{e}"));
    assert_eq!(plan.safe_mask, vec![true, false, true]);
    assert_eq!(plan.safe_items.len(), 2);
    assert_eq!(plan.safe_items[0].merchant, "SWIGGY");
    assert_eq!(plan.safe_items[1].merchant, "AMAZON");
    assert_eq!(plan.safe_items[1].direction, Direction::Credit);
}

#[test]
fn merge_puts_answers_back_in_place() {
    let items = vec![item("A", Direction::Debit), item("B@x", Direction::Debit), item("C", Direction::Debit)];
    let mask = vec![true, false, true];
    let safe = vec![LookupResult { merchant: "A".to_string(), category: "Groceries".to_string() }];
    let r = merge_results(&items, &mask, safe);
    assert_eq!(r.len(), 3);
    assert_eq!((r[0].merchant.as_str(), r[0].category.as_str()), ("A", "Groceries"));
    assert_eq!((r[1].merchant.as_str(), r[1].category.as_str()), ("B@x", "Uncategorized"));
    assert_eq!((r[2].merchant.as_str(), r[2].category.as_str()), ("C", "Uncategorized"));
}

#[test]
fn direction_words() {
    assert_eq!(Direction::Debit.as_str(), "outgoing");
    assert_eq!(Direction::Credit.as_str(), "incoming");
}

#[test]
fn sanitize_gives_back_what_it_returned() {
    for raw in [" groceries ", "FUEL EXPENSES", "Credit card bill", "Uncategorized"] {
        let first = sanitize_category(raw).expect("a listed category");
        assert_eq!(sanitize_category(&first), Some(first.clone()));
    }
    assert_eq!(sanitize_category(" groceries "), Some("Groceries".to_string()));
    assert_eq!(sanitize_category("Cryptocurrency"), None);
}

fn percent_decode(s: &str) -> Vec<u8> {
    let b = s.as_bytes();
    let mut out = Vec::new();
    let mut i = 0;
    while i < b.len() {
        if b[i] == b'%' {
            let hex = std::str::from_utf8(&b[i + 1..i + 3]).unwrap();
            out.push(u8::from_str_radix(hex, 16).unwrap());
            i += 3;
        } else {
            out.push(b[i]);
            i += 1;
        }
    }
    out
}

#[test]
fn urlencode_decodes_back_to_the_utf8_bytes() {
    for s in ["a b&c=d", "₹100 / café", "plain-text_1.2~x", ""] {
        assert_eq!(percent_decode(&urlencode(s)), s.as_bytes().to_vec());
    }
    assert_eq!(urlencode("Keep-these_1.2~"), "Keep-these_1.2~");
    assert_ne!(urlencode("not kept"), "not kept");
}
