//! Categorization by a language model: what is sent (merchant names and the
//! direction of the money, nothing else), how the reply is read back, and the
//! decisions around the HTTP exchange.

use crate::text::{
    contains_seq, eq_ignore_ascii, hex_byte_upper_text, is_space, upper_hex_char, nat_text, occurs_at, push_char,
    push_hex_byte, push_nat, str_contains, str_eq_ignore_ascii_case, string_of, trim, trim_seq, lemma_trim_unchanged,
};
use vstd::prelude::*;

verus! {

/// Which way the money moved.
#[derive(Clone, Copy, Debug, PartialEq, Eq, Structural)]
pub enum Direction {
    Debit,
    Credit,
}

impl Direction {
    /// How the direction is worded in the prompt.
    pub open spec fn text(self) -> Seq<char> {
        match self {
            Direction::Debit => "outgoing"@,
            Direction::Credit => "incoming"@,
        }
    }

    pub fn as_str(&self) -> (r: &'static str)
        ensures
            r@ == self.text(),
    {
        match self {
            Direction::Debit => "outgoing",
            Direction::Credit => "incoming",
        }
    }
}

/// One row's worth of input: the merchant string and the direction.
#[derive(Clone, Debug)]
pub struct LookupItem {
    pub merchant: String,
    pub direction: Direction,
}

/// The category chosen for one merchant.
#[derive(Clone, Debug)]
pub struct LookupResult {
    pub merchant: String,
    pub category: String,
}

// ---------------------------------------------------------------------------
// The category list
// ---------------------------------------------------------------------------

/// Number of categories the model may choose from.
pub const CATEGORY_COUNT: usize = 30;

/// The categories the model may choose from, in the order the prompt lists
/// them.
#[verifier::opaque]
pub open spec fn allowed_categories() -> Seq<Seq<char>> {
    seq![
        "Credit card bill"@,
        "Electricity bill"@,
        "Gas bill"@,
        "Mobile/Internet bill"@,
        "Laundary bill"@,
        "Home Loan EMI"@,
        "Car loan EMI"@,
        "CC EMI"@,
        "Food expenses"@,
        "Hotel/Vacation expenses"@,
        "Fuel expenses"@,
        "Vehicle repairs/maintenance"@,
        "Medical expenses"@,
        "Groceries"@,
        "Transportation"@,
        "Personal care"@,
        "Shopping"@,
        "Entertainment"@,
        "Gifts"@,
        "Salary"@,
        "Side Hustle"@,
        "Interest"@,
        "Dividend"@,
        "Refund"@,
        "SIP"@,
        "Stock purchase"@,
        "FD"@,
        "Bank Transfer"@,
        "EMI Conversion"@,
        "Uncategorized"@,
    ]
}

pub fn allowed_category(i: usize) -> (r: &'static str)
    requires
        i < CATEGORY_COUNT,
    ensures
        r@ == allowed_categories()[i as int],
{
    reveal(allowed_categories);
    match i {
        0 => "Credit card bill",
        1 => "Electricity bill",
        2 => "Gas bill",
        3 => "Mobile/Internet bill",
        4 => "Laundary bill",
        5 => "Home Loan EMI",
        6 => "Car loan EMI",
        7 => "CC EMI",
        8 => "Food expenses",
        9 => "Hotel/Vacation expenses",
        10 => "Fuel expenses",
        11 => "Vehicle repairs/maintenance",
        12 => "Medical expenses",
        13 => "Groceries",
        14 => "Transportation",
        15 => "Personal care",
        16 => "Shopping",
        17 => "Entertainment",
        18 => "Gifts",
        19 => "Salary",
        20 => "Side Hustle",
        21 => "Interest",
        22 => "Dividend",
        23 => "Refund",
        24 => "SIP",
        25 => "Stock purchase",
        26 => "FD",
        27 => "Bank Transfer",
        28 => "EMI Conversion",
        _ => "Uncategorized",
    }
}

/// Position of the first listed category equal to `t` up to ASCII case,
/// searching from position `k`.
pub open spec fn category_match_from(t: Seq<char>, k: int) -> Option<int>
    decreases CATEGORY_COUNT - k,
{
    if k < 0 || k >= CATEGORY_COUNT {
        None
    } else if eq_ignore_ascii(t, allowed_categories()[k]) {
        Some(k)
    } else {
        category_match_from(t, k + 1)
    }
}

/// Position of the listed category a raw model answer names: the answer is
/// trimmed and compared up to ASCII case.
pub open spec fn sanitized_index(raw: Seq<char>) -> Option<int> {
    category_match_from(trim_seq(raw), 0)
}

/// The listed category a raw model answer names, spelled as listed.
pub open spec fn sanitized(raw: Seq<char>) -> Option<Seq<char>> {
    match sanitized_index(raw) {
        Some(k) => Some(allowed_categories()[k]),
        None => None,
    }
}

proof fn lemma_match_from_range(t: Seq<char>, k: int)
    ensures
        match category_match_from(t, k) {
            Some(j) => k <= j < CATEGORY_COUNT,
            None => true,
        },
    decreases CATEGORY_COUNT - k,
{
    if 0 <= k < CATEGORY_COUNT && !eq_ignore_ascii(t, allowed_categories()[k]) {
        lemma_match_from_range(t, k + 1);
    }
}

pub fn sanitize_index(raw: &str) -> (r: Option<usize>)
    ensures
        match r {
            Some(k) => sanitized_index(raw@) == Some(k as int) && k < CATEGORY_COUNT,
            None => sanitized_index(raw@).is_none(),
        },
{
    let t = trim(raw);
    let mut k: usize = 0;
    while k < CATEGORY_COUNT
        invariant
            0 <= k <= CATEGORY_COUNT,
            t@ == trim_seq(raw@),
            category_match_from(t@, 0) == category_match_from(t@, k as int),
        decreases CATEGORY_COUNT - k,
    {
        if str_eq_ignore_ascii_case(t, allowed_category(k)) {
            return Some(k);
        }
        k = k + 1;
    }
    None
}

/// The listed category a model answer names, spelled as listed; `None` when
/// the answer is not on the list.
pub fn sanitize_category(raw: &str) -> (r: Option<String>)
    ensures
        match r {
            Some(s) => sanitized(raw@) == Some(s@),
            None => sanitized(raw@).is_none(),
        },
{
    match sanitize_index(raw) {
        Some(k) => Some(string_of(allowed_category(k))),
        None => None,
    }
}

// ---------------------------------------------------------------------------
// What may leave the device
// ---------------------------------------------------------------------------

/// Name for what `regex::Regex::new(pattern)` followed by `is_match(text)`
/// gives: `None` when the pattern does not compile, else whether the
/// pattern matches somewhere in the text.
pub uninterp spec fn regex_search(pattern: Seq<char>, text: Seq<char>) -> Option<bool>;

/// `regex::Regex::new(pattern)` and, if it compiles, `Regex::is_match(text)`.
/// The result is named (`regex_search`), not described: it is the regex
/// crate's matching, which depends on the pattern and the text alone.
#[verifier::external_body]
fn pattern_search(pattern: &str, text: &str) -> (r: Option<bool>)
    ensures
        r == regex_search(pattern@, text@),
{
    match regex::Regex::new(pattern) {
        Ok(re) => Some(re.is_match(text)),
        Err(_) => None,
    }
}

/// What must not leave the device in a merchant string: a run of six or more
/// digits (reference ids, account and phone numbers), an `@` (a UPI handle),
/// four or more `X` (masked digits), or a decimal amount.
pub open spec fn leak_pattern() -> Seq<char> {
    "\\d{6,}|@|X{4,}|\\d+\\.\\d{2}"@
}

/// A merchant string may be sent when, trimmed, it is not empty and the leak
/// pattern compiles and finds nothing in it.
pub open spec fn od5_safe(merchant: Seq<char>) -> bool {
    od5_verdict(trim_seq(merchant), regex_search(leak_pattern(), trim_seq(merchant)))
}

/// The verdict on a trimmed merchant string, given what the leak pattern's
/// search gave on it (`None`: the pattern did not compile).
pub open spec fn od5_verdict(trimmed: Seq<char>, search: Option<bool>) -> bool {
    trimmed.len() > 0 && search == Some(false)
}

/// Decides from the trimmed merchant string and the leak pattern's search
/// result whether the string may be sent.
pub fn od5_decide(trimmed: &str, search: Option<bool>) -> (r: bool)
    ensures
        r == od5_verdict(trimmed@, search),
{
    if trimmed.unicode_len() == 0 {
        return false;
    }
    match search {
        Some(found) => !found,
        None => false,
    }
}

/// Last check before a merchant string is sent: `false` for strings that
/// still look like they carry account numbers, UPI handles, masked digits or
/// amounts, and for blank ones.
pub fn is_od5_safe(merchant: &str) -> (r: bool)
    ensures
        r == od5_safe(merchant@),
{
    let trimmed = trim(merchant);
    if trimmed.unicode_len() == 0 {
        return false;
    }
    let search = pattern_search("\\d{6,}|@|X{4,}|\\d+\\.\\d{2}", trimmed);
    od5_decide(trimmed, search)
}

// ---------------------------------------------------------------------------
// Rate limits
// ---------------------------------------------------------------------------

/// The service reports a daily (not per-minute) quota in its error detail.
pub open spec fn per_day_quota(detail: Seq<char>) -> bool {
    contains_seq(detail, "PerDay"@) || contains_seq(detail, "per day"@)
}

pub fn is_per_day_quota(detail: &str) -> (r: bool)
    ensures
        r == per_day_quota(detail@),
{
    str_contains(detail, "PerDay") || str_contains(detail, "per day")
}

pub open spec fn daily_quota_message() -> Seq<char> {
    "Gemini daily quota exhausted. Free tier allows ~1,500 requests/day on gemini-2.0-flash. Switch to a different model in settings, or try again tomorrow."@
}

pub open spec fn minute_quota_message() -> Seq<char> {
    "Gemini per-minute rate limit hit and retry didn't clear it. Try a model with a higher RPM (e.g. gemini-2.0-flash-lite) in settings, or wait a minute and re-upload."@
}

/// What the user is told when the rate limit stays hit.
pub open spec fn quota_message(detail: Seq<char>) -> Seq<char> {
    if per_day_quota(detail) {
        daily_quota_message()
    } else {
        minute_quota_message()
    }
}

pub fn friendly_429_message(detail: &str) -> (r: String)
    ensures
        r@ == quota_message(detail@),
{
    if is_per_day_quota(detail) {
        string_of("Gemini daily quota exhausted. Free tier allows ~1,500 requests/day on gemini-2.0-flash. Switch to a different model in settings, or try again tomorrow.")
    } else {
        string_of("Gemini per-minute rate limit hit and retry didn't clear it. Try a model with a higher RPM (e.g. gemini-2.0-flash-lite) in settings, or wait a minute and re-upload.")
    }
}

/// What to do after an HTTP 429.
pub enum RateLimitStep {
    /// Pause and send the same request once more.
    RetryAfterPause,
    /// Stop, with this message.
    GiveUp(String),
}

/// After a 429 on attempt `attempt` (0 for the first): one retry, unless the
/// quota is a daily one; after that, a friendly error.
pub fn after_rate_limit(attempt: u32, detail: &str) -> (r: RateLimitStep)
    ensures
        match r {
            RateLimitStep::RetryAfterPause => attempt == 0 && !per_day_quota(detail@),
            RateLimitStep::GiveUp(m) => !(attempt == 0 && !per_day_quota(detail@)) && m@
                == quota_message(detail@),
        },
{
    if attempt == 0 && !is_per_day_quota(detail) {
        RateLimitStep::RetryAfterPause
    } else {
        RateLimitStep::GiveUp(friendly_429_message(detail))
    }
}

/// Error for any other HTTP status: the code and the first 300 characters of
/// the reply.
pub open spec fn http_error_text(code: u16, detail: Seq<char>) -> Seq<char> {
    "Gemini returned HTTP "@ + nat_text(code as nat) + ": "@ + detail.take(
        if detail.len() < 300 {
            detail.len() as int
        } else {
            300
        },
    )
}

pub fn http_error_message(code: u16, detail: &str) -> (r: String)
    ensures
        r@ == http_error_text(code, detail@),
{
    let n = detail.unicode_len();
    let k = if n < 300 {
        n
    } else {
        300
    };
    let mut out = string_of("Gemini returned HTTP ");
    push_nat(&mut out, code as u128);
    out.append(": ");
    out.append(detail.substring_char(0, k));
    out
}

// ---------------------------------------------------------------------------
// The prompt
// ---------------------------------------------------------------------------

pub open spec fn prompt_intro() -> Seq<char> {
    "You categorize Indian bank-statement merchants into ONE category from this exact list:\n"@
}

pub open spec fn prompt_guidance() -> Seq<char> {
    "Use the direction (incoming = money in, outgoing = money out) to disambiguate. Examples for the Indian retail context: 'INDIAN RAILWAY' incoming via NACH/ACH is 'Dividend' (IRFC shares); outgoing to 'IRCTC' is 'Transportation'. Swiggy / Zomato / restaurants → 'Food expenses'. Blinkit / Zepto / BigBasket → 'Groceries'. Amazon / Flipkart / Myntra → 'Shopping'. Uber / Rapido / metro / bus → 'Transportation'. BookMyShow / Netflix / cinema → 'Entertainment'. CRED / Payment on CRED → 'Credit card bill'. Loan EMIs: choose 'Home Loan EMI' / 'Car loan EMI' / 'CC EMI' based on what the merchant string suggests; default to 'CC EMI' for credit-card statement rows. Side gigs (freelance, consulting, content) → 'Side Hustle'. Credit-card EMI bookkeeping rows (e.g. 'AGGREGATOR-EMI-OFFUSCREDIT', 'EMI BOOKING', or any 'EMI <merchant>' row that represents the loan principal being booked rather than an actual monthly installment) should be 'EMI Conversion' — these net to zero across the loan disbursement. If the merchant is a person's name with no business context, lean toward 'Bank Transfer' (own-account) or the most likely expense category. If you cannot confidently pick, return 'Uncategorized'.\n\n"@
}

pub open spec fn prompt_schema_note() -> Seq<char> {
    "Return JSON matching the response schema. Each result's `index` must match the input item's number (1-based).\n\n"@
}

/// The prompt line listing category `k`.
pub open spec fn line_of(k: int) -> Seq<char> {
    "- "@ + allowed_categories()[k] + "\n"@
}

/// `- {category}` lines for the first `k` listed categories.
pub open spec fn category_lines(k: int) -> Seq<char>
    decreases k,
{
    if k <= 0 {
        Seq::empty()
    } else {
        category_lines(k - 1) + line_of(k - 1)
    }
}

/// The numbered line for the item at position `i`.
pub open spec fn item_line(i: int, item: LookupItem) -> Seq<char> {
    nat_text((i + 1) as nat) + ". "@ + item.merchant@ + " ("@ + item.direction.text() + ")\n"@
}

/// The numbered lines of all the items, in order.
pub open spec fn item_lines(items: Seq<LookupItem>) -> Seq<char>
    decreases items.len(),
{
    if items.len() == 0 {
        Seq::empty()
    } else {
        item_lines(items.drop_last()) + item_line(items.len() - 1, items.last())
    }
}

/// The whole prompt: instructions, the category list, the guidance, the
/// output format, and one line per item with its merchant and direction.
pub open spec fn prompt_text(items: Seq<LookupItem>) -> Seq<char> {
    prompt_intro() + category_lines(CATEGORY_COUNT as int) + "\n"@ + prompt_guidance()
        + prompt_schema_note() + "Categorize:\n"@ + item_lines(items)
}

pub fn build_prompt(items: &Vec<LookupItem>) -> (r: String)
    requires
        items@.len() < u128::MAX,
    ensures
        r@ == prompt_text(items@),
{
    let mut out = string_of("You categorize Indian bank-statement merchants into ONE category from this exact list:\n");
    let mut k: usize = 0;
    while k < CATEGORY_COUNT
        invariant
            0 <= k <= CATEGORY_COUNT,
            out@ == prompt_intro() + category_lines(k as int),
        decreases CATEGORY_COUNT - k,
    {
        let ghost before = out@;
        out.append("- ");
        out.append(allowed_category(k));
        out.append("\n");
        assert(out@ =~= before + line_of(k as int));
        k = k + 1;
    }
    out.append("\n");
    out.append("Use the direction (incoming = money in, outgoing = money out) to disambiguate. Examples for the Indian retail context: 'INDIAN RAILWAY' incoming via NACH/ACH is 'Dividend' (IRFC shares); outgoing to 'IRCTC' is 'Transportation'. Swiggy / Zomato / restaurants → 'Food expenses'. Blinkit / Zepto / BigBasket → 'Groceries'. Amazon / Flipkart / Myntra → 'Shopping'. Uber / Rapido / metro / bus → 'Transportation'. BookMyShow / Netflix / cinema → 'Entertainment'. CRED / Payment on CRED → 'Credit card bill'. Loan EMIs: choose 'Home Loan EMI' / 'Car loan EMI' / 'CC EMI' based on what the merchant string suggests; default to 'CC EMI' for credit-card statement rows. Side gigs (freelance, consulting, content) → 'Side Hustle'. Credit-card EMI bookkeeping rows (e.g. 'AGGREGATOR-EMI-OFFUSCREDIT', 'EMI BOOKING', or any 'EMI <merchant>' row that represents the loan principal being booked rather than an actual monthly installment) should be 'EMI Conversion' — these net to zero across the loan disbursement. If the merchant is a person's name with no business context, lean toward 'Bank Transfer' (own-account) or the most likely expense category. If you cannot confidently pick, return 'Uncategorized'.\n\n");
    out.append("Return JSON matching the response schema. Each result's `index` must match the input item's number (1-based).\n\n");
    out.append("Categorize:\n");
    let ghost head = out@;
    let n = items.len();
    let mut i: usize = 0;
    while i < n
        invariant
            0 <= i <= n,
            n == items@.len(),
            n < u128::MAX,
            out@ == head + item_lines(items@.subrange(0, i as int)),
        decreases n - i,
    {
        let item = &items[i];
        push_nat(&mut out, (i + 1) as u128);
        out.append(". ");
        out.append(item.merchant.as_str());
        out.append(" (");
        out.append(item.direction.as_str());
        out.append(")\n");
        proof {
            let s = items@.subrange(0, i + 1);
            assert(s.drop_last() =~= items@.subrange(0, i as int));
            assert(s.last() == items@[i as int]);
        }
        i = i + 1;
    }
    proof {
        assert(items@.subrange(0, n as int) =~= items@);
    }
    out
}

proof fn lemma_contains_middle(a: Seq<char>, n: Seq<char>, b: Seq<char>)
    ensures
        contains_seq(a + n + b, n),
{
    assert((a + n + b).subrange(a.len() as int, (a.len() + n.len()) as int) =~= n);
    assert(occurs_at(a + n + b, n, a.len() as int));
}

proof fn lemma_contains_left(x: Seq<char>, y: Seq<char>, n: Seq<char>)
    requires
        contains_seq(x, n),
    ensures
        contains_seq(x + y, n),
        contains_seq(y + x, n),
{
    let i = choose|i: int| occurs_at(x, n, i);
    assert((x + y).subrange(i, i + n.len()) =~= x.subrange(i, i + n.len()));
    assert(occurs_at(x + y, n, i));
    assert((y + x).subrange(y.len() + i, y.len() + i + n.len()) =~= x.subrange(i, i + n.len()));
    assert(occurs_at(y + x, n, y.len() + i));
}

proof fn lemma_category_lines_list(k: int, j: int)
    requires
        0 <= j < k <= CATEGORY_COUNT,
    ensures
        contains_seq(category_lines(k), line_of(j)),
    decreases k,
{
    if j == k - 1 {
        lemma_contains_middle(category_lines(k - 1), line_of(j), Seq::empty());
        assert(category_lines(k - 1) + line_of(j) + Seq::empty() =~= category_lines(k - 1)
            + line_of(j));
    } else {
        lemma_category_lines_list(k - 1, j);
        lemma_contains_left(category_lines(k - 1), line_of(k - 1), line_of(j));
    }
}

proof fn lemma_item_lines_list(items: Seq<LookupItem>, i: int)
    requires
        0 <= i < items.len(),
    ensures
        contains_seq(item_lines(items), item_line(i, items[i])),
    decreases items.len(),
{
    let n = items.len() as int;
    if i == n - 1 {
        lemma_contains_middle(item_lines(items.drop_last()), item_line(i, items[i]), Seq::empty());
        assert(item_lines(items.drop_last()) + item_line(i, items[i]) + Seq::empty()
            =~= item_lines(items));
    } else {
        lemma_item_lines_list(items.drop_last(), i);
        assert(items.drop_last()[i] == items[i]);
        lemma_contains_left(
            item_lines(items.drop_last()),
            item_line(n - 1, items.last()),
            item_line(i, items[i]),
        );
    }
}

/// Law: the prompt lists every allowed category, each on a `- ` line.
pub proof fn law_prompt_lists_every_category(items: Seq<LookupItem>, k: int)
    requires
        0 <= k < CATEGORY_COUNT,
    ensures
        contains_seq(prompt_text(items), line_of(k)),
{
    let line = line_of(k);
    lemma_category_lines_list(CATEGORY_COUNT as int, k);
    lemma_contains_left(category_lines(CATEGORY_COUNT as int), prompt_intro(), line);
    let rest = "\n"@ + prompt_guidance() + prompt_schema_note() + "Categorize:\n"@ + item_lines(
        items,
    );
    lemma_contains_left(prompt_intro() + category_lines(CATEGORY_COUNT as int), rest, line);
    assert(prompt_intro() + category_lines(CATEGORY_COUNT as int) + rest =~= prompt_text(items));
}

/// Law: every item appears in the prompt as its own numbered line carrying
/// its merchant string and its direction.
pub proof fn law_prompt_lists_every_item(items: Seq<LookupItem>, i: int)
    requires
        0 <= i < items.len(),
    ensures
        contains_seq(prompt_text(items), item_line(i, items[i])),
{
    lemma_item_lines_list(items, i);
    let head = prompt_intro() + category_lines(CATEGORY_COUNT as int) + "\n"@ + prompt_guidance()
        + prompt_schema_note() + "Categorize:\n"@;
    lemma_contains_left(item_lines(items), head, item_line(i, items[i]));
    assert(head + item_lines(items) =~= prompt_text(items));
}

// ---------------------------------------------------------------------------
// URL component encoding
// ---------------------------------------------------------------------------

/// Characters a URL component carries as they are: ASCII letters, digits and
/// `-_.~`.
pub open spec fn unreserved(c: char) -> bool {
    let u = c as u32;
    (0x41 <= u && u <= 0x5A) || (0x61 <= u && u <= 0x7A) || (0x30 <= u && u <= 0x39) || u == 0x2D
        || u == 0x5F || u == 0x2E || u == 0x7E
}

/// The UTF-8 encoding of a character.
pub open spec fn utf8_of(c: char) -> Seq<u8> {
    let u = c as u32 as int;
    if u < 0x80 {
        seq![u as u8]
    } else if u < 0x800 {
        seq![(0xC0 + u / 64) as u8, (0x80 + u % 64) as u8]
    } else if u < 0x10000 {
        seq![(0xE0 + u / 4096) as u8, (0x80 + (u / 64) % 64) as u8, (0x80 + u % 64) as u8]
    } else {
        seq![
            (0xF0 + u / 262144) as u8,
            (0x80 + (u / 4096) % 64) as u8,
            (0x80 + (u / 64) % 64) as u8,
            (0x80 + u % 64) as u8,
        ]
    }
}

/// `%XX` for each byte, upper-case hex.
pub open spec fn percent_text(bytes: Seq<u8>) -> Seq<char>
    decreases bytes.len(),
{
    if bytes.len() == 0 {
        Seq::empty()
    } else {
        percent_text(bytes.drop_last()) + seq!['%'] + hex_byte_upper_text(bytes.last())
    }
}

pub open spec fn encoded_char(c: char) -> Seq<char> {
    if unreserved(c) {
        seq![c]
    } else {
        percent_text(utf8_of(c))
    }
}

/// Percent-encoding of a URL component.
pub open spec fn url_encoded(s: Seq<char>) -> Seq<char>
    decreases s.len(),
{
    if s.len() == 0 {
        Seq::empty()
    } else {
        url_encoded(s.drop_last()) + encoded_char(s.last())
    }
}

fn utf8_bytes(c: char) -> (r: Vec<u8>)
    ensures
        r@ == utf8_of(c),
{
    let u = c as u32;
    let mut v: Vec<u8> = Vec::new();
    if u < 0x80 {
        v.push(u as u8);
    } else if u < 0x800 {
        v.push((0xC0 + u / 64) as u8);
        v.push((0x80 + u % 64) as u8);
    } else if u < 0x10000 {
        v.push((0xE0 + u / 4096) as u8);
        v.push((0x80 + (u / 64) % 64) as u8);
        v.push((0x80 + u % 64) as u8);
    } else {
        v.push((0xF0 + u / 262144) as u8);
        v.push((0x80 + (u / 4096) % 64) as u8);
        v.push((0x80 + (u / 64) % 64) as u8);
        v.push((0x80 + u % 64) as u8);
    }
    assert(v@ =~= utf8_of(c));
    v
}

fn push_percent_char(out: &mut String, c: char)
    ensures
        final(out)@ == old(out)@ + percent_text(utf8_of(c)),
{
    let bytes = utf8_bytes(c);
    let n = bytes.len();
    let mut i: usize = 0;
    let ghost start = out@;
    assert(bytes@.subrange(0, 0) =~= Seq::<u8>::empty());
    while i < n
        invariant
            0 <= i <= n,
            n == bytes@.len(),
            out@ == start + percent_text(bytes@.subrange(0, i as int)),
        decreases n - i,
    {
        push_char(out, '%');
        push_hex_byte(out, bytes[i], true);
        proof {
            let s = bytes@.subrange(0, i + 1);
            assert(s.drop_last() =~= bytes@.subrange(0, i as int));
        }
        i = i + 1;
        assert(out@ =~= start + percent_text(bytes@.subrange(0, i as int)));
    }
    assert(bytes@.subrange(0, n as int) =~= bytes@);
}

/// Percent-encodes a URL component: unreserved characters stay, every other
/// character becomes the `%XX` of each byte of its UTF-8 encoding.
pub fn urlencode(s: &str) -> (r: String)
    ensures
        r@ == url_encoded(s@),
{
    let mut out = String::new();
    let n = s.unicode_len();
    let mut i: usize = 0;
    assert(s@.subrange(0, 0) =~= Seq::<char>::empty());
    while i < n
        invariant
            0 <= i <= n,
            n == s@.len(),
            out@ == url_encoded(s@.subrange(0, i as int)),
        decreases n - i,
    {
        let c = s.get_char(i);
        let u = c as u32;
        if (0x41 <= u && u <= 0x5A) || (0x61 <= u && u <= 0x7A) || (0x30 <= u && u <= 0x39) || u
            == 0x2D || u == 0x5F || u == 0x2E || u == 0x7E {
            push_char(&mut out, c);
        } else {
            push_percent_char(&mut out, c);
        }
        proof {
            let t = s@.subrange(0, i + 1);
            assert(t.drop_last() =~= s@.subrange(0, i as int));
            assert(t.last() == c);
        }
        i = i + 1;
        assert(out@ =~= url_encoded(s@.subrange(0, i as int)));
    }
    assert(s@.subrange(0, n as int) =~= s@);
    out
}

/// The endpoint for a model.
pub open spec fn request_url_text(model: Seq<char>) -> Seq<char> {
    "https://generativelanguage.googleapis.com/v1beta/models/"@ + url_encoded(model)
        + ":generateContent"@
}

pub fn request_url(model: &str) -> (r: String)
    ensures
        r@ == request_url_text(model@),
{
    let mut out = string_of("https://generativelanguage.googleapis.com/v1beta/models/");
    let enc = urlencode(model);
    out.append(enc.as_str());
    out.append(":generateContent");
    out
}

// ---------------------------------------------------------------------------
// Reading the answer back
// ---------------------------------------------------------------------------

/// One entry of the model's structured answer: the 1-based item number and
/// the category it chose.
#[derive(Clone, Debug)]
pub struct StructuredItem {
    pub index: u32,
    pub category: String,
}

/// Category position the answer gives item number `idx`: the last entry for
/// that number whose category is on the list wins; entries off the list are
/// ignored.
pub open spec fn chosen_index(results: Seq<StructuredItem>, idx: int) -> Option<int>
    decreases results.len(),
{
    if results.len() == 0 {
        None
    } else {
        let last = results.last();
        if last.index == idx && sanitized_index(last.category@).is_some() {
            sanitized_index(last.category@)
        } else {
            chosen_index(results.drop_last(), idx)
        }
    }
}

/// The category item number `idx` ends up with: the chosen listed category,
/// or `Uncategorized` when the answer gave it none.
pub open spec fn answered_category(results: Seq<StructuredItem>, idx: int) -> Seq<char> {
    match chosen_index(results, idx) {
        Some(k) => allowed_categories()[k],
        None => "Uncategorized"@,
    }
}

proof fn lemma_sanitized_range(raw: Seq<char>)
    ensures
        match sanitized_index(raw) {
            Some(k) => 0 <= k < CATEGORY_COUNT,
            None => true,
        },
{
    lemma_match_from_range(trim_seq(raw), 0);
}

/// Slot `j` holds what the answer so far chose for item number `j + 1`.
pub open spec fn slot_matches(slot: Option<usize>, chosen: Option<int>) -> bool {
    match slot {
        Some(k) => chosen == Some(k as int) && k < CATEGORY_COUNT,
        None => chosen.is_none(),
    }
}

/// One result per item, in item order: the item's merchant and the category
/// the answer chose for its number, `Uncategorized` where it chose none or
/// one off the list.
pub fn results_from_structured(items: &Vec<LookupItem>, results: &Vec<StructuredItem>) -> (r: Vec<
    LookupResult,
>)
    requires
        items@.len() <= u32::MAX,
    ensures
        r@.len() == items@.len(),
        forall|i: int|
            0 <= i < items@.len() ==> (#[trigger] r@[i]).merchant@ == items@[i].merchant@
                && r@[i].category@ == answered_category(results@, i + 1),
{
    let n = items.len();
    let mut slots: Vec<Option<usize>> = Vec::new();
    let mut j: usize = 0;
    while j < n
        invariant
            0 <= j <= n,
            slots@.len() == j,
            forall|q: int| 0 <= q < j ==> slots@[q].is_none(),
        decreases n - j,
    {
        slots.push(None);
        j = j + 1;
    }
    let m = results.len();
    let mut t: usize = 0;
    while t < m
        invariant
            0 <= t <= m,
            m == results@.len(),
            slots@.len() == n,
            forall|q: int|
                0 <= q < n ==> slot_matches(
                    #[trigger] slots@[q],
                    chosen_index(results@.subrange(0, t as int), q + 1),
                ),
        decreases m - t,
    {
        let it = &results[t];
        let ghost prev = results@.subrange(0, t as int);
        let ghost next = results@.subrange(0, t + 1);
        proof {
            assert(next.drop_last() =~= prev);
            assert(next.last() == results@[t as int]);
            lemma_sanitized_range(it.category@);
        }
        let pick = sanitize_index(it.category.as_str());
        if it.index >= 1 && (it.index as usize) <= n {
            match pick {
                Some(k) => {
                    slots.set((it.index - 1) as usize, Some(k));
                },
                None => {},
            }
        }
        t = t + 1;
    }
    proof {
        assert(results@.subrange(0, m as int) =~= results@);
    }
    let mut out: Vec<LookupResult> = Vec::new();
    let mut i: usize = 0;
    while i < n
        invariant
            0 <= i <= n,
            n == items@.len(),
            slots@.len() == n,
            forall|q: int| 0 <= q < n ==> slot_matches(#[trigger] slots@[q], chosen_index(results@, q + 1)),
            out@.len() == i,
            forall|q: int|
                0 <= q < i ==> (#[trigger] out@[q]).merchant@ == items@[q].merchant@
                    && out@[q].category@ == answered_category(results@, q + 1),
        decreases n - i,
    {
        proof {
            assert(slot_matches(slots@[i as int], chosen_index(results@, i + 1)));
        }
        let category = match slots[i] {
            Some(k) => string_of(allowed_category(k)),
            None => string_of("Uncategorized"),
        };
        out.push(LookupResult { merchant: items[i].merchant.clone(), category });
        i = i + 1;
    }
    out
}

// ---------------------------------------------------------------------------
// Splitting and merging a batch
// ---------------------------------------------------------------------------

/// Number of `true` entries.
pub open spec fn count_true(mask: Seq<bool>) -> int
    decreases mask.len(),
{
    if mask.len() == 0 {
        0
    } else {
        count_true(mask.drop_last()) + if mask.last() {
            1int
        } else {
            0int
        }
    }
}

/// The items whose mask entry is `true`, in order.
pub open spec fn kept_items(items: Seq<LookupItem>, mask: Seq<bool>) -> Seq<LookupItem>
    decreases items.len(),
{
    if items.len() == 0 || mask.len() == 0 {
        Seq::empty()
    } else if mask.last() {
        kept_items(items.drop_last(), mask.drop_last()).push(items.last())
    } else {
        kept_items(items.drop_last(), mask.drop_last())
    }
}

/// Which items may be sent, and those items.
pub struct LookupPlan {
    pub safe_mask: Vec<bool>,
    pub safe_items: Vec<LookupItem>,
}

/// Before anything is sent: fails without an API key; otherwise marks each
/// item that passes the leak check and keeps those items, in order.
pub fn plan_lookup(api_key: &str, items: &Vec<LookupItem>) -> (r: Result<LookupPlan, String>)
    ensures
        match r {
            Err(e) => api_key@.len() == 0 && e@ == "Gemini API key not configured"@,
            Ok(p) => {
                &&& api_key@.len() > 0
                &&& p.safe_mask@.len() == items@.len()
                &&& forall|i: int|
                    0 <= i < items@.len() ==> #[trigger] p.safe_mask@[i] == od5_safe(
                        items@[i].merchant@,
                    )
                &&& p.safe_items@ == kept_items(items@, p.safe_mask@)
            },
        },
{
    if api_key.unicode_len() == 0 {
        return Err(string_of("Gemini API key not configured"));
    }
    let n = items.len();
    let mut mask: Vec<bool> = Vec::new();
    let mut kept: Vec<LookupItem> = Vec::new();
    let mut i: usize = 0;
    while i < n
        invariant
            0 <= i <= n,
            n == items@.len(),
            mask@.len() == i,
            forall|q: int| 0 <= q < i ==> #[trigger] mask@[q] == od5_safe(items@[q].merchant@),
            kept@ == kept_items(items@.subrange(0, i as int), mask@),
        decreases n - i,
    {
        let it = &items[i];
        let ok = is_od5_safe(it.merchant.as_str());
        let ghost old_mask = mask@;
        mask.push(ok);
        if ok {
            kept.push(LookupItem { merchant: it.merchant.clone(), direction: it.direction });
        }
        proof {
            let s = items@.subrange(0, i + 1);
            assert(s.drop_last() =~= items@.subrange(0, i as int));
            assert(mask@.drop_last() =~= old_mask);
            assert(s.last() == items@[i as int]);
        }
        i = i + 1;
    }
    proof {
        assert(items@.subrange(0, n as int) =~= items@);
    }
    Ok(LookupPlan { safe_mask: mask, safe_items: kept })
}

/// What item `i` comes back with after the batch: for a sent item, the
/// answer at its position among the sent items (when there is one); for any
/// other item, its merchant with `Uncategorized`.
pub open spec fn merged_entry(
    items: Seq<LookupItem>,
    mask: Seq<bool>,
    safe: Seq<LookupResult>,
    i: int,
) -> (Seq<char>, Seq<char>) {
    let k = count_true(mask.take(i));
    if mask[i] && k < safe.len() {
        (safe[k].merchant@, safe[k].category@)
    } else {
        (items[i].merchant@, "Uncategorized"@)
    }
}

/// One result per item of the batch, taking the answers for the sent items in
/// order and `Uncategorized` for the rest.
pub fn merge_results(items: &Vec<LookupItem>, mask: &Vec<bool>, safe: Vec<LookupResult>) -> (r: Vec<
    LookupResult,
>)
    requires
        mask@.len() == items@.len(),
    ensures
        r@.len() == items@.len(),
        forall|i: int|
            0 <= i < items@.len() ==> ((#[trigger] r@[i]).merchant@, r@[i].category@)
                == merged_entry(items@, mask@, safe@, i),
{
    let n = items.len();
    let mut out: Vec<LookupResult> = Vec::new();
    let mut k: usize = 0;
    let mut i: usize = 0;
    assert(mask@.take(0) =~= Seq::<bool>::empty());
    while i < n
        invariant
            0 <= i <= n,
            n == items@.len(),
            n == mask@.len(),
            k <= i,
            k == count_true(mask@.take(i as int)),
            out@.len() == i,
            forall|q: int|
                0 <= q < i ==> ((#[trigger] out@[q]).merchant@, out@[q].category@)
                    == merged_entry(items@, mask@, safe@, q),
        decreases n - i,
    {
        if mask[i] && k < safe.len() {
            out.push(
                LookupResult {
                    merchant: safe[k].merchant.clone(),
                    category: safe[k].category.clone(),
                },
            );
        } else {
            out.push(
                LookupResult {
                    merchant: items[i].merchant.clone(),
                    category: string_of("Uncategorized"),
                },
            );
        }
        proof {
            assert(mask@.take(i + 1).drop_last() =~= mask@.take(i as int));
        }
        if mask[i] {
            k = k + 1;
        }
        i = i + 1;
    }
    out
}

// ---------------------------------------------------------------------------
// Laws
// ---------------------------------------------------------------------------

/// Law: only items that pass the leak check are sent; the kept items are
/// exactly those whose mask entry is set.
pub proof fn law_only_safe_items_sent(items: Seq<LookupItem>, mask: Seq<bool>)
    requires
        mask.len() == items.len(),
        forall|i: int| 0 <= i < items.len() ==> #[trigger] mask[i] == od5_safe(items[i].merchant@),
    ensures
        forall|j: int|
            0 <= j < kept_items(items, mask).len() ==> od5_safe(
                (#[trigger] kept_items(items, mask)[j]).merchant@,
            ),
        kept_items(items, mask).len() == count_true(mask),
    decreases items.len(),
{
    if items.len() > 0 {
        let pi = items.drop_last();
        let pm = mask.drop_last();
        assert forall|i: int| 0 <= i < pi.len() implies #[trigger] pm[i] == od5_safe(pi[i].merchant@) by {
            assert(pm[i] == mask[i]);
            assert(pi[i] == items[i]);
        }
        law_only_safe_items_sent(pi, pm);
        let n = items.len() - 1;
        assert(mask[n] == od5_safe(items[n].merchant@));
        if mask.last() {
            assert forall|j: int|
                0 <= j < kept_items(items, mask).len() implies od5_safe(
                (#[trigger] kept_items(items, mask)[j]).merchant@,
            ) by {
                if j < kept_items(pi, pm).len() {
                    assert(kept_items(items, mask)[j] == kept_items(pi, pm)[j]);
                }
            }
        }
    }
}

/// Law: whatever the model answers, every item ends up with a category of
/// the list (`Uncategorized` among them).
pub proof fn law_answers_are_listed(results: Seq<StructuredItem>, idx: int)
    ensures
        exists|k: int|
            0 <= k < CATEGORY_COUNT && answered_category(results, idx) == #[trigger] allowed_categories()[k],
{
    lemma_chosen_range(results, idx);
    match chosen_index(results, idx) {
        Some(k) => {
            assert(allowed_categories()[k] == answered_category(results, idx));
        },
        None => {
            reveal(allowed_categories);
            assert(allowed_categories()[29] == answered_category(results, idx));
        },
    }
}

proof fn lemma_chosen_range(results: Seq<StructuredItem>, idx: int)
    ensures
        match chosen_index(results, idx) {
            Some(k) => 0 <= k < CATEGORY_COUNT,
            None => true,
        },
    decreases results.len(),
{
    if results.len() > 0 {
        lemma_sanitized_range(results.last().category@);
        lemma_chosen_range(results.drop_last(), idx);
    }
}

// ---------------------------------------------------------------------------
// The answer check is stable
// ---------------------------------------------------------------------------

/// Every listed category is written without surrounding whitespace.
proof fn lemma_category_untrimmed(k: int)
    requires
        0 <= k < CATEGORY_COUNT,
    ensures
        allowed_categories()[k].len() > 0,
        !is_space(allowed_categories()[k][0]),
        !is_space(allowed_categories()[k].last()),
{
    reveal(allowed_categories);
    if k == 0 {
        reveal_strlit("Credit card bill");
    } else if k == 1 {
        reveal_strlit("Electricity bill");
    } else if k == 2 {
        reveal_strlit("Gas bill");
    } else if k == 3 {
        reveal_strlit("Mobile/Internet bill");
    } else if k == 4 {
        reveal_strlit("Laundary bill");
    } else if k == 5 {
        reveal_strlit("Home Loan EMI");
    } else if k == 6 {
        reveal_strlit("Car loan EMI");
    } else if k == 7 {
        reveal_strlit("CC EMI");
    } else if k == 8 {
        reveal_strlit("Food expenses");
    } else if k == 9 {
        reveal_strlit("Hotel/Vacation expenses");
    } else if k == 10 {
        reveal_strlit("Fuel expenses");
    } else if k == 11 {
        reveal_strlit("Vehicle repairs/maintenance");
    } else if k == 12 {
        reveal_strlit("Medical expenses");
    } else if k == 13 {
        reveal_strlit("Groceries");
    } else if k == 14 {
        reveal_strlit("Transportation");
    } else if k == 15 {
        reveal_strlit("Personal care");
    } else if k == 16 {
        reveal_strlit("Shopping");
    } else if k == 17 {
        reveal_strlit("Entertainment");
    } else if k == 18 {
        reveal_strlit("Gifts");
    } else if k == 19 {
        reveal_strlit("Salary");
    } else if k == 20 {
        reveal_strlit("Side Hustle");
    } else if k == 21 {
        reveal_strlit("Interest");
    } else if k == 22 {
        reveal_strlit("Dividend");
    } else if k == 23 {
        reveal_strlit("Refund");
    } else if k == 24 {
        reveal_strlit("SIP");
    } else if k == 25 {
        reveal_strlit("Stock purchase");
    } else if k == 26 {
        reveal_strlit("FD");
    } else if k == 27 {
        reveal_strlit("Bank Transfer");
    } else if k == 28 {
        reveal_strlit("EMI Conversion");
    } else {
        reveal_strlit("Uncategorized");
    }
}

/// What `category_match_from` finds: the first position, from `k` on, whose
/// category equals `t` up to ASCII case.
proof fn lemma_match_from_first(t: Seq<char>, k: int, j: int)
    requires
        0 <= k <= j < CATEGORY_COUNT,
    ensures
        category_match_from(t, k) == Some(j) <==> (eq_ignore_ascii(t, allowed_categories()[j])
            && forall|q: int| k <= q < j ==> !eq_ignore_ascii(t, #[trigger] allowed_categories()[q])),
    decreases j - k,
{
    let c = allowed_categories()[k];
    if k == j {
        lemma_match_from_range(t, k + 1);
    } else {
        lemma_match_from_first(t, k + 1, j);
        if eq_ignore_ascii(t, c) {
            assert(!(forall|q: int| k <= q < j ==> !eq_ignore_ascii(t, #[trigger] allowed_categories()[q])));
        } else {
            assert((forall|q: int| k <= q < j ==> !eq_ignore_ascii(t, #[trigger] allowed_categories()[q]))
                <==> (forall|q: int| k + 1 <= q < j ==> !eq_ignore_ascii(t, #[trigger] allowed_categories()[q])));
        }
    }
}

/// Law: the answer check is stable: a category it returns is returned again
/// when checked itself; what it returns is always a listed category.
pub proof fn law_sanitize_idempotent(raw: Seq<char>)
    ensures
        match sanitized(raw) {
            Some(x) => sanitized(x) == Some(x) && exists|k: int|
                0 <= k < CATEGORY_COUNT && x == #[trigger] allowed_categories()[k],
            None => true,
        },
{
    match sanitized_index(raw) {
        Some(k) => {
            lemma_match_from_range(trim_seq(raw), 0);
            let t = trim_seq(raw);
            let x = allowed_categories()[k];
            lemma_match_from_first(t, 0, k);
            lemma_category_untrimmed(k);
            lemma_trim_unchanged(x);
            assert forall|q: int| 0 <= q < k implies !eq_ignore_ascii(x, #[trigger] allowed_categories()[q]) by {
                if eq_ignore_ascii(x, allowed_categories()[q]) {
                    assert(eq_ignore_ascii(t, allowed_categories()[q]));
                }
            }
            assert(eq_ignore_ascii(x, allowed_categories()[k]));
            lemma_match_from_first(x, 0, k);
            assert(sanitized_index(x) == Some(k));
        },
        None => {},
    }
}

// ---------------------------------------------------------------------------
// Decoding what `urlencode` writes
// ---------------------------------------------------------------------------

/// Value of an upper-case hex digit.
pub open spec fn hex_value(c: char) -> int {
    if '0' <= c && c <= '9' {
        c as int - '0' as int
    } else if 'A' <= c && c <= 'F' {
        c as int - 'A' as int + 10
    } else {
        0
    }
}

/// Percent-decoding: `%XX` gives the byte `XX`, any other character its code
/// as a byte.
pub open spec fn url_decoded(t: Seq<char>) -> Seq<u8>
    decreases t.len(),
{
    if t.len() == 0 {
        Seq::empty()
    } else if t[0] == '%' && t.len() >= 3 {
        seq![(16 * hex_value(t[1]) + hex_value(t[2])) as u8] + url_decoded(t.subrange(3, t.len() as int))
    } else {
        seq![t[0] as u32 as u8] + url_decoded(t.drop_first())
    }
}

/// The UTF-8 encoding of a text.
pub open spec fn utf8_text(s: Seq<char>) -> Seq<u8>
    decreases s.len(),
{
    if s.len() == 0 {
        Seq::empty()
    } else {
        utf8_text(s.drop_last()) + utf8_of(s.last())
    }
}

proof fn lemma_hex_digit_value(d: nat)
    requires
        d < 16,
    ensures
        hex_value(upper_hex_char(d)) == d,
{
}

proof fn lemma_percent_decoded(bs: Seq<u8>, rest: Seq<char>)
    ensures
        url_decoded(percent_text(bs) + rest) == bs + url_decoded(rest),
    decreases bs.len(),
{
    if bs.len() > 0 {
        let p = bs.drop_last();
        let b = bs.last();
        let tok = seq!['%'] + hex_byte_upper_text(b);
        assert(percent_text(bs) + rest =~= percent_text(p) + (tok + rest));
        lemma_percent_decoded(p, tok + rest);
        let u = tok + rest;
        lemma_hex_digit_value((b / 16) as nat);
        lemma_hex_digit_value((b % 16) as nat);
        assert(u[0] == '%');
        assert(u.subrange(3, u.len() as int) =~= rest);
        assert((16 * hex_value(u[1]) + hex_value(u[2])) as u8 == b);
        assert(url_decoded(u) == seq![b] + url_decoded(rest));
        assert(bs =~= p + seq![b]);
        assert(p + (seq![b] + url_decoded(rest)) =~= bs + url_decoded(rest));
    } else {
        assert(percent_text(bs) + rest =~= rest);
        assert(bs + url_decoded(rest) =~= url_decoded(rest));
    }
}

proof fn lemma_char_decoded(c: char, rest: Seq<char>)
    ensures
        url_decoded(encoded_char(c) + rest) == utf8_of(c) + url_decoded(rest),
{
    if unreserved(c) {
        let u = seq![c] + rest;
        assert(u[0] == c);
        assert(u.drop_first() =~= rest);
        assert(c != '%');
        assert(utf8_of(c) == seq![c as u32 as u8]);
    } else {
        lemma_percent_decoded(utf8_of(c), rest);
    }
}

proof fn lemma_text_decoded(s: Seq<char>, rest: Seq<char>)
    ensures
        url_decoded(url_encoded(s) + rest) == utf8_text(s) + url_decoded(rest),
    decreases s.len(),
{
    if s.len() > 0 {
        let p = s.drop_last();
        let c = s.last();
        assert(url_encoded(s) + rest =~= url_encoded(p) + (encoded_char(c) + rest));
        lemma_text_decoded(p, encoded_char(c) + rest);
        lemma_char_decoded(c, rest);
        assert(utf8_text(p) + (utf8_of(c) + url_decoded(rest)) =~= utf8_text(s) + url_decoded(rest));
    } else {
        assert(url_encoded(s) + rest =~= rest);
        assert(utf8_text(s) + url_decoded(rest) =~= url_decoded(rest));
    }
}

proof fn lemma_percent_len(bs: Seq<u8>)
    ensures
        percent_text(bs).len() == 3 * bs.len(),
    decreases bs.len(),
{
    if bs.len() > 0 {
        lemma_percent_len(bs.drop_last());
    }
}

proof fn lemma_encoded_len(s: Seq<char>)
    ensures
        url_encoded(s).len() >= s.len(),
        (exists|i: int| 0 <= i < s.len() && !unreserved(#[trigger] s[i])) ==> url_encoded(s).len()
            > s.len(),
    decreases s.len(),
{
    if s.len() > 0 {
        let p = s.drop_last();
        let c = s.last();
        lemma_encoded_len(p);
        if !unreserved(c) {
            lemma_percent_len(utf8_of(c));
        }
        if exists|i: int| 0 <= i < s.len() && !unreserved(#[trigger] s[i]) {
            let i = choose|i: int| 0 <= i < s.len() && !unreserved(#[trigger] s[i]);
            if i < s.len() - 1 {
                assert(p[i] == s[i]);
            }
        }
    }
}

proof fn lemma_unreserved_unchanged(s: Seq<char>)
    requires
        forall|i: int| 0 <= i < s.len() ==> unreserved(#[trigger] s[i]),
    ensures
        url_encoded(s) == s,
    decreases s.len(),
{
    if s.len() > 0 {
        let p = s.drop_last();
        assert forall|i: int| 0 <= i < p.len() implies unreserved(#[trigger] p[i]) by {
            assert(p[i] == s[i]);
        }
        lemma_unreserved_unchanged(p);
        assert(unreserved(s[s.len() - 1]));
        assert(p + seq![s.last()] =~= s);
    }
}

/// An upper-case hex digit.
pub open spec fn upper_hex_digit(c: char) -> bool {
    ('0' <= c && c <= '9') || ('A' <= c && c <= 'F')
}

/// Text made only of unreserved characters and `%XX` escapes with two
/// upper-case hex digits.
pub open spec fn well_escaped(t: Seq<char>) -> bool
    decreases t.len(),
{
    if t.len() == 0 {
        true
    } else if t[0] == '%' {
        t.len() >= 3 && upper_hex_digit(t[1]) && upper_hex_digit(t[2]) && well_escaped(
            t.subrange(3, t.len() as int),
        )
    } else {
        unreserved(t[0]) && well_escaped(t.drop_first())
    }
}

proof fn lemma_escaped_concat(a: Seq<char>, b: Seq<char>)
    requires
        well_escaped(a),
        well_escaped(b),
    ensures
        well_escaped(a + b),
    decreases a.len(),
{
    if a.len() == 0 {
        assert(a + b =~= b);
    } else if a[0] == '%' {
        let t = a.subrange(3, a.len() as int);
        lemma_escaped_concat(t, b);
        assert((a + b).subrange(3, (a + b).len() as int) =~= t + b);
        assert((a + b)[1] == a[1] && (a + b)[2] == a[2]);
    } else {
        lemma_escaped_concat(a.drop_first(), b);
        assert((a + b).drop_first() =~= a.drop_first() + b);
    }
}

proof fn lemma_percent_escaped(bs: Seq<u8>)
    ensures
        well_escaped(percent_text(bs)),
    decreases bs.len(),
{
    if bs.len() > 0 {
        let b = bs.last();
        lemma_percent_escaped(bs.drop_last());
        let tok = seq!['%'] + hex_byte_upper_text(b);
        assert(tok.subrange(3, 3) =~= Seq::<char>::empty());
        assert(well_escaped(tok.subrange(3, tok.len() as int)));
        lemma_escaped_concat(percent_text(bs.drop_last()), tok);
        assert(percent_text(bs.drop_last()) + seq!['%'] + hex_byte_upper_text(b) =~= percent_text(
            bs.drop_last(),
        ) + tok);
    }
}

proof fn lemma_encoded_escaped(s: Seq<char>)
    ensures
        well_escaped(url_encoded(s)),
    decreases s.len(),
{
    if s.len() > 0 {
        let c = s.last();
        lemma_encoded_escaped(s.drop_last());
        if unreserved(c) {
            let one = seq![c];
            assert(one.drop_first() =~= Seq::<char>::empty());
            assert(well_escaped(one.drop_first()));
            assert(one[0] == c && c != '%');
            assert(well_escaped(one));
        } else {
            lemma_percent_escaped(utf8_of(c));
        }
        lemma_escaped_concat(url_encoded(s.drop_last()), encoded_char(c));
    }
}

/// Law: what `urlencode` writes holds only unreserved characters and `%XX`
/// escapes with upper-case hex digits; percent-decoding it gives back
/// exactly the UTF-8 bytes of the input; and the output equals the input
/// exactly when every character is unreserved.
pub proof fn law_urlencode_round_trip(s: Seq<char>)
    ensures
        well_escaped(url_encoded(s)),
        url_decoded(url_encoded(s)) == utf8_text(s),
        (url_encoded(s) == s) <==> (forall|i: int| 0 <= i < s.len() ==> unreserved(#[trigger] s[i])),
{
    lemma_encoded_escaped(s);
    lemma_text_decoded(s, Seq::empty());
    assert(url_encoded(s) + Seq::<char>::empty() =~= url_encoded(s));
    assert(utf8_text(s) + url_decoded(Seq::<char>::empty()) =~= utf8_text(s));
    lemma_encoded_len(s);
    if forall|i: int| 0 <= i < s.len() ==> unreserved(#[trigger] s[i]) {
        lemma_unreserved_unchanged(s);
    }
}

} // verus!
