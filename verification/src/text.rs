//! Character-level helpers shared by the rest of the library: trimming,
//! comparisons, substring search, number rendering.

use vstd::prelude::*;

verus! {

// ---------------------------------------------------------------------------
// Whitespace and trimming
// ---------------------------------------------------------------------------

/// Unicode `White_Space`, the set `char::is_whitespace` (and so `str::trim`)
/// uses.
pub open spec fn is_space(c: char) -> bool {
    let u = c as u32;
    (0x09 <= u && u <= 0x0D) || u == 0x20 || u == 0x85 || u == 0xA0 || u == 0x1680
        || (0x2000 <= u && u <= 0x200A) || u == 0x2028 || u == 0x2029 || u == 0x202F
        || u == 0x205F || u == 0x3000
}

pub fn char_is_space(c: char) -> (r: bool)
    ensures
        r == is_space(c),
{
    let u = c as u32;
    (0x09 <= u && u <= 0x0D) || u == 0x20 || u == 0x85 || u == 0xA0 || u == 0x1680 || (0x2000
        <= u && u <= 0x200A) || u == 0x2028 || u == 0x2029 || u == 0x202F || u == 0x205F || u
        == 0x3000
}

pub open spec fn trim_front(s: Seq<char>) -> Seq<char>
    decreases s.len(),
{
    if s.len() > 0 && is_space(s[0]) {
        trim_front(s.drop_first())
    } else {
        s
    }
}

pub open spec fn trim_back(s: Seq<char>) -> Seq<char>
    decreases s.len(),
{
    if s.len() > 0 && is_space(s.last()) {
        trim_back(s.drop_last())
    } else {
        s
    }
}

/// What `str::trim` leaves: leading and trailing whitespace removed.
pub open spec fn trim_seq(s: Seq<char>) -> Seq<char> {
    trim_back(trim_front(s))
}

pub fn trim(s: &str) -> (r: &str)
    ensures
        r@ == trim_seq(s@),
{
    let n = s.unicode_len();
    let mut i: usize = 0;
    assert(s@.subrange(0, n as int) =~= s@);
    while i < n && char_is_space(s.get_char(i))
        invariant
            0 <= i <= n,
            n == s@.len(),
            trim_front(s@) == trim_front(s@.subrange(i as int, n as int)),
        decreases n - i,
    {
        assert(s@.subrange(i as int, n as int).drop_first() =~= s@.subrange(
            i as int + 1,
            n as int,
        ));
        i = i + 1;
    }
    assert(trim_front(s@) == s@.subrange(i as int, n as int)) by {
        if i == n {
            assert(s@.subrange(i as int, n as int).len() == 0);
        }
    }
    let mut j: usize = n;
    while j > i && char_is_space(s.get_char(j - 1))
        invariant
            i <= j <= n,
            n == s@.len(),
            trim_back(s@.subrange(i as int, n as int)) == trim_back(
                s@.subrange(i as int, j as int),
            ),
        decreases j - i,
    {
        assert(s@.subrange(i as int, j as int).drop_last() =~= s@.subrange(
            i as int,
            j as int - 1,
        ));
        j = j - 1;
    }
    s.substring_char(i, j)
}

// ---------------------------------------------------------------------------
// Equality, prefixes, substrings
// ---------------------------------------------------------------------------

pub fn str_eq(a: &str, b: &str) -> (r: bool)
    ensures
        r == (a@ == b@),
{
    let n = a.unicode_len();
    let m = b.unicode_len();
    if n != m {
        return false;
    }
    let mut i: usize = 0;
    while i < n
        invariant
            0 <= i <= n,
            n == a@.len(),
            n == b@.len(),
            forall|k: int| 0 <= k < i ==> a@[k] == b@[k],
        decreases n - i,
    {
        if a.get_char(i) != b.get_char(i) {
            return false;
        }
        i = i + 1;
    }
    assert(a@ =~= b@);
    true
}

/// ASCII-only lowercasing of one character; everything else is kept.
pub open spec fn ascii_lower(c: char) -> char {
    if 'A' <= c && c <= 'Z' {
        ((c as u32) + 32) as char
    } else {
        c
    }
}

pub fn char_ascii_lower(c: char) -> (r: char)
    ensures
        r == ascii_lower(c),
{
    if 'A' <= c && c <= 'Z' {
        let u = (c as u32) + 32;
        assert(u < 0xD800);
        u as u8 as char
    } else {
        c
    }
}

/// `str::eq_ignore_ascii_case`.
pub open spec fn eq_ignore_ascii(a: Seq<char>, b: Seq<char>) -> bool {
    a.len() == b.len() && forall|k: int| 0 <= k < a.len() ==> ascii_lower(a[k]) == ascii_lower(b[k])
}

pub fn str_eq_ignore_ascii_case(a: &str, b: &str) -> (r: bool)
    ensures
        r == eq_ignore_ascii(a@, b@),
{
    let n = a.unicode_len();
    let m = b.unicode_len();
    if n != m {
        return false;
    }
    let mut i: usize = 0;
    while i < n
        invariant
            0 <= i <= n,
            n == a@.len(),
            n == b@.len(),
            forall|k: int| 0 <= k < i ==> ascii_lower(a@[k]) == ascii_lower(b@[k]),
        decreases n - i,
    {
        if char_ascii_lower(a.get_char(i)) != char_ascii_lower(b.get_char(i)) {
            return false;
        }
        i = i + 1;
    }
    true
}

/// `needle` occurs in `hay` starting at position `i`.
pub open spec fn occurs_at(hay: Seq<char>, needle: Seq<char>, i: int) -> bool {
    0 <= i && i + needle.len() <= hay.len() && hay.subrange(i, i + needle.len()) == needle
}

/// `str::contains` with a string pattern.
pub open spec fn contains_seq(hay: Seq<char>, needle: Seq<char>) -> bool {
    exists|i: int| occurs_at(hay, needle, i)
}

pub open spec fn starts_with_seq(s: Seq<char>, p: Seq<char>) -> bool {
    occurs_at(s, p, 0)
}

fn matches_at(hay: &str, needle: &str, i: usize, hn: usize, nn: usize) -> (r: bool)
    requires
        hn == hay@.len(),
        nn == needle@.len(),
        i + nn <= hn,
    ensures
        r == occurs_at(hay@, needle@, i as int),
{
    let mut k: usize = 0;
    while k < nn
        invariant
            0 <= k <= nn,
            hn == hay@.len(),
            nn == needle@.len(),
            i + nn <= hn,
            forall|t: int| 0 <= t < k ==> hay@[i + t] == needle@[t],
        decreases nn - k,
    {
        if hay.get_char(i + k) != needle.get_char(k) {
            assert(hay@.subrange(i as int, i + nn)[k as int] != needle@[k as int]);
            return false;
        }
        k = k + 1;
    }
    assert(hay@.subrange(i as int, i + nn) =~= needle@);
    true
}

pub fn str_contains(hay: &str, needle: &str) -> (r: bool)
    ensures
        r == contains_seq(hay@, needle@),
{
    let hn = hay.unicode_len();
    let nn = needle.unicode_len();
    if nn > hn {
        return false;
    }
    let mut i: usize = 0;
    loop
        invariant
            hn == hay@.len(),
            nn == needle@.len(),
            nn <= hn,
            0 <= i <= hn - nn,
            forall|t: int| 0 <= t < i ==> !occurs_at(hay@, needle@, t),
        decreases hn - nn - i,
    {
        if matches_at(hay, needle, i, hn, nn) {
            return true;
        }
        if i == hn - nn {
            return false;
        }
        i = i + 1;
    }
}

pub fn str_starts_with(s: &str, p: &str) -> (r: bool)
    ensures
        r == starts_with_seq(s@, p@),
{
    let sn = s.unicode_len();
    let pn = p.unicode_len();
    if pn > sn {
        return false;
    }
    matches_at(s, p, 0, sn, pn)
}

// ---------------------------------------------------------------------------
// Byte offsets (UTF-8) over character sequences
// ---------------------------------------------------------------------------

/// Number of bytes the UTF-8 encoding of `c` takes.
pub open spec fn char_width(c: char) -> nat {
    let u = c as u32;
    if u < 0x80 {
        1
    } else if u < 0x800 {
        2
    } else if u < 0x10000 {
        3
    } else {
        4
    }
}

/// Length in bytes of the UTF-8 encoding of `s` (`str::len`).
pub open spec fn byte_len(s: Seq<char>) -> nat
    decreases s.len(),
{
    if s.len() == 0 {
        0
    } else {
        byte_len(s.drop_last()) + char_width(s.last())
    }
}

/// `b` is a character boundary of `s` that `k` characters end at.
pub open spec fn boundary_at(s: Seq<char>, k: int, b: int) -> bool {
    0 <= k <= s.len() && byte_len(s.subrange(0, k)) == b
}

/// `str::get(a..b)` with byte offsets `a` and `b`.
pub open spec fn byte_slice(s: Seq<char>, a: int, b: int) -> Option<Seq<char>> {
    if a <= b && (exists|ka: int| boundary_at(s, ka, a)) && (exists|kb: int| boundary_at(s, kb, b)) {
        let ka = choose|ka: int| boundary_at(s, ka, a);
        let kb = choose|kb: int| boundary_at(s, kb, b);
        Some(s.subrange(ka, kb))
    } else {
        None
    }
}

pub fn char_width_of(c: char) -> (r: usize)
    ensures
        r == char_width(c),
{
    let u = c as u32;
    if u < 0x80 {
        1
    } else if u < 0x800 {
        2
    } else if u < 0x10000 {
        3
    } else {
        4
    }
}

proof fn lemma_byte_len_prefix_step(s: Seq<char>, k: int)
    requires
        0 <= k < s.len(),
    ensures
        byte_len(s.subrange(0, k + 1)) == byte_len(s.subrange(0, k)) + char_width(s[k]),
{
    assert(s.subrange(0, k + 1).drop_last() =~= s.subrange(0, k));
}

/// Whether the UTF-8 encoding of `s` takes at most `limit` bytes.
pub fn byte_len_at_most(s: &str, limit: usize) -> (r: bool)
    ensures
        r == (byte_len(s@) <= limit),
{
    let n = s.unicode_len();
    let mut total: usize = 0;
    let mut k: usize = 0;
    assert(s@.subrange(0, 0) =~= Seq::<char>::empty());
    while k < n
        invariant
            0 <= k <= n,
            n == s@.len(),
            total == byte_len(s@.subrange(0, k as int)),
            total <= limit,
        decreases n - k,
    {
        proof {
            lemma_byte_len_prefix_step(s@, k as int);
        }
        let w = char_width_of(s.get_char(k));
        if w > limit - total {
            proof {
                lemma_byte_len_prefix_monotone(s@, k + 1, n as int);
                assert(s@.subrange(0, n as int) =~= s@);
            }
            return false;
        }
        total = total + w;
        k = k + 1;
    }
    assert(s@.subrange(0, n as int) =~= s@);
    true
}

proof fn lemma_byte_len_prefix_monotone(s: Seq<char>, k1: int, k2: int)
    requires
        0 <= k1 <= k2 <= s.len(),
    ensures
        byte_len(s.subrange(0, k1)) <= byte_len(s.subrange(0, k2)),
    decreases k2 - k1,
{
    if k1 < k2 {
        lemma_byte_len_prefix_step(s, k2 - 1);
        lemma_byte_len_prefix_monotone(s, k1, k2 - 1);
    }
}

proof fn lemma_byte_len_strictly_grows(s: Seq<char>, k1: int, k2: int)
    requires
        0 <= k1 < k2 <= s.len(),
    ensures
        byte_len(s.subrange(0, k1)) < byte_len(s.subrange(0, k2)),
    decreases k2 - k1,
{
    lemma_byte_len_prefix_step(s, k2 - 1);
    if k1 < k2 - 1 {
        lemma_byte_len_strictly_grows(s, k1, k2 - 1);
    }
}

proof fn lemma_boundary_unique(s: Seq<char>, k1: int, k2: int, b: int)
    requires
        boundary_at(s, k1, b),
        boundary_at(s, k2, b),
    ensures
        k1 == k2,
{
    if k1 < k2 {
        lemma_byte_len_strictly_grows(s, k1, k2);
    } else if k2 < k1 {
        lemma_byte_len_strictly_grows(s, k2, k1);
    }
}

/// Character index whose prefix ends exactly at byte offset `b`, if any.
fn find_boundary(s: &str, n: usize, b: usize) -> (r: Option<usize>)
    requires
        n == s@.len(),
        b <= usize::MAX - 4,
    ensures
        match r {
            Some(k) => boundary_at(s@, k as int, b as int),
            None => forall|k: int| !boundary_at(s@, k, b as int),
        },
{
    let mut k: usize = 0;
    let mut acc: usize = 0;
    while k < n && acc < b
        invariant
            0 <= k <= n,
            n == s@.len(),
            b <= usize::MAX - 4,
            acc == byte_len(s@.subrange(0, k as int)),
            forall|t: int| 0 <= t < k ==> byte_len(s@.subrange(0, t)) < b,
        decreases n - k,
    {
        proof {
            lemma_byte_len_prefix_step(s@, k as int);
        }
        let w = char_width_of(s.get_char(k));
        acc = acc + w;
        k = k + 1;
    }
    if acc == b {
        Some(k)
    } else {
        proof {
            assert forall|t: int| !boundary_at(s@, t, b as int) by {
                if boundary_at(s@, t, b as int) {
                    if t > k {
                        lemma_byte_len_strictly_grows(s@, k as int, t);
                        // acc >= b here: k == n would make t > n impossible
                    }
                }
            }
        }
        None
    }
}

pub fn str_byte_slice<'a>(s: &'a str, a: usize, b: usize) -> (r: Option<&'a str>)
    requires
        b <= usize::MAX - 4,
    ensures
        match r {
            Some(t) => byte_slice(s@, a as int, b as int) == Some(t@),
            None => byte_slice(s@, a as int, b as int).is_none(),
        },
{
    let n = s.unicode_len();
    if a > b {
        return None;
    }
    let ka = find_boundary(s, n, a);
    let kb = find_boundary(s, n, b);
    match (ka, kb) {
        (Some(x), Some(y)) => {
            proof {
                let ca = choose|t: int| boundary_at(s@, t, a as int);
                let cb = choose|t: int| boundary_at(s@, t, b as int);
                lemma_boundary_unique(s@, ca, x as int, a as int);
                lemma_boundary_unique(s@, cb, y as int, b as int);
                if x > y {
                    lemma_byte_len_strictly_grows(s@, y as int, x as int);
                }
            }
            Some(s.substring_char(x, y))
        },
        _ => None,
    }
}

// ---------------------------------------------------------------------------
// Building strings
// ---------------------------------------------------------------------------

/// Appends one character (`String::push`).
#[verifier::external_body]
pub(crate) fn push_char(s: &mut String, c: char)
    ensures
        final(s)@ == old(s)@.push(c),
{
    s.push(c)
}

/// Every character is ASCII.
pub open spec fn ascii_text(s: Seq<char>) -> bool {
    forall|k: int| 0 <= k < s.len() ==> (#[trigger] s[k] as u32) < 128
}

/// Each character lowercased the ASCII way.
pub open spec fn ascii_lowered(s: Seq<char>) -> Seq<char> {
    Seq::new(s.len(), |k: int| ascii_lower(s[k]))
}

/// Name for the result of `str::to_lowercase` (Unicode lowercase mapping).
pub uninterp spec fn lowercase_of(s: Seq<char>) -> Seq<char>;

/// `str::to_lowercase`: the Unicode lowercase mapping of `s`. Its result is
/// named, and only its ASCII part is described: on text that is all ASCII,
/// `A`..`Z` become `a`..`z` and every other character stays. What it does to
/// other characters is Unicode's table and is left unsaid.
#[verifier::external_body]
pub(crate) fn to_lowercase(s: &str) -> (r: String)
    ensures
        r@ == lowercase_of(s@),
        ascii_text(s@) ==> r@ == ascii_lowered(s@),
{
    s.to_lowercase()
}

/// `trim` followed by `to_lowercase`, the normalization every label goes
/// through before it is compared.
pub open spec fn normalize_label(s: Seq<char>) -> Seq<char> {
    lowercase_of(trim_seq(s))
}

/// The same normalization written out for ASCII text.
pub open spec fn ascii_normalized(s: Seq<char>) -> Seq<char> {
    ascii_lowered(trim_seq(s))
}

pub fn normalized_label(s: &str) -> (r: String)
    ensures
        r@ == normalize_label(s@),
        ascii_text(s@) ==> r@ == ascii_normalized(s@),
{
    let t = trim(s);
    proof {
        lemma_trim_shape(s@);
    }
    to_lowercase(t)
}

proof fn lemma_trim_front_suffix(s: Seq<char>)
    ensures
        trim_front(s).len() <= s.len(),
        trim_front(s) == s.subrange(s.len() - trim_front(s).len(), s.len() as int),
        trim_front(s).len() > 0 ==> !is_space(trim_front(s)[0]),
    decreases s.len(),
{
    if s.len() > 0 && is_space(s[0]) {
        lemma_trim_front_suffix(s.drop_first());
        assert(s.drop_first().subrange(
            s.drop_first().len() - trim_front(s).len(),
            s.drop_first().len() as int,
        ) =~= s.subrange(s.len() - trim_front(s).len(), s.len() as int));
    } else {
        assert(s.subrange(0, s.len() as int) =~= s);
    }
}

proof fn lemma_trim_back_prefix(s: Seq<char>)
    ensures
        trim_back(s).len() <= s.len(),
        trim_back(s) == s.subrange(0, trim_back(s).len() as int),
        trim_back(s).len() > 0 ==> !is_space(trim_back(s).last()),
    decreases s.len(),
{
    if s.len() > 0 && is_space(s.last()) {
        lemma_trim_back_prefix(s.drop_last());
        assert(s.drop_last().subrange(0, trim_back(s).len() as int) =~= s.subrange(
            0,
            trim_back(s).len() as int,
        ));
    } else {
        assert(s.subrange(0, s.len() as int) =~= s);
    }
}

/// Trimming keeps a run of the original characters, and what it keeps
/// neither starts nor ends with whitespace.
pub proof fn lemma_trim_shape(s: Seq<char>)
    ensures
        ascii_text(s) ==> ascii_text(trim_seq(s)),
        trim_seq(s).len() > 0 ==> !is_space(trim_seq(s)[0]) && !is_space(trim_seq(s).last()),
{
    let f = trim_front(s);
    lemma_trim_front_suffix(s);
    lemma_trim_back_prefix(f);
    let t = trim_back(f);
    assert forall|k: int| 0 <= k < t.len() implies t[k] == s[s.len() - f.len() + k] by {
        assert(t[k] == f[k]);
        assert(f[k] == s[s.len() - f.len() + k]);
    }
    if t.len() > 0 {
        assert(t[0] == f[0]);
    }
}

/// Text that neither starts nor ends with whitespace is left alone by `trim`.
pub proof fn lemma_trim_unchanged(s: Seq<char>)
    requires
        s.len() > 0 ==> !is_space(s[0]) && !is_space(s.last()),
    ensures
        trim_seq(s) == s,
{
}

/// Normalizing ASCII text a second time changes nothing, and it stays ASCII.
pub proof fn lemma_ascii_normalized_idempotent(s: Seq<char>)
    requires
        ascii_text(s),
    ensures
        ascii_text(ascii_normalized(s)),
        ascii_normalized(ascii_normalized(s)) == ascii_normalized(s),
{
    lemma_trim_shape(s);
    let t = trim_seq(s);
    let u = ascii_lowered(t);
    assert forall|k: int| 0 <= k < u.len() implies (#[trigger] u[k] as u32) < 128 && is_space(u[k])
        == is_space(t[k]) by {
        assert((t[k] as u32) < 128);
    }
    if u.len() > 0 {
        assert(u.last() == u[u.len() - 1]);
        assert(t.last() == t[t.len() - 1]);
    }
    lemma_trim_unchanged(u);
    assert(ascii_lowered(u) =~= u);
}

/// An optional text by its characters.
pub open spec fn opt_view(o: Option<String>) -> Option<Seq<char>> {
    match o {
        Some(s) => Some(s@),
        None => None,
    }
}

pub fn string_of(s: &str) -> (r: String)
    ensures
        r@ == s@,
{
    String::from_str(s)
}

// ---------------------------------------------------------------------------
// Number rendering
// ---------------------------------------------------------------------------

pub open spec fn digit_char(d: nat) -> char {
    if d == 0 {
        '0'
    } else if d == 1 {
        '1'
    } else if d == 2 {
        '2'
    } else if d == 3 {
        '3'
    } else if d == 4 {
        '4'
    } else if d == 5 {
        '5'
    } else if d == 6 {
        '6'
    } else if d == 7 {
        '7'
    } else if d == 8 {
        '8'
    } else {
        '9'
    }
}

pub fn digit_of(d: u128) -> (c: char)
    requires
        d < 10,
    ensures
        c == digit_char(d as nat),
{
    if d == 0 {
        '0'
    } else if d == 1 {
        '1'
    } else if d == 2 {
        '2'
    } else if d == 3 {
        '3'
    } else if d == 4 {
        '4'
    } else if d == 5 {
        '5'
    } else if d == 6 {
        '6'
    } else if d == 7 {
        '7'
    } else if d == 8 {
        '8'
    } else {
        '9'
    }
}

/// Decimal rendering of a natural number, no padding (`{}`).
pub open spec fn nat_text(n: nat) -> Seq<char>
    decreases n,
{
    if n < 10 {
        seq![digit_char(n)]
    } else {
        nat_text(n / 10).push(digit_char(n % 10))
    }
}

pub fn push_nat(out: &mut String, n: u128)
    ensures
        final(out)@ == old(out)@ + nat_text(n as nat),
    decreases n,
{
    if n >= 10 {
        push_nat(out, n / 10);
    }
    push_char(out, digit_of(n % 10));
    assert(final(out)@ =~= old(out)@ + nat_text(n as nat));
}

pub fn nat_string(n: u128) -> (r: String)
    ensures
        r@ == nat_text(n as nat),
{
    let mut s = String::new();
    push_nat(&mut s, n);
    assert(s@ =~= nat_text(n as nat));
    s
}

pub open spec fn zeros(k: nat) -> Seq<char> {
    Seq::new(k, |i: int| '0')
}

/// `{:0w}` for a non-negative number.
pub open spec fn padded_text(n: nat, w: nat) -> Seq<char> {
    let t = nat_text(n);
    if t.len() < w {
        zeros((w - t.len()) as nat) + t
    } else {
        t
    }
}

/// `{:0w}` for a signed number: the sign counts toward the width.
pub open spec fn padded_signed_text(v: int, w: nat) -> Seq<char> {
    if v < 0 {
        let t = nat_text((-v) as nat);
        if t.len() + 1 < w {
            seq!['-'] + zeros((w - 1 - t.len()) as nat) + t
        } else {
            seq!['-'] + t
        }
    } else {
        padded_text(v as nat, w)
    }
}

proof fn lemma_nat_text_len_pos(n: nat)
    ensures
        nat_text(n).len() >= 1,
    decreases n,
{
    if n >= 10 {
        lemma_nat_text_len_pos(n / 10);
    }
}

fn push_zeros(out: &mut String, k: usize)
    ensures
        final(out)@ == old(out)@ + zeros(k as nat),
{
    let mut i: usize = 0;
    while i < k
        invariant
            0 <= i <= k,
            out@ == old(out)@ + zeros(i as nat),
        decreases k - i,
    {
        push_char(out, '0');
        i = i + 1;
        assert(out@ =~= old(out)@ + zeros(i as nat));
    }
}

pub fn push_padded(out: &mut String, n: u128, w: usize)
    ensures
        final(out)@ == old(out)@ + padded_text(n as nat, w as nat),
{
    let t = nat_string(n);
    let len = t.as_str().unicode_len();
    if len < w {
        push_zeros(out, w - len);
    }
    out.append(t.as_str());
    assert(final(out)@ =~= old(out)@ + padded_text(n as nat, w as nat));
}

pub fn push_padded_signed(out: &mut String, v: i64, w: usize)
    requires
        v > i64::MIN,
    ensures
        final(out)@ == old(out)@ + padded_signed_text(v as int, w as nat),
{
    if v < 0 {
        let t = nat_string((-v) as u128);
        let len = t.as_str().unicode_len();
        push_char(out, '-');
        if len < w && w - len > 1 {
            push_zeros(out, w - 1 - len);
        }
        out.append(t.as_str());
        assert(final(out)@ =~= old(out)@ + padded_signed_text(v as int, w as nat));
    } else {
        push_padded(out, v as u128, w);
    }
}

pub open spec fn hex_char(d: nat) -> char {
    if d < 10 {
        digit_char(d)
    } else if d == 10 {
        'a'
    } else if d == 11 {
        'b'
    } else if d == 12 {
        'c'
    } else if d == 13 {
        'd'
    } else if d == 14 {
        'e'
    } else {
        'f'
    }
}

/// `{:02x}` of a byte.
pub open spec fn hex_byte_text(b: u8) -> Seq<char> {
    seq![hex_char((b / 16) as nat), hex_char((b % 16) as nat)]
}

/// `{:02X}` of a byte.
pub open spec fn hex_byte_upper_text(b: u8) -> Seq<char> {
    seq![upper_hex_char((b / 16) as nat), upper_hex_char((b % 16) as nat)]
}

pub open spec fn upper_hex_char(d: nat) -> char {
    if d < 10 {
        digit_char(d)
    } else if d == 10 {
        'A'
    } else if d == 11 {
        'B'
    } else if d == 12 {
        'C'
    } else if d == 13 {
        'D'
    } else if d == 14 {
        'E'
    } else {
        'F'
    }
}

fn hex_digit(d: u8, upper: bool) -> (c: char)
    requires
        d < 16,
    ensures
        upper ==> c == upper_hex_char(d as nat),
        !upper ==> c == hex_char(d as nat),
{
    if d < 10 {
        digit_of(d as u128)
    } else if d == 10 {
        if upper { 'A' } else { 'a' }
    } else if d == 11 {
        if upper { 'B' } else { 'b' }
    } else if d == 12 {
        if upper { 'C' } else { 'c' }
    } else if d == 13 {
        if upper { 'D' } else { 'd' }
    } else if d == 14 {
        if upper { 'E' } else { 'e' }
    } else {
        if upper { 'F' } else { 'f' }
    }
}

pub fn push_hex_byte(out: &mut String, b: u8, upper: bool)
    ensures
        upper ==> final(out)@ == old(out)@ + hex_byte_upper_text(b),
        !upper ==> final(out)@ == old(out)@ + hex_byte_text(b),
{
    push_char(out, hex_digit(b / 16, upper));
    push_char(out, hex_digit(b % 16, upper));
    assert(upper ==> final(out)@ =~= old(out)@ + hex_byte_upper_text(b));
    assert(!upper ==> final(out)@ =~= old(out)@ + hex_byte_text(b));
}

// ---------------------------------------------------------------------------
// Ordering of texts (`Ord for str`: byte order of UTF-8, which is code point
// order)
// ---------------------------------------------------------------------------

pub open spec fn text_less(a: Seq<char>, b: Seq<char>) -> bool
    decreases a.len(),
{
    if a.len() == 0 {
        b.len() > 0
    } else if b.len() == 0 {
        false
    } else if a[0] != b[0] {
        a[0] < b[0]
    } else {
        text_less(a.drop_first(), b.drop_first())
    }
}

pub proof fn lemma_text_less_irreflexive(a: Seq<char>)
    ensures
        !text_less(a, a),
    decreases a.len(),
{
    if a.len() > 0 {
        lemma_text_less_irreflexive(a.drop_first());
    }
}

pub proof fn lemma_text_less_transitive(a: Seq<char>, b: Seq<char>, c: Seq<char>)
    requires
        text_less(a, b),
        text_less(b, c),
    ensures
        text_less(a, c),
    decreases a.len(),
{
    if a.len() > 0 && b.len() > 0 && c.len() > 0 {
        if a[0] == b[0] && b[0] == c[0] {
            lemma_text_less_transitive(a.drop_first(), b.drop_first(), c.drop_first());
        }
    }
}

/// If `a` comes before `c`, any `b` comes after `a` or before `c`.
pub proof fn lemma_text_less_negative_transitive(a: Seq<char>, b: Seq<char>, c: Seq<char>)
    ensures
        text_less(a, c) ==> text_less(a, b) || text_less(b, c),
{
    lemma_text_less_total(a, b);
    if text_less(a, c) && text_less(b, a) {
        lemma_text_less_transitive(b, a, c);
    }
}

pub proof fn lemma_text_less_total(a: Seq<char>, b: Seq<char>)
    ensures
        a != b ==> (text_less(a, b) || text_less(b, a)),
        !(text_less(a, b) && text_less(b, a)),
    decreases a.len(),
{
    if a.len() > 0 && b.len() > 0 {
        lemma_text_less_total(a.drop_first(), b.drop_first());
        if a[0] == b[0] && a != b {
            assert(a.drop_first() != b.drop_first()) by {
                if a.drop_first() == b.drop_first() {
                    assert(a =~= seq![a[0]] + a.drop_first());
                    assert(b =~= seq![b[0]] + b.drop_first());
                }
            }
        }
    } else if a.len() == 0 && b.len() == 0 {
        assert(a =~= b);
    }
}

pub fn str_less(a: &str, b: &str) -> (r: bool)
    ensures
        r == text_less(a@, b@),
{
    let n = a.unicode_len();
    let m = b.unicode_len();
    let mut i: usize = 0;
    assert(a@.subrange(0, n as int) =~= a@);
    assert(b@.subrange(0, m as int) =~= b@);
    while i < n && i < m
        invariant
            0 <= i <= n,
            i <= m,
            n == a@.len(),
            m == b@.len(),
            text_less(a@, b@) == text_less(
                a@.subrange(i as int, n as int),
                b@.subrange(i as int, m as int),
            ),
        decreases n - i,
    {
        let x = a.get_char(i);
        let y = b.get_char(i);
        let ghost sa = a@.subrange(i as int, n as int);
        let ghost sb = b@.subrange(i as int, m as int);
        assert(sa[0] == x && sb[0] == y);
        if x != y {
            return x < y;
        }
        assert(sa.drop_first() =~= a@.subrange(i as int + 1, n as int));
        assert(sb.drop_first() =~= b@.subrange(i as int + 1, m as int));
        i = i + 1;
    }
    i < m
}

} // verus!
