//! The per-profile merchant cache: once a merchant has been categorized by
//! an outside lookup, the answer is kept so later uploads skip the round
//! trip. Entries are keyed by direction and normalized merchant string.

use crate::llm::Direction;
use crate::text::{normalize_label, normalized_label, str_eq, string_of};
use vstd::prelude::*;

verus! {

/// Key prefix for a direction: the same merchant string can land in
/// different categories depending on which way the money went.
pub open spec fn direction_prefix(d: Direction) -> Seq<char> {
    match d {
        Direction::Debit => "d|"@,
        Direction::Credit => "c|"@,
    }
}

/// `{d|c}|{merchant, trimmed and lowercased}`.
pub open spec fn cache_key_text(merchant: Seq<char>, d: Direction) -> Seq<char> {
    direction_prefix(d) + normalize_label(merchant)
}

pub fn cache_key(merchant: &str, direction: Direction) -> (r: String)
    ensures
        r@ == cache_key_text(merchant@, direction),
{
    let mut out = match direction {
        Direction::Debit => string_of("d|"),
        Direction::Credit => string_of("c|"),
    };
    let norm = normalized_label(merchant);
    out.append(norm.as_str());
    out
}

/// Law: the two directions never share a key, whatever the merchant
/// strings.
pub proof fn law_key_separates_directions(a: Seq<char>, b: Seq<char>)
    ensures
        cache_key_text(a, Direction::Debit) != cache_key_text(b, Direction::Credit),
{
    reveal_strlit("d|");
    reveal_strlit("c|");
    let x = cache_key_text(a, Direction::Debit);
    let y = cache_key_text(b, Direction::Credit);
    assert(x[0] == 'd');
    assert(y[0] == 'c');
}

/// Law: within one direction, two merchant strings share a key exactly when
/// they are equal once trimmed and lowercased.
pub proof fn law_key_is_normalized_merchant(a: Seq<char>, b: Seq<char>, d: Direction)
    ensures
        (cache_key_text(a, d) == cache_key_text(b, d)) <==> (normalize_label(a)
            == normalize_label(b)),
{
    let p = direction_prefix(d);
    if cache_key_text(a, d) == cache_key_text(b, d) {
        assert(normalize_label(a) =~= cache_key_text(a, d).subrange(p.len() as int, cache_key_text(a, d).len() as int));
        assert(normalize_label(b) =~= cache_key_text(b, d).subrange(p.len() as int, cache_key_text(b, d).len() as int));
    }
}

// ---------------------------------------------------------------------------
// The cache
// ---------------------------------------------------------------------------

/// What was learnt about one merchant.
#[derive(Clone, Debug)]
pub struct MerchantCacheEntry {
    pub category: String,
    /// Where the category came from (`gemini`).
    pub source: String,
    /// RFC 3339 time of the lookup.
    pub looked_up_at: String,
}

/// One cached merchant: its key and entry.
#[derive(Clone, Debug)]
pub struct CachedMerchant {
    pub key: String,
    pub entry: MerchantCacheEntry,
}

/// The cache: one entry per key.
#[derive(Clone, Debug)]
pub struct MerchantCacheDoc {
    pub entries: Vec<CachedMerchant>,
}

/// An entry as texts: category, source, lookup time.
pub open spec fn entry_view(e: MerchantCacheEntry) -> (Seq<char>, Seq<char>, Seq<char>) {
    (e.category@, e.source@, e.looked_up_at@)
}

/// The cache as a map from key to entry.
pub open spec fn cache_map(entries: Seq<CachedMerchant>) -> Map<
    Seq<char>,
    (Seq<char>, Seq<char>, Seq<char>),
>
    decreases entries.len(),
{
    if entries.len() == 0 {
        Map::empty()
    } else {
        cache_map(entries.drop_last()).insert(entries.last().key@, entry_view(entries.last().entry))
    }
}

/// No key occurs twice.
pub open spec fn distinct_keys(entries: Seq<CachedMerchant>) -> bool {
    forall|i: int, j: int|
        0 <= i < entries.len() && 0 <= j < entries.len() && i != j ==> (#[trigger] entries[i]).key@
            != (#[trigger] entries[j]).key@
}

proof fn lemma_cache_map_lookup(entries: Seq<CachedMerchant>)
    requires
        distinct_keys(entries),
    ensures
        forall|k: Seq<char>|
            #[trigger] cache_map(entries).contains_key(k) <==> exists|j: int|
                0 <= j < entries.len() && (#[trigger] entries[j]).key@ == k,
        forall|j: int|
            0 <= j < entries.len() ==> cache_map(entries)[(#[trigger] entries[j]).key@]
                == entry_view(entries[j].entry),
    decreases entries.len(),
{
    if entries.len() > 0 {
        let p = entries.drop_last();
        assert(distinct_keys(p)) by {
            assert forall|i: int, j: int|
                0 <= i < p.len() && 0 <= j < p.len() && i != j implies (#[trigger] p[i]).key@
                != (#[trigger] p[j]).key@ by {
                assert(p[i] == entries[i]);
                assert(p[j] == entries[j]);
            }
        }
        lemma_cache_map_lookup(p);
        let n = entries.len() - 1;
        assert forall|k: Seq<char>|
            #[trigger] cache_map(entries).contains_key(k) <==> exists|j: int|
                0 <= j < entries.len() && (#[trigger] entries[j]).key@ == k by {
            if cache_map(entries).contains_key(k) {
                if k != entries[n].key@ {
                    assert(cache_map(p).contains_key(k));
                    let j = choose|j: int| 0 <= j < p.len() && (#[trigger] p[j]).key@ == k;
                    assert(entries[j] == p[j]);
                } else {
                    assert(entries[n].key@ == k);
                }
            }
            if exists|j: int| 0 <= j < entries.len() && (#[trigger] entries[j]).key@ == k {
                let j = choose|j: int| 0 <= j < entries.len() && (#[trigger] entries[j]).key@ == k;
                if j < n {
                    assert(p[j] == entries[j]);
                }
            }
        }
        assert forall|j: int| 0 <= j < entries.len() implies cache_map(entries)[(
        #[trigger] entries[j]).key@] == entry_view(entries[j].entry) by {
            if j < n {
                assert(p[j] == entries[j]);
                assert(entries[j].key@ != entries[n].key@);
            }
        }
    }
}

impl MerchantCacheDoc {
    pub open spec fn well_formed(&self) -> bool {
        distinct_keys(self.entries@)
    }

    /// The cache as a map from key to entry.
    pub open spec fn view_map(&self) -> Map<Seq<char>, (Seq<char>, Seq<char>, Seq<char>)> {
        cache_map(self.entries@)
    }

    /// An empty cache.
    pub fn new() -> (r: Self)
        ensures
            r.well_formed(),
            r.view_map() == Map::<Seq<char>, (Seq<char>, Seq<char>, Seq<char>)>::empty(),
    {
        let r = MerchantCacheDoc { entries: Vec::new() };
        assert(r.view_map() =~= Map::<Seq<char>, (Seq<char>, Seq<char>, Seq<char>)>::empty());
        r
    }

    fn position(&self, key: &str) -> (r: Option<usize>)
        ensures
            match r {
                Some(j) => j < self.entries@.len() && self.entries@[j as int].key@ == key@,
                None => forall|j: int|
                    0 <= j < self.entries@.len() ==> self.entries@[j].key@ != key@,
            },
    {
        let n = self.entries.len();
        let mut j: usize = 0;
        while j < n
            invariant
                0 <= j <= n,
                n == self.entries@.len(),
                forall|q: int| 0 <= q < j ==> self.entries@[q].key@ != key@,
            decreases n - j,
        {
            if str_eq(self.entries[j].key.as_str(), key) {
                return Some(j);
            }
            j = j + 1;
        }
        None
    }

    /// The entry cached under `key`, if any.
    pub fn get(&self, key: &str) -> (r: Option<&MerchantCacheEntry>)
        requires
            self.well_formed(),
        ensures
            match r {
                Some(e) => self.view_map().contains_key(key@) && entry_view(*e)
                    == self.view_map()[key@],
                None => !self.view_map().contains_key(key@),
            },
    {
        proof {
            lemma_cache_map_lookup(self.entries@);
        }
        match self.position(key) {
            Some(j) => Some(&self.entries[j].entry),
            None => None,
        }
    }

    /// Caches `entry` under `key`, replacing what was there.
    pub fn insert(&mut self, key: String, entry: MerchantCacheEntry)
        requires
            old(self).well_formed(),
        ensures
            final(self).well_formed(),
            final(self).view_map() == old(self).view_map().insert(key@, entry_view(entry)),
    {
        proof {
            lemma_cache_map_lookup(self.entries@);
        }
        let ghost before = self.entries@;
        match self.position(key.as_str()) {
            Some(j) => {
                let ghost kv = key@;
                let ghost ev = entry_view(entry);
                self.entries.set(j, CachedMerchant { key, entry });
                proof {
                    let after = self.entries@;
                    assert forall|a: int, b: int|
                        0 <= a < after.len() && 0 <= b < after.len() && a != b implies (
                        #[trigger] after[a]).key@ != (#[trigger] after[b]).key@ by {
                        if a != j && b != j {
                            assert(after[a] == before[a]);
                            assert(after[b] == before[b]);
                        } else if a == j {
                            assert(after[b] == before[b]);
                        } else {
                            assert(after[a] == before[a]);
                        }
                    }
                    lemma_cache_map_lookup(after);
                    assert(cache_map(after) =~= cache_map(before).insert(kv, ev)) by {
                        assert forall|k: Seq<char>| #[trigger]
                            cache_map(after).contains_key(k) == cache_map(before).insert(
                                kv,
                                ev,
                            ).contains_key(k) by {
                            if k == kv {
                                assert(after[j as int].key@ == kv);
                            }
                            if cache_map(before).contains_key(k) {
                                let q = choose|q: int|
                                    0 <= q < before.len() && (#[trigger] before[q]).key@ == k;
                                if q != j {
                                    assert(after[q] == before[q]);
                                }
                            }
                            if cache_map(after).contains_key(k) {
                                let q = choose|q: int|
                                    0 <= q < after.len() && (#[trigger] after[q]).key@ == k;
                                if q != j {
                                    assert(after[q] == before[q]);
                                }
                            }
                        }
                        assert forall|k: Seq<char>| #[trigger]
                            cache_map(after).contains_key(k) implies cache_map(after)[k]
                            == cache_map(before).insert(kv, ev)[k] by {
                            let q = choose|q: int|
                                0 <= q < after.len() && (#[trigger] after[q]).key@ == k;
                            if q != j {
                                assert(after[q] == before[q]);
                            }
                        }
                    }
                }
            },
            None => {
                let ghost kv = key@;
                self.entries.push(CachedMerchant { key, entry });
                proof {
                    let after = self.entries@;
                    assert(after.drop_last() =~= before);
                    assert forall|a: int, b: int|
                        0 <= a < after.len() && 0 <= b < after.len() && a != b implies (
                        #[trigger] after[a]).key@ != (#[trigger] after[b]).key@ by {
                        if a < before.len() && b < before.len() {
                            assert(after[a] == before[a]);
                            assert(after[b] == before[b]);
                        } else if a < before.len() {
                            assert(after[a] == before[a]);
                        } else {
                            assert(after[b] == before[b]);
                        }
                    }
                }
            },
        }
    }
}

} // verus!
