//! Rules for stored per-profile documents: the schema-version gate every
//! document passes when read, and the user's saved categorization rules.

use crate::stamps::{hex_text, random_id};
use crate::text::{nat_text, push_nat, str_eq, string_of, trim, trim_seq};
use vstd::prelude::*;

verus! {

pub open spec fn schema_error_text(what: Seq<char>, found: u32) -> Seq<char> {
    what + " has unsupported schema version "@ + nat_text(found as nat)
}

/// A stored document is read only when written with the expected schema
/// version.
pub fn check_schema_version(found: u32, expected: u32, what: &str) -> (r: Result<(), String>)
    ensures
        r.is_ok() == (found == expected),
        match r {
            Ok(()) => true,
            Err(e) => e@ == schema_error_text(what@, found),
        },
{
    if found == expected {
        Ok(())
    } else {
        let mut msg = string_of(what);
        msg.append(" has unsupported schema version ");
        push_nat(&mut msg, found as u128);
        Err(msg)
    }
}

/// Largest sealed transactions file that is decrypted and read (16 MiB).
pub const MAX_SEALED_TXN_BYTES: usize = 16777216;

pub open spec fn oversize_text(import_id: Seq<char>, len: nat) -> Seq<char> {
    "import "@ + import_id + " has an unexpectedly large transactions file ("@ + nat_text(len)
        + " bytes); refusing to load"@
}

/// A sealed transactions file is read only up to the size cap.
pub fn check_sealed_size(import_id: &str, len: usize) -> (r: Result<(), String>)
    ensures
        r.is_ok() == (len <= MAX_SEALED_TXN_BYTES),
        match r {
            Ok(()) => true,
            Err(e) => e@ == oversize_text(import_id@, len as nat),
        },
{
    if len <= MAX_SEALED_TXN_BYTES {
        Ok(())
    } else {
        let mut msg = string_of("import ");
        msg.append(import_id);
        msg.append(" has an unexpectedly large transactions file (");
        push_nat(&mut msg, len as u128);
        msg.append(" bytes); refusing to load");
        Err(msg)
    }
}

// ---------------------------------------------------------------------------
// Saved categorization rules
// ---------------------------------------------------------------------------

/// The match value and category a new rule is saved with: both trimmed,
/// neither may be blank.
pub fn rule_fields(match_value: &str, category: &str) -> (r: Result<(String, String), String>)
    ensures
        match r {
            Ok((v, c)) => v@ == trim_seq(match_value@) && c@ == trim_seq(category@) && v@.len() > 0
                && c@.len() > 0,
            Err(e) => (trim_seq(match_value@).len() == 0 || trim_seq(category@).len() == 0) && e@
                == "match value and category are required"@,
        },
{
    let v = trim(match_value);
    let c = trim(category);
    if v.unicode_len() == 0 || c.unicode_len() == 0 {
        return Err(string_of("match value and category are required"));
    }
    Ok((string_of(v), string_of(c)))
}

/// A fresh rule id: `user:` and six random bytes in hex.
pub fn make_rule_id() -> (r: String)
    ensures
        exists|b: Seq<u8>| b.len() == 6 && r@ == "user:"@ + hex_text(b),
{
    random_id("user:")
}

/// Positions, below `k`, of the rules whose id is not `id`, in order.
pub open spec fn kept_positions(ids: Seq<String>, id: Seq<char>, k: int) -> Seq<int>
    decreases k,
{
    if k <= 0 {
        Seq::empty()
    } else if ids[k - 1]@ != id {
        kept_positions(ids, id, k - 1).push(k - 1)
    } else {
        kept_positions(ids, id, k - 1)
    }
}

pub open spec fn rule_missing_text(id: Seq<char>) -> Seq<char> {
    "rule "@ + id + " not found"@
}

/// Deleting the rule `rule_id`, given every rule's id: the positions of the
/// rules that stay; fails when no rule has that id.
pub fn rules_kept_after_delete(ids: &Vec<String>, rule_id: &str) -> (r: Result<Vec<usize>, String>)
    ensures
        match r {
            Ok(keep) => (exists|q: int| 0 <= q < ids@.len() && (#[trigger] ids@[q])@ == rule_id@)
                && keep@.len() == kept_positions(ids@, rule_id@, ids@.len() as int).len()
                && forall|j: int|
                0 <= j < keep@.len() ==> #[trigger] keep@[j] == kept_positions(
                    ids@,
                    rule_id@,
                    ids@.len() as int,
                )[j],
            Err(e) => (forall|q: int| 0 <= q < ids@.len() ==> (#[trigger] ids@[q])@ != rule_id@)
                && e@ == rule_missing_text(rule_id@),
        },
{
    let n = ids.len();
    let mut keep: Vec<usize> = Vec::new();
    let mut found = false;
    let mut i: usize = 0;
    while i < n
        invariant
            0 <= i <= n,
            n == ids@.len(),
            found == exists|q: int| 0 <= q < i && (#[trigger] ids@[q])@ == rule_id@,
            keep@.len() == kept_positions(ids@, rule_id@, i as int).len(),
            forall|j: int|
                0 <= j < keep@.len() ==> #[trigger] keep@[j] == kept_positions(
                    ids@,
                    rule_id@,
                    i as int,
                )[j],
        decreases n - i,
    {
        if str_eq(ids[i].as_str(), rule_id) {
            found = true;
        } else {
            keep.push(i);
        }
        i = i + 1;
    }
    if !found {
        let mut msg = string_of("rule ");
        msg.append(rule_id);
        msg.append(" not found");
        return Err(msg);
    }
    Ok(keep)
}

} // verus!
