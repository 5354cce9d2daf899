//! Per-profile settings for categorization by a language model, what the UI
//! is shown of them (never the API key itself), and how an update applies.

use crate::text::{byte_len, byte_len_at_most, string_of, trim, trim_seq};
use vstd::prelude::*;

verus! {

pub open spec fn default_model_text() -> Seq<char> {
    "gemini-2.0-flash"@
}

/// The default model: cheap, fast, structured-output capable.
pub fn default_model() -> (r: String)
    ensures
        r@ == default_model_text(),
{
    string_of("gemini-2.0-flash")
}

pub struct LlmConfig {
    pub enabled: bool,
    pub model: String,
    pub api_key: String,
}

impl Default for LlmConfig {
    /// Disabled, the default model, no key.
    fn default() -> (r: Self)
        ensures
            !r.enabled,
            r.model@ == default_model_text(),
            r.api_key@.len() == 0,
    {
        LlmConfig { enabled: false, model: default_model(), api_key: String::new() }
    }
}

/// What the UI receives: the key is reduced to a hint.
pub struct LlmConfigView {
    pub enabled: bool,
    pub model: String,
    /// Empty when no key is set; otherwise `•••` and, for keys longer than
    /// six bytes, their last four characters.
    pub api_key_hint: String,
    pub api_key_set: bool,
}

/// The last (at most) four characters of a text.
pub open spec fn last_four(s: Seq<char>) -> Seq<char> {
    s.subrange(
        if s.len() >= 4 {
            s.len() - 4
        } else {
            0
        },
        s.len() as int,
    )
}

/// The hint shown for an API key.
pub open spec fn key_hint(key: Seq<char>) -> Seq<char> {
    if key.len() == 0 {
        Seq::empty()
    } else if byte_len(key) <= 6 {
        "•••"@
    } else {
        "•••"@ + last_four(key)
    }
}

pub fn to_view(cfg: &LlmConfig) -> (r: LlmConfigView)
    ensures
        r.enabled == cfg.enabled,
        r.model@ == cfg.model@,
        r.api_key_set == (cfg.api_key@.len() > 0),
        r.api_key_hint@ == key_hint(cfg.api_key@),
{
    let key = cfg.api_key.as_str();
    let n = key.unicode_len();
    let hint = if n == 0 {
        String::new()
    } else if byte_len_at_most(key, 6) {
        string_of("•••")
    } else {
        let start = if n >= 4 {
            n - 4
        } else {
            0
        };
        let mut h = string_of("•••");
        h.append(key.substring_char(start, n));
        h
    };
    LlmConfigView {
        enabled: cfg.enabled,
        model: cfg.model.clone(),
        api_key_hint: hint,
        api_key_set: n > 0,
    }
}

/// Law: the hint is empty, a bare `•••`, or `•••` followed by at most the
/// key's last four characters.
pub proof fn law_hint_reveals_at_most_four(key: Seq<char>)
    ensures
        last_four(key).len() <= 4,
        last_four(key) == key.subrange(key.len() - last_four(key).len(), key.len() as int),
        key_hint(key) == Seq::<char>::empty() || key_hint(key) == "•••"@ || key_hint(key) == "•••"@
            + last_four(key),
{
}

/// A partial change of the settings. For the key, `Some("")` clears it and
/// `None` leaves it.
pub struct LlmConfigUpdate {
    pub enabled: Option<bool>,
    pub model: Option<String>,
    pub api_key: Option<String>,
}

/// Which fields an update touched, for the audit log (never the key).
pub struct LlmConfigChanges {
    pub enabled_changed: bool,
    pub model_changed: bool,
    pub api_key_changed: bool,
    pub api_key_cleared: bool,
}

/// The model after an update: a given name, trimmed, unless it is blank.
pub open spec fn updated_model(old_model: Seq<char>, m: Option<String>) -> Seq<char> {
    match m {
        Some(s) => if trim_seq(s@).len() > 0 {
            trim_seq(s@)
        } else {
            old_model
        },
        None => old_model,
    }
}

/// Applies an update: each given field replaces the stored one (a blank
/// model name is ignored); absent fields stay as they were.
pub fn apply_update(cfg: &mut LlmConfig, update: LlmConfigUpdate) -> (r: LlmConfigChanges)
    ensures
        final(cfg).enabled == match update.enabled {
            Some(e) => e,
            None => old(cfg).enabled,
        },
        final(cfg).model@ == updated_model(old(cfg).model@, update.model),
        final(cfg).api_key@ == match update.api_key {
            Some(k) => k@,
            None => old(cfg).api_key@,
        },
        r.enabled_changed == update.enabled.is_some(),
        r.model_changed == update.model.is_some(),
        r.api_key_changed == update.api_key.is_some(),
        r.api_key_cleared == match update.api_key {
            Some(k) => k@.len() == 0,
            None => false,
        },
{
    let changes = LlmConfigChanges {
        enabled_changed: update.enabled.is_some(),
        model_changed: update.model.is_some(),
        api_key_changed: update.api_key.is_some(),
        api_key_cleared: match &update.api_key {
            Some(k) => k.as_str().unicode_len() == 0,
            None => false,
        },
    };
    match update.enabled {
        Some(e) => {
            cfg.enabled = e;
        },
        None => {},
    }
    match update.model {
        Some(m) => {
            let t = trim(m.as_str());
            if t.unicode_len() > 0 {
                cfg.model = string_of(t);
            }
        },
        None => {},
    }
    match update.api_key {
        Some(k) => {
            cfg.api_key = k;
        },
        None => {},
    }
    changes
}

} // verus!
