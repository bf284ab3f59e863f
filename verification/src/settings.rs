//! Persistent application settings (API key, printer calibration offset).
//!
//! The settings file itself is read and written by the application; the
//! library decides what the settings mean: the defaults when the file cannot
//! be used, which API key is in effect, and how the key is set and cleared.

use vstd::prelude::*;
use crate::text::{string_from_chars, trim, trimmed, chars_of};

verus! {

/// Application settings.
#[derive(Debug, Clone)]
pub struct Settings {
    /// OpenAI API key. `None` means "use the OPENAI_API_KEY environment
    /// variable if any".
    pub openai_api_key: Option<String>,
    /// Printer calibration offset in ms (positive = send print earlier).
    pub printer_offset_ms: Option<i64>,
}

impl Default for Settings {
    fn default() -> (s: Self)
        ensures
            s.openai_api_key is None,
            s.printer_offset_ms is None,
    {
        Settings { openai_api_key: None, printer_offset_ms: None }
    }
}

/// The text of an optional string.
pub open spec fn opt_text(o: Option<String>) -> Option<Seq<char>> {
    match o {
        Some(s) => Some(s@),
        None => None,
    }
}

/// The API key in effect: the one in the settings when it is non-empty,
/// else the environment's when that is non-empty, else none.
pub open spec fn effective_api_key(stored: Option<Seq<char>>, env: Option<Seq<char>>) -> Option<
    Seq<char>,
> {
    match stored {
        Some(k) if k.len() > 0 => Some(k),
        _ => match env {
            Some(e) if e.len() > 0 => Some(e),
            _ => None,
        },
    }
}

/// Whether the key and where it came from are reported as `"settings"`.
pub open spec fn stored_key_set(stored: Option<Seq<char>>) -> bool {
    stored matches Some(k) && k.len() > 0
}

/// Whether the environment holds a non-empty key.
pub open spec fn env_key_set(env: Option<Seq<char>>) -> bool {
    env matches Some(e) && e.len() > 0
}

/// Whether an API key is available, and where from.
#[derive(Debug, Clone, Copy, PartialEq, Eq)]
pub struct ApiKeyStatus {
    pub configured: bool,
    /// `"settings"`, `"env"` or `"none"`.
    pub source: &'static str,
}


impl Settings {
    /// The settings in effect given what reading the settings file gave:
    /// the stored settings when the file could be read and decoded, the
    /// defaults otherwise (a missing file, an unreadable or malformed one).
    pub fn load(stored: Option<Settings>) -> (s: Settings)
        ensures
            match stored {
                Some(st) => s == st,
                None => s.openai_api_key is None && s.printer_offset_ms is None,
            },
    {
        match stored {
            Some(st) => st,
            None => Settings::default(),
        }
    }

    /// Effective API key: the settings value first, the environment's
    /// `OPENAI_API_KEY` (passed in as `env_key`) as fallback; empty keys do
    /// not count.
    pub fn resolve_api_key(&self, env_key: Option<String>) -> (r: Option<String>)
        ensures
            opt_text(r) == effective_api_key(opt_text(self.openai_api_key), opt_text(env_key)),
    {
        if let Some(k) = &self.openai_api_key {
            if !k.as_str().is_empty() {
                return Some(k.clone());
            }
        }
        match env_key {
            Some(e) => if e.as_str().is_empty() {
                None
            } else {
                Some(e)
            },
            None => None,
        }
    }

    /// Whether a key is configured and where it comes from: `"settings"`
    /// when the settings hold a non-empty key, else `"env"` when the
    /// environment does, else `"none"`.
    pub fn api_key_status(&self, env_key: Option<String>) -> (r: ApiKeyStatus)
        ensures
            stored_key_set(opt_text(self.openai_api_key)) ==> r.configured && r.source@
                == "settings"@,
            !stored_key_set(opt_text(self.openai_api_key)) && env_key_set(opt_text(env_key))
                ==> r.configured && r.source@ == "env"@,
            !stored_key_set(opt_text(self.openai_api_key)) && !env_key_set(opt_text(env_key))
                ==> !r.configured && r.source@ == "none"@,
    {
        let stored = match &self.openai_api_key {
            Some(k) => !k.as_str().is_empty(),
            None => false,
        };
        if stored {
            return ApiKeyStatus { configured: true, source: "settings" };
        }
        let env = match &env_key {
            Some(e) => !e.as_str().is_empty(),
            None => false,
        };
        if env {
            ApiKeyStatus { configured: true, source: "env" }
        } else {
            ApiKeyStatus { configured: false, source: "none" }
        }
    }

    /// Store `key`, trimmed; a key that is blank is refused.
    pub fn set_api_key(&mut self, key: &str) -> (r: Result<(), String>)
        ensures
            r is Err <==> trim(key@).len() == 0,
            r matches Err(e) ==> e@ == "empty key"@ && *final(self) == *old(self),
            r is Ok ==> opt_text(final(self).openai_api_key) == Some(trim(key@))
                && final(self).printer_offset_ms == old(self).printer_offset_ms,
    {
        let cs = chars_of(key);
        let n = cs.len();
        assert(cs@.subrange(0, n as int) =~= cs@);
        let t = trimmed(cs.as_slice(), 0, n);
        if t.len() == 0 {
            return Err("empty key".to_owned());
        }
        self.openai_api_key = Some(string_from_chars(t.as_slice()));
        Ok(())
    }

    /// Forget the stored key (the environment's, if any, applies again).
    pub fn clear_api_key(&mut self)
        ensures
            final(self).openai_api_key is None,
            final(self).printer_offset_ms == old(self).printer_offset_ms,
    {
        self.openai_api_key = None;
    }
}

/// With no usable stored key, clearing and resolving gives the environment's
/// key; setting a non-blank key makes it the effective one whatever the
/// environment holds.
pub proof fn lemma_key_precedence(key: Seq<char>, env: Option<Seq<char>>)
    ensures
        effective_api_key(None, env) == (if env_key_set(env) {
            env
        } else {
            None
        }),
        trim(key).len() > 0 ==> effective_api_key(Some(trim(key)), env) == Some(trim(key)),
{
}

} // verus!
