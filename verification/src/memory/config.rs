//! Settings of addressable memory.
use crate::secure::EncryptionKey;
use crate::text;
use std::str::FromStr;
use vstd::prelude::*;
use vstd::string::*;

verus! {

/// What compaction leaves of old observations.
#[derive(Debug, Clone, Copy, PartialEq, Eq, Structural)]
pub enum MemoryMode {
    PointerPriority,
    Summary,
    Hybrid,
}

/// The mode that a setting names, whatever its case and the space around it.
pub open spec fn mode_of(value: Seq<char>) -> Option<MemoryMode> {
    let word = text::ascii_lowercase(text::trim(value));
    if word == "pointer_priority"@ || word == "pointer-priority"@ {
        Some(MemoryMode::PointerPriority)
    } else if word == "summary"@ {
        Some(MemoryMode::Summary)
    } else if word == "hybrid"@ {
        Some(MemoryMode::Hybrid)
    } else {
        None
    }
}

impl MemoryMode {
    /// The mode that a setting names.
    pub fn parse(value: &str) -> (r: Result<MemoryMode, String>)
        ensures
            match r {
                Ok(mode) => mode_of(value@) == Some(mode),
                Err(message) => mode_of(value@) is None && message@
                    == "memory.mode must be pointer_priority, summary, or hybrid"@,
            },
    {
        let trimmed = text::trim_of(value);
        let word = text::ascii_lowercase_of(trimmed.as_str());
        if text::same(word.as_str(), "pointer_priority") || text::same(
            word.as_str(),
            "pointer-priority",
        ) {
            Ok(MemoryMode::PointerPriority)
        } else if text::same(word.as_str(), "summary") {
            Ok(MemoryMode::Summary)
        } else if text::same(word.as_str(), "hybrid") {
            Ok(MemoryMode::Hybrid)
        } else {
            Err("memory.mode must be pointer_priority, summary, or hybrid".to_owned())
        }
    }
}

impl FromStr for MemoryMode {
    type Err = String;

    fn from_str(value: &str) -> Result<MemoryMode, String> {
        MemoryMode::parse(value)
    }
}

pub struct MemoryConfig {
    pub enabled: bool,
    pub mode: MemoryMode,
    pub recall_rate_limit: usize,
    pub recall_per_turn_limit: usize,
    pub max_recall_tokens: usize,
    pub max_inline_tool_tokens: usize,
    pub hot_cache_size: usize,
    pub auto_pin_important: bool,
    pub max_auto_pins: usize,
    pub max_records: usize,
    pub max_store_bytes: u64,
    pub retention_days: u64,
    pub encryption_key: Option<EncryptionKey>,
}

impl Default for MemoryConfig {
    fn default() -> (r: MemoryConfig)
        ensures
            r.enabled,
            r.mode == MemoryMode::Hybrid,
            r.recall_rate_limit == 12,
            r.recall_per_turn_limit == 3,
            r.max_recall_tokens == 4096,
            r.max_inline_tool_tokens == 8192,
            r.hot_cache_size == 32,
            r.auto_pin_important,
            r.max_auto_pins == 32,
            r.max_records == 10000,
            r.max_store_bytes == 64 * 1024 * 1024,
            r.retention_days == 30,
            r.encryption_key is None,
    {
        MemoryConfig {
            enabled: true,
            mode: MemoryMode::Hybrid,
            // The per-turn limit is what stops a single turn from spiralling.
            // The per-minute limit only has to catch a loop that spans turns,
            // so it is set to several turns' worth: turns are fast, and a cap
            // near the per-turn limit would reject legitimate work in the
            // second turn of a minute rather than any runaway.
            recall_rate_limit: 12,
            recall_per_turn_limit: 3,
            // Two recalls cover one full inline threshold, leaving a third for
            // anything else the turn needs. Keep that relationship in mind
            // before raising `max_inline_tool_tokens` on its own: past it, a
            // pointerized observation can no longer be read back in one turn.
            max_recall_tokens: 4096,
            // Roughly the tool output limit's worth of ASCII. The two limits
            // are meant to land together: below this an observation is shown
            // in full, above it only a head plus a citation survives.
            max_inline_tool_tokens: 8192,
            hot_cache_size: 32,
            auto_pin_important: true,
            max_auto_pins: 32,
            max_records: 10000,
            max_store_bytes: 64 * 1024 * 1024,
            retention_days: 30,
            encryption_key: None,
        }
    }
}

impl MemoryConfig {
    /// A copy of these settings.
    pub fn copy(&self) -> (r: MemoryConfig)
        ensures
            r.enabled == self.enabled,
            r.mode == self.mode,
            r.recall_rate_limit == self.recall_rate_limit,
            r.recall_per_turn_limit == self.recall_per_turn_limit,
            r.max_recall_tokens == self.max_recall_tokens,
            r.max_inline_tool_tokens == self.max_inline_tool_tokens,
            r.hot_cache_size == self.hot_cache_size,
            r.auto_pin_important == self.auto_pin_important,
            r.max_auto_pins == self.max_auto_pins,
            r.max_records == self.max_records,
            r.max_store_bytes == self.max_store_bytes,
            r.retention_days == self.retention_days,
            text::opt(r.encryption_key) == text::opt(self.encryption_key),
    {
        MemoryConfig {
            enabled: self.enabled,
            mode: self.mode,
            recall_rate_limit: self.recall_rate_limit,
            recall_per_turn_limit: self.recall_per_turn_limit,
            max_recall_tokens: self.max_recall_tokens,
            max_inline_tool_tokens: self.max_inline_tool_tokens,
            hot_cache_size: self.hot_cache_size,
            auto_pin_important: self.auto_pin_important,
            max_auto_pins: self.max_auto_pins,
            max_records: self.max_records,
            max_store_bytes: self.max_store_bytes,
            retention_days: self.retention_days,
            encryption_key: match &self.encryption_key {
                Some(key) => Some(key.copy()),
                None => None,
            },
        }
    }
}

} // verus!
