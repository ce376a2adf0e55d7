//! Auto-clean decision policy: a pure function of the currently measured
//! size, the configured threshold, the enabled flag, and the time elapsed
//! since the last completed clean.

use vstd::prelude::*;

verus! {

/// Minimum time that must elapse after a clean before another automatic
/// clean may fire, in milliseconds.
pub const AUTO_CLEAN_COOLDOWN_MS: u64 = 30000;

/// User-supplied cleaning configuration: a size threshold in bytes and a
/// flag enabling automatic cleaning. A threshold expressed in binary
/// gigabytes corresponds to `gb * 0x4000_0000` bytes.
#[derive(Clone, Copy, PartialEq, Eq, Structural, Debug)]
pub struct ThresholdConfig {
    pub threshold_bytes: u64,
    pub auto_clean_enabled: bool,
}

/// The auto-clean decision: clean exactly when the policy is enabled, no
/// clean happened within the cooldown window, and the measured size has
/// reached the threshold (inclusive).
pub open spec fn should_auto_clean_spec(
    current_size_bytes: u64,
    threshold_bytes: u64,
    auto_clean_enabled: bool,
    last_clean_age_ms: Option<u64>,
) -> bool {
    &&& auto_clean_enabled
    &&& match last_clean_age_ms {
        Some(age) => age >= AUTO_CLEAN_COOLDOWN_MS,
        None => true,
    }
    &&& current_size_bytes >= threshold_bytes
}

impl Default for ThresholdConfig {
    /// Default configuration: a 10 binary-gigabyte threshold with automatic
    /// cleaning enabled.
    fn default() -> (c: Self)
        ensures
            c.threshold_bytes == 10737418240u64,
            c.auto_clean_enabled,
    {
        ThresholdConfig { threshold_bytes: 10737418240u64, auto_clean_enabled: true }
    }
}

impl ThresholdConfig {
    /// Decides whether an automatic clean should run now, given the measured
    /// aggregate size and the elapsed time since the last clean (`None` when
    /// no clean has happened yet in this process lifetime).
    pub fn should_auto_clean(&self, current_size_bytes: u64, last_clean_age_ms: Option<u64>) -> (r:
        bool)
        ensures
            r == should_auto_clean_spec(
                current_size_bytes,
                self.threshold_bytes,
                self.auto_clean_enabled,
                last_clean_age_ms,
            ),
    {
        if !self.auto_clean_enabled {
            return false;
        }
        if let Some(age) = last_clean_age_ms {
            if age < AUTO_CLEAN_COOLDOWN_MS {
                return false;
            }
        }
        current_size_bytes >= self.threshold_bytes
    }
}

/// A clean that happened less than the cooldown window ago blocks an
/// automatic clean, whatever the measured size and threshold are.
pub proof fn lemma_cooldown_blocks(
    current_size_bytes: u64,
    threshold_bytes: u64,
    auto_clean_enabled: bool,
    age_ms: u64,
)
    requires
        age_ms < AUTO_CLEAN_COOLDOWN_MS,
    ensures
        !should_auto_clean_spec(
            current_size_bytes,
            threshold_bytes,
            auto_clean_enabled,
            Some(age_ms),
        ),
{
}

/// The threshold is inclusive: a measured size exactly equal to the
/// threshold triggers an automatic clean whenever the policy is enabled and
/// the cooldown window has passed (or no clean has happened yet).
pub proof fn lemma_threshold_inclusive(size_bytes: u64, last_clean_age_ms: Option<u64>)
    requires
        match last_clean_age_ms {
            Some(age) => age >= AUTO_CLEAN_COOLDOWN_MS,
            None => true,
        },
    ensures
        should_auto_clean_spec(size_bytes, size_bytes, true, last_clean_age_ms),
{
}

/// A disabled policy never cleans, whatever the sizes and elapsed time are.
pub proof fn lemma_disabled_never_cleans(
    current_size_bytes: u64,
    threshold_bytes: u64,
    last_clean_age_ms: Option<u64>,
)
    ensures
        !should_auto_clean_spec(current_size_bytes, threshold_bytes, false, last_clean_age_ms),
{
}

} // verus!
