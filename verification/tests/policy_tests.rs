use cache_manager::policy::AUTO_CLEAN_COOLDOWN_MS;
use cache_manager::policy::ThresholdConfig;

const GIB: u64 = 1073741824;

#[test]
fn cooldown_blocks_then_allows() {
    let config = ThresholdConfig { threshold_bytes: GIB, auto_clean_enabled: true };
    let five_gb = 5 * GIB;
    assert!(!config.should_auto_clean(five_gb, Some(10000)));
    assert!(config.should_auto_clean(five_gb, Some(31000)));
}

#[test]
fn cooldown_boundary_is_inclusive() {
    let config = ThresholdConfig { threshold_bytes: GIB, auto_clean_enabled: true };
    assert!(!config.should_auto_clean(5 * GIB, Some(AUTO_CLEAN_COOLDOWN_MS - 1)));
    assert!(config.should_auto_clean(5 * GIB, Some(AUTO_CLEAN_COOLDOWN_MS)));
}

#[test]
fn threshold_is_inclusive() {
    let config = ThresholdConfig { threshold_bytes: 3 * GIB, auto_clean_enabled: true };
    assert!(config.should_auto_clean(3 * GIB, None));
    assert!(config.should_auto_clean(3 * GIB, Some(40000)));
    assert!(!config.should_auto_clean(3 * GIB - 1, None));
}

#[test]
fn disabled_policy_never_cleans() {
    let config = ThresholdConfig { threshold_bytes: GIB, auto_clean_enabled: false };
    assert!(!config.should_auto_clean(100 * GIB, None));
    assert!(!config.should_auto_clean(100 * GIB, Some(1000000)));
    assert!(!config.should_auto_clean(0, Some(5)));
}

#[test]
fn first_clean_needs_no_cooldown() {
    let config = ThresholdConfig { threshold_bytes: GIB, auto_clean_enabled: true };
    assert!(config.should_auto_clean(2 * GIB, None));
    assert!(!config.should_auto_clean(GIB - 1, None));
}

#[test]
fn default_config_is_ten_gigabytes_enabled() {
    let config = ThresholdConfig::default();
    assert_eq!(config.threshold_bytes, 10 * GIB);
    assert!(config.auto_clean_enabled);
}

#[test]
fn cooldown_constant_is_thirty_seconds() {
    assert_eq!(AUTO_CLEAN_COOLDOWN_MS, 30000);
}
