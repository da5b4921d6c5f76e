use cloudsearch::config::AppConfig;

#[test]
fn test_normalize_intervals_resets_zeros() {
    let mut config = AppConfig {
        refresh_interval_secs: 0,
        flush_interval_secs: 0,
        merge_interval_secs: 0,
        retention_interval_secs: 0,
        ..Default::default()
    };
    config.normalize_intervals();
    assert_eq!(config.refresh_interval_secs, 1);
    assert_eq!(config.flush_interval_secs, 30);
    assert_eq!(config.merge_interval_secs, 60);
    assert_eq!(config.retention_interval_secs, 60);
}

#[test]
fn test_normalize_intervals_preserves_nonzero() {
    let mut config = AppConfig {
        refresh_interval_secs: 2,
        flush_interval_secs: 15,
        merge_interval_secs: 90,
        retention_interval_secs: 120,
        ..Default::default()
    };
    config.normalize_intervals();
    assert_eq!(config.refresh_interval_secs, 2);
    assert_eq!(config.flush_interval_secs, 15);
    assert_eq!(config.merge_interval_secs, 90);
    assert_eq!(config.retention_interval_secs, 120);
}
