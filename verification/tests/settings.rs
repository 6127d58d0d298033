//! Tests of the per-tool configuration values.

use textstream::head::{Config as HeadConfig, Limit};
use textstream::uniq::Config as UniqConfig;

#[test]
fn uniq_config_holds_its_settings() {
    let config = UniqConfig { in_file: "-".to_string(), out_file: None, count: false };
    assert_eq!(config.in_file, "-");
    assert!(config.out_file.is_none());
    assert!(!config.count);
}

#[test]
fn head_byte_budget_replaces_line_budget() {
    let with_bytes = HeadConfig { files: vec!["-".to_string()], lines: 10, bytes: Some(3) };
    assert_eq!(with_bytes.limit(), Limit::Bytes(3));

    let without = HeadConfig { files: vec!["-".to_string()], lines: 10, bytes: None };
    assert_eq!(without.limit(), Limit::Lines(10));
}
