use rust_crypto_orderbook::config::{Config, ConfigError};

#[test]
fn defaults_are_usable_with_no_environment() {
    let c = Config::default();
    assert_eq!(c.port, 50051);
    assert_eq!(c.host, "127.0.0.1");
    assert_eq!(c.pair, "ethbtc");
}

#[test]
fn invalid_port_is_an_error_not_a_fallback() {
    let err = Config::from_vars(None, None, Some("not-a-number".to_string()), None).unwrap_err();
    assert!(matches!(err, ConfigError::InvalidPort(_)));
}

#[test]
fn settings_override_defaults_and_flags_override_settings() {
    let c = Config::from_vars(
        Some("debug".to_string()),
        Some("0.0.0.0".to_string()),
        Some("12345".to_string()),
        Some("btcusd".to_string()),
    )
    .expect("valid settings");
    assert_eq!(c.log_level, "debug");
    assert_eq!(c.host, "0.0.0.0");
    assert_eq!(c.port, 12345);
    assert_eq!(c.pair, "btcusd");

    let c = Config::from_vars(None, None, Some("1".to_string()), None)
        .expect("valid settings")
        .with_overrides(None, Some(12345));
    assert_eq!(c.port, 12345);
    assert_eq!(c.log_level, "info");

    let c = Config::default().with_overrides(Some("ethusd".to_string()), None);
    assert_eq!(c.pair, "ethusd");
    assert_eq!(c.port, 50051);
}

#[test]
fn the_invalid_port_error_carries_the_raw_value() {
    match Config::from_vars(None, None, Some("70000".to_string()), None) {
        Err(ConfigError::InvalidPort(raw)) => assert_eq!(raw, "70000"),
        Ok(_) => panic!("70000 is not a port"),
    }
}

#[test]
fn the_invalid_port_message_names_the_setting_and_quotes_the_value() {
    let err = ConfigError::InvalidPort("not-a-number".to_string());
    assert_eq!(err.message(), "ORDERBOOK_PORT is not a valid port number: \"not-a-number\"");
}
