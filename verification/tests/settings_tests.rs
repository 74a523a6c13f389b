use shortener::app_settings::settings;
use shortener::app_settings::{resolve_settings, AppSettings, SettingsError};

fn settings_of(port: u16, len: usize) -> AppSettings {
    AppSettings { port, max_shortened_len: len, store_dir: "data".to_string() }
}

#[test]
fn settings_in_range_are_valid() {
    assert_eq!(settings_of(0, 1).validate(), Ok(()));
    assert_eq!(settings_of(9999, 7).validate(), Ok(()));
    assert_eq!(settings_of(3000, 6).validate(), Ok(()));
}

#[test]
fn each_setting_out_of_range_is_reported() {
    assert_eq!(settings_of(10000, 6).validate(), Err(vec![SettingsError::PortOutOfRange]));
    assert_eq!(settings_of(3000, 0).validate(), Err(vec![SettingsError::MaxShortenedLenOutOfRange]));
    assert_eq!(settings_of(3000, 8).validate(), Err(vec![SettingsError::MaxShortenedLenOutOfRange]));
    assert_eq!(
        settings_of(65535, 100).validate(),
        Err(vec![SettingsError::PortOutOfRange, SettingsError::MaxShortenedLenOutOfRange])
    );
}

#[test]
fn resolved_settings_are_read_back() {
    let mut slot: Option<AppSettings> = None;
    assert_eq!(resolve_settings(&mut slot, settings_of(8080, 6)), Ok(()));
    assert_eq!(settings::port(&slot), 8080);
    assert_eq!(settings::max_shortened_len(&slot), 6);
    assert_eq!(settings::get(&slot).store_dir, "data");
}

#[test]
fn invalid_settings_are_not_installed() {
    let mut slot: Option<AppSettings> = None;
    assert_eq!(resolve_settings(&mut slot, settings_of(8080, 9)), Err(vec![SettingsError::MaxShortenedLenOutOfRange]));
    assert!(slot.is_none());
}

#[test]
fn init_then_get() {
    let mut slot: Option<AppSettings> = None;
    settings::init(&mut slot, settings_of(1234, 3));
    assert_eq!(settings::get(&slot), &settings_of(1234, 3));
}
