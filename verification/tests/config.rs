use std::path::PathBuf;
use sysmon::config::{config_path, load_config_file, Config, Environment};
use sysmon::text::join_path;

fn empty_env() -> Environment {
    Environment {
        openrgb_host: None,
        openrgb_port: None,
        openrgb_device: None,
        aio_zone: None,
        aio_leds: None,
        cpu_temp_zone: None,
        gpu_temp_zone: None,
    }
}

#[test]
fn defaults_without_settings() {
    let config = Config::load(&empty_env(), None);
    assert_eq!(config.openrgb_host, "127.0.0.1");
    assert_eq!(config.openrgb_port, 6742);
    assert!(config.openrgb_device.is_none());
    assert!(config.aio_zone.is_none());
    assert!(config.aio_leds.is_none());
    assert!(config.cpu_temp_zone.is_none());
    assert!(config.gpu_temp_zone.is_none());
}

#[test]
fn settings_come_from_the_file() {
    let file = "openrgb_host=10.0.0.1\nopenrgb_port=7000\nopenrgb_device=ASRock\n\
                aio_zone=Addressable Header 3/Audio\naio_leds=24\ncpu_temp_zone=PCB\n\
                gpu_temp_zone=IO Cover\n";
    let config = Config::load(&empty_env(), Some(file));
    assert_eq!(config.openrgb_host, "10.0.0.1");
    assert_eq!(config.openrgb_port, 7000);
    assert_eq!(config.openrgb_device.as_deref(), Some("ASRock"));
    assert_eq!(config.aio_zone.as_deref(), Some("Addressable Header 3/Audio"));
    assert_eq!(config.aio_leds, Some(24));
    assert_eq!(config.cpu_temp_zone.as_deref(), Some("PCB"));
    assert_eq!(config.gpu_temp_zone.as_deref(), Some("IO Cover"));
}

#[test]
fn the_environment_wins_over_the_file() {
    let mut env = empty_env();
    env.openrgb_host = Some("  ".to_string());
    env.openrgb_port = Some("1".to_string());
    env.aio_zone = Some(" left ".to_string());
    env.aio_leds = Some("many".to_string());
    let file = "openrgb_host=h\nopenrgb_port=2\naio_zone=right\naio_leds=3";
    let config = Config::load(&env, Some(file));
    // A blank text does not count, and a text is taken as it is.
    assert_eq!(config.openrgb_host, "h");
    assert_eq!(config.openrgb_port, 1);
    assert_eq!(config.aio_zone.as_deref(), Some(" left "));
    // What is no number hides the file too.
    assert_eq!(config.aio_leds, None);
}

#[test]
fn numbers_that_do_not_fit_are_not_set() {
    let config = Config::load(&empty_env(), Some("openrgb_port=65536\naio_leds=-1"));
    assert_eq!(config.openrgb_port, 6742);
    assert_eq!(config.aio_leds, None);
    let config = Config::load(&empty_env(), Some("openrgb_port=+65535\naio_leds=007"));
    assert_eq!(config.openrgb_port, 65535);
    assert_eq!(config.aio_leds, Some(7));
}

#[test]
fn lines_of_the_file() {
    let file = "# comment\r\n\r\n  Key = \"a = b\"  \r\nno equals\n=value\nempty=\nq='\"x\"'\n\
                Key=second\nquoted=\"\"\nlast=1";
    let values = load_config_file(Some(file));
    assert_eq!(values.get("key").as_deref(), Some("second"));
    assert_eq!(values.get("Key"), None);
    assert_eq!(values.get("empty"), None);
    assert_eq!(values.get(""), None);
    assert_eq!(values.get("q").as_deref(), Some("\"x\""));
    assert_eq!(values.get("quoted"), None);
    assert_eq!(values.get("last").as_deref(), Some("1"));
    assert_eq!(load_config_file(None).get("last"), None);

    let first = load_config_file(Some("Key = \"a = b\""));
    assert_eq!(first.get("key").as_deref(), Some("a = b"));
}

#[test]
fn the_file_is_looked_for() {
    assert_eq!(config_path(Some(" /etc/s.env\n"), Some("/root")).as_deref(), Some("/etc/s.env"));
    assert_eq!(
        config_path(Some("  "), Some("/root")).as_deref(),
        Some("/root/.config/sysmon/config.env")
    );
    assert_eq!(
        config_path(None, Some("/")).as_deref(),
        Some("/.config/sysmon/config.env")
    );
    assert_eq!(config_path(None, None), None);
    assert_eq!(config_path(Some("x"), None).as_deref(), Some("x"));
}

#[test]
fn paths_join_as_the_standard_library_joins_them() {
    for base in ["", "/", "a", "a/", "/home/u", "/home/u//", "\u{e9}"] {
        let expected = PathBuf::from(base).join("x/y");
        assert_eq!(join_path(base, "x/y"), expected.to_str().unwrap());
    }
}
