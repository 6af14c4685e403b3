use sxhkd_visualiser::error::ConfigError;
use sxhkd_visualiser::locator::{config_file_path, default_config_file_path};

#[test]
fn default_path_lies_below_the_home_directory() {
    assert_eq!(default_config_file_path("/home/user"), "/home/user/.config/sxhkd/sxhkdrc");
    assert_eq!(default_config_file_path(""), "/.config/sxhkd/sxhkdrc");
}

#[test]
fn given_location_is_taken_as_it_stands() {
    let path = config_file_path(Some("test_sxhkdrc".to_string()), Some("/home/user".to_string()));
    assert_eq!(path, Ok("test_sxhkdrc".to_string()));
    let path = config_file_path(Some("~/a b/../rc".to_string()), None);
    assert_eq!(path, Ok("~/a b/../rc".to_string()));
}

#[test]
fn without_a_location_the_default_is_used() {
    let path = config_file_path(None, Some("/home/user".to_string()));
    assert_eq!(path, Ok("/home/user/.config/sxhkd/sxhkdrc".to_string()));
}

#[test]
fn without_a_location_and_a_home_directory_there_is_no_path() {
    assert_eq!(config_file_path(None, None), Err(ConfigError::HomeNotSet));
}
