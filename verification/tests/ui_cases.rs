use config::Config;
use linemerge::settings::{color_setting, pager_setting, progress_indicator_setting};
use linemerge::ui::{
    choose_color, choose_pager, choose_progress_indicator, should_page, str_eq, use_color,
    use_progress_indicator, ColorChoice, PaginationChoice,
};

fn config_with(key: &str, value: &str) -> Config {
    Config::builder()
        .set_override(key, value)
        .unwrap()
        .build()
        .unwrap()
}

#[test]
fn color_choice_is_read_from_its_name() {
    assert_eq!(ColorChoice::from_str("always"), Ok(ColorChoice::Always));
    assert_eq!(ColorChoice::from_str("never"), Ok(ColorChoice::Never));
    assert_eq!(ColorChoice::from_str("auto"), Ok(ColorChoice::Auto));
    assert_eq!("never".parse::<ColorChoice>(), Ok(ColorChoice::Never));
}

#[test]
fn other_words_name_no_color_choice() {
    let message = "must be one of always, never, or auto";
    assert_eq!(ColorChoice::from_str(""), Err(message));
    assert_eq!(ColorChoice::from_str("Always"), Err(message));
    assert_eq!(ColorChoice::from_str("auto "), Err(message));
    assert_eq!("sometimes".parse::<ColorChoice>(), Err(message));
}

#[test]
fn color_choice_names_read_back() {
    for choice in [ColorChoice::Always, ColorChoice::Never, ColorChoice::Auto] {
        assert_eq!(ColorChoice::from_str(&choice.to_string()), Ok(choice));
    }
    assert_eq!(ColorChoice::Always.to_string(), "always");
    assert_eq!(ColorChoice::Never.to_string(), "never");
    assert_eq!(ColorChoice::Auto.to_string(), "auto");
}

#[test]
fn defaults_are_auto() {
    assert_eq!(ColorChoice::default(), ColorChoice::Auto);
    assert_eq!(PaginationChoice::default(), PaginationChoice::Auto);
}

#[test]
fn str_eq_compares_characters() {
    assert!(str_eq("", ""));
    assert!(str_eq("h\u{e9}", "h\u{e9}"));
    assert!(!str_eq("ab", "abc"));
    assert!(!str_eq("abc", "abd"));
}

#[test]
fn color_follows_the_terminal_only_on_auto() {
    assert!(use_color(ColorChoice::Always, false));
    assert!(use_color(ColorChoice::Always, true));
    assert!(!use_color(ColorChoice::Never, true));
    assert!(!use_color(ColorChoice::Never, false));
    assert!(use_color(ColorChoice::Auto, true));
    assert!(!use_color(ColorChoice::Auto, false));
}

#[test]
fn the_pager_starts_once_on_a_terminal() {
    assert!(should_page(PaginationChoice::Auto, false, true));
    assert!(!should_page(PaginationChoice::Auto, true, true));
    assert!(!should_page(PaginationChoice::Auto, false, false));
    assert!(!should_page(PaginationChoice::No, false, true));
}

#[test]
fn progress_needs_a_terminal() {
    assert!(use_progress_indicator(true, true));
    assert!(!use_progress_indicator(true, false));
    assert!(!use_progress_indicator(false, true));
}

#[test]
fn configured_values_fall_back() {
    assert_eq!(choose_color(None), ColorChoice::Auto);
    assert_eq!(choose_color(Some("never".to_string())), ColorChoice::Never);
    assert_eq!(choose_color(Some("purple".to_string())), ColorChoice::Auto);
    assert_eq!(choose_pager(None), "less");
    assert_eq!(choose_pager(Some("more -s".to_string())), "more -s");
    assert!(choose_progress_indicator(None));
    assert!(!choose_progress_indicator(Some(false)));
}

#[test]
fn settings_are_read_from_the_configuration() {
    let config = config_with("ui.color", "always");
    assert_eq!(color_setting(&config), ColorChoice::Always);
    assert_eq!(pager_setting(&config), "less");
    assert!(progress_indicator_setting(&config));

    let config = config_with("ui.pager", "most");
    assert_eq!(color_setting(&config), ColorChoice::Auto);
    assert_eq!(pager_setting(&config), "most");

    let config = config_with("ui.progress-indicator", "false");
    assert!(!progress_indicator_setting(&config));

    let config = config_with("ui.color", "bright");
    assert_eq!(color_setting(&config), ColorChoice::Auto);
}

#[test]
fn an_empty_configuration_gives_the_defaults() {
    let config = Config::builder().build().unwrap();
    assert_eq!(color_setting(&config), ColorChoice::Auto);
    assert_eq!(pager_setting(&config), "less");
    assert!(progress_indicator_setting(&config));
}
