//! The user interface settings, read from a `config::Config`.

use vstd::prelude::*;
use crate::ui::{ColorChoice, chosen_color, text_of, choose_color, choose_pager, choose_progress_indicator};

verus! {

/// `config::Config`, a set of configuration values. Its contents are not
/// visible to the verifier.
#[verifier::external_type_specification]
#[verifier::external_body]
pub struct ExConfig(config::Config);

/// The string that `config::Config::get_string` finds under `key`, or
/// `None` where it reports an error: the key is missing or malformed, or
/// its value is a table, an array or nil.
pub uninterp spec fn string_at(config: config::Config, key: Seq<char>) -> Option<Seq<char>>;

/// The boolean that `config::Config::get_bool` finds under `key`, or `None`
/// where it reports an error.
pub uninterp spec fn bool_at(config: config::Config, key: Seq<char>) -> Option<bool>;

/// Calls `config::Config::get_string` and drops the error. The contract
/// claims only that the outcome is a function of the configuration and the
/// key, which it names `string_at`.
#[verifier::external_body]
fn config_string(config: &config::Config, key: &str) -> (value: Option<String>)
    ensures
        text_of(value) == string_at(*config, key@),
{
    config.get_string(key).ok()
}

/// Calls `config::Config::get_bool` and drops the error. The contract claims
/// only that the outcome is a function of the configuration and the key,
/// which it names `bool_at`.
#[verifier::external_body]
fn config_bool(config: &config::Config, key: &str) -> (value: Option<bool>)
    ensures
        value == bool_at(*config, key@),
{
    config.get_bool(key).ok()
}

/// The colour choice under `ui.color`; the default where the key is not set
/// or names no choice.
pub fn color_setting(config: &config::Config) -> (choice: ColorChoice)
    ensures
        choice == chosen_color(string_at(*config, "ui.color"@)),
{
    choose_color(config_string(config, "ui.color"))
}

/// The pager command under `ui.pager`; `less` where the key is not set.
pub fn pager_setting(config: &config::Config) -> (command: String)
    ensures
        command@ == match string_at(*config, "ui.pager"@) {
            Some(s) => s,
            None => "less"@,
        },
{
    choose_pager(config_string(config, "ui.pager"))
}

/// The setting under `ui.progress-indicator`; on where the key is not set.
pub fn progress_indicator_setting(config: &config::Config) -> (on: bool)
    ensures
        on == match bool_at(*config, "ui.progress-indicator"@) {
            Some(b) => b,
            None => true,
        },
{
    choose_progress_indicator(config_bool(config, "ui.progress-indicator"))
}

} // verus!
