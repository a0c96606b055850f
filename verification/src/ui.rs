//! The choices that steer the user interface, and how they are read from
//! the configuration.

use vstd::prelude::*;
use vstd::string::*;

verus! {

/// Whether output is coloured.
#[derive(Clone, Copy, Debug, PartialEq, Eq, Structural)]
pub enum ColorChoice {
    Always,
    Never,
    Auto,
}

/// Whether long output goes through a pager.
#[derive(Clone, Copy, Debug, PartialEq, Eq, Structural)]
pub enum PaginationChoice {
    No,
    Auto,
}

impl Default for ColorChoice {
    fn default() -> (choice: Self)
        ensures
            choice == ColorChoice::Auto,
    {
        ColorChoice::Auto
    }
}

impl Default for PaginationChoice {
    fn default() -> (choice: Self)
        ensures
            choice == PaginationChoice::Auto,
    {
        PaginationChoice::Auto
    }
}

/// The choice that a word names, if it names one.
pub open spec fn named_choice(word: Seq<char>) -> Option<ColorChoice> {
    if word == "always"@ {
        Some(ColorChoice::Always)
    } else if word == "never"@ {
        Some(ColorChoice::Never)
    } else if word == "auto"@ {
        Some(ColorChoice::Auto)
    } else {
        None
    }
}

/// Whether two strings hold the same characters.
pub fn str_eq(a: &str, b: &str) -> (same: bool)
    ensures
        same == (a@ == b@),
{
    let n = a.unicode_len();
    if n != b.unicode_len() {
        return false;
    }
    let mut i: usize = 0;
    while i < n
        invariant
            n == a@.len(),
            n == b@.len(),
            i <= n,
            forall|j: int| 0 <= j < i ==> a@[j] == b@[j],
        decreases n - i,
    {
        if a.get_char(i) != b.get_char(i) {
            return false;
        }
        i += 1;
    }
    assert(a@ =~= b@);
    true
}

impl ColorChoice {
    /// The word that names the choice.
    pub open spec fn name(self) -> Seq<char> {
        match self {
            ColorChoice::Always => "always"@,
            ColorChoice::Never => "never"@,
            ColorChoice::Auto => "auto"@,
        }
    }

    /// Reads a choice from its name; any other word is an error.
    pub fn from_str(s: &str) -> (parsed: Result<ColorChoice, &'static str>)
        ensures
            match parsed {
                Ok(choice) => named_choice(s@) == Some(choice),
                Err(message) => named_choice(s@).is_none() && message@
                    == "must be one of always, never, or auto"@,
            },
    {
        if str_eq(s, "always") {
            Ok(ColorChoice::Always)
        } else if str_eq(s, "never") {
            Ok(ColorChoice::Never)
        } else if str_eq(s, "auto") {
            Ok(ColorChoice::Auto)
        } else {
            Err("must be one of always, never, or auto")
        }
    }

    /// The name of the choice.
    pub fn to_string(&self) -> (word: String)
        ensures
            word@ == self.name(),
    {
        match self {
            ColorChoice::Always => "always".to_owned(),
            ColorChoice::Never => "never".to_owned(),
            ColorChoice::Auto => "auto".to_owned(),
        }
    }
}

impl std::str::FromStr for ColorChoice {
    type Err = &'static str;
    /// Reads a choice from its name; any other word is an error.
    fn from_str(s: &str) -> (parsed: Result<Self, Self::Err>)
        ensures
            match parsed {
                Ok(choice) => named_choice(s@) == Some(choice),
                Err(message) => named_choice(s@).is_none() && message@
                    == "must be one of always, never, or auto"@,
            },
    {
        ColorChoice::from_str(s)
    }
}

/// Every choice is read back from its own name.
pub proof fn name_reads_back(choice: ColorChoice)
    ensures
        named_choice(choice.name()) == Some(choice),
{
    reveal_strlit("always");
    reveal_strlit("never");
    reveal_strlit("auto");
    assert("always"@.len() == 6);
    assert("never"@.len() == 5);
    assert("auto"@.len() == 4);
}

/// Whether to colour the output: as chosen, and left to the terminal where
/// the choice is `Auto`.
pub fn use_color(choice: ColorChoice, stdout_is_tty: bool) -> (on: bool)
    ensures
        on == match choice {
            ColorChoice::Always => true,
            ColorChoice::Never => false,
            ColorChoice::Auto => stdout_is_tty,
        },
{
    match choice {
        ColorChoice::Always => true,
        ColorChoice::Never => false,
        ColorChoice::Auto => stdout_is_tty,
    }
}

/// Whether a request for the pager starts one: pagination is allowed, none
/// runs yet, and the output is a terminal.
pub fn should_page(paginate: PaginationChoice, paged: bool, stdout_is_tty: bool) -> (start: bool)
    ensures
        start == (paginate != PaginationChoice::No && !paged && stdout_is_tty),
{
    match paginate {
        PaginationChoice::No => false,
        PaginationChoice::Auto => !paged && stdout_is_tty,
    }
}

/// Whether to show progress: it is switched on and the output is a terminal.
pub fn use_progress_indicator(setting: bool, stdout_is_tty: bool) -> (on: bool)
    ensures
        on == (setting && stdout_is_tty),
{
    setting && stdout_is_tty
}

/// The characters of an optional string.
pub open spec fn text_of(value: Option<String>) -> Option<Seq<char>> {
    match value {
        Some(s) => Some(s@),
        None => None,
    }
}

/// The colour choice that a configured value stands for: the choice that it
/// names, or the default where it is missing or names none.
pub open spec fn chosen_color(value: Option<Seq<char>>) -> ColorChoice {
    match value {
        Some(word) => match named_choice(word) {
            Some(choice) => choice,
            None => ColorChoice::Auto,
        },
        None => ColorChoice::Auto,
    }
}

/// The colour choice for the configured value of `ui.color`.
pub fn choose_color(value: Option<String>) -> (choice: ColorChoice)
    ensures
        choice == chosen_color(text_of(value)),
{
    match value {
        Some(word) => match ColorChoice::from_str(word.as_str()) {
            Ok(choice) => choice,
            Err(_) => ColorChoice::default(),
        },
        None => ColorChoice::default(),
    }
}

/// The pager command for the configured value of `ui.pager`: the value, or
/// `less` where there is none.
pub fn choose_pager(value: Option<String>) -> (command: String)
    ensures
        command@ == match value {
            Some(s) => s@,
            None => "less"@,
        },
{
    match value {
        Some(command) => command,
        None => "less".to_owned(),
    }
}

/// The progress setting for the configured value of `ui.progress-indicator`:
/// the value, or on where there is none.
pub fn choose_progress_indicator(value: Option<bool>) -> (on: bool)
    ensures
        on == match value {
            Some(b) => b,
            None => true,
        },
{
    match value {
        Some(on) => on,
        None => true,
    }
}

} // verus!
