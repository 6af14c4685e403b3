//! What can go wrong while a configuration is located and read.

use vstd::prelude::*;
use vstd::string::StringExecFns;

verus! {

/// Why no list of hotkeys could be produced.
#[derive(Debug, PartialEq, Eq)]
pub enum ConfigError {
    /// No path was given and the home directory is not known.
    HomeNotSet,
    /// The lines ran out before the command of `hotkey` was complete.
    MissingCommand { hotkey: String },
}

impl ConfigError {
    /// The text of [`ConfigError::message`].
    pub open spec fn message_text(self) -> Seq<char> {
        match self {
            ConfigError::HomeNotSet => "Can not get HOME env variable"@,
            ConfigError::MissingCommand { hotkey } => {
                "malformed configuration: missing command for hotkey `"@ + hotkey@ + "`"@
            },
        }
    }

    /// One line for the user that names the error and, for a hotkey without a
    /// command, the hotkey.
    pub fn message(&self) -> (r: String)
        ensures
            r@ == self.message_text(),
    {
        match self {
            ConfigError::HomeNotSet => String::from_str("Can not get HOME env variable"),
            ConfigError::MissingCommand { hotkey } => {
                let mut text = String::from_str(
                    "malformed configuration: missing command for hotkey `",
                );
                text.append(hotkey.as_str());
                text.append("`");
                text
            },
        }
    }
}

} // verus!
