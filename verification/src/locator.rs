//! Where the configuration file lives.

use crate::error::ConfigError;
use vstd::prelude::*;
use vstd::string::StringExecFns;

verus! {

/// The configuration file of a user whose home directory is `home`:
/// `.config/sxhkd/sxhkdrc` below it.
pub open spec fn default_location(home: Seq<char>) -> Seq<char> {
    home + "/.config/sxhkd/sxhkdrc"@
}

/// The path that [`config_file_path`] settles on, or `None` where it cannot settle on
/// one: a path that was given wins, as it stands; else the default below `home`.
pub open spec fn resolved_location(given: Option<Seq<char>>, home: Option<Seq<char>>) -> Option<
    Seq<char>,
> {
    match (given, home) {
        (Some(path), _) => Some(path),
        (None, Some(home)) => Some(default_location(home)),
        (None, None) => None,
    }
}

/// The path of the configuration file of the user whose home directory is `home`.
pub fn default_config_file_path(home: &str) -> (path: String)
    ensures
        path@ == default_location(home@),
{
    let mut path = String::from_str(home);
    path.append("/.config/sxhkd/sxhkdrc");
    path
}

/// The path of the configuration file to read. A location that the caller gives is
/// taken as it stands. Without one the file is looked for below the home directory,
/// and not knowing that directory is an error.
pub fn config_file_path(config_file_location: Option<String>, home: Option<String>) -> (r: Result<
    String,
    ConfigError,
>)
    ensures
        match resolved_location(config_file_location.deep_view(), home.deep_view()) {
            Some(path) => r matches Ok(found) && found@ == path,
            None => r == Err::<String, ConfigError>(ConfigError::HomeNotSet),
        },
        config_file_location matches Some(given) ==> r == Ok::<String, ConfigError>(given),
{
    match config_file_location {
        Some(given) => Ok(given),
        None => match home {
            Some(home) => Ok(default_config_file_path(home.as_str())),
            None => Err(ConfigError::HomeNotSet),
        },
    }
}

} // verus!
