//! Resolution of the search root from the two configuration values the
//! caller may supply, and the error reported when neither is present.

use vstd::prelude::*;

verus! {

/// Neither of the two root-location configuration values was supplied.
#[derive(PartialEq, Eq, Structural, Clone, Copy, Debug)]
pub enum ConfigError {
    NoLocation,
}

/// Where the search starts: the configured location, and whether a fixed
/// `src` segment must still be appended to it before the path is resolved.
pub struct RootChoice {
    pub location: String,
    pub append_src: bool,
}

impl RootChoice {
    /// Picks the search root from the two optional configuration values.
    ///
    /// The first value wins when both are set, and only a root taken from
    /// the first value gets the extra `src` segment; a root taken from the
    /// second value is used as given.  When neither is set, resolution
    /// fails.
    pub fn resolve(primary: Option<String>, fallback: Option<String>) -> (r: Result<
        RootChoice,
        ConfigError,
    >)
        ensures
            match r {
                Ok(c) => {
                    &&& primary is Some ==> c.location@ == primary->0@ && c.append_src
                    &&& primary is None ==> fallback is Some && c.location@ == fallback->0@
                        && !c.append_src
                },
                Err(e) => primary is None && fallback is None && e == ConfigError::NoLocation,
            },
    {
        match primary {
            Some(loc) => Ok(RootChoice { location: loc, append_src: true }),
            None => match fallback {
                Some(loc) => Ok(RootChoice { location: loc, append_src: false }),
                None => Err(ConfigError::NoLocation),
            },
        }
    }
}

} // verus!
