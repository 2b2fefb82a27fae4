//! The editor's settings.
use vstd::prelude::*;

verus! {

/// Settings read at start-up.
#[derive(Clone, Debug)]
pub struct Config {
    /// The font file that renders lyrics.
    pub font_path: String,
}

impl Config {
    pub fn new(font_path: String) -> (r: Config)
        ensures
            r.font_path@ == font_path@,
    {
        Config { font_path }
    }
}

} // verus!
