//! Arguments of the command that lists known repositories.

use vstd::prelude::*;

verus! {

/// List known repositories.
pub struct CommandArgs {
    /// Pattern to match against repo names.
    pattern: Option<String>,
}

impl CommandArgs {
    pub fn new(pattern: Option<String>) -> (r: CommandArgs)
        ensures
            r.spec_pattern() == pattern,
    {
        CommandArgs { pattern }
    }

    pub closed spec fn spec_pattern(&self) -> Option<String> {
        self.pattern
    }

    /// Pattern to match against repo names, if any.
    pub fn pattern(&self) -> (r: Option<&str>)
        ensures
            r is Some <==> self.spec_pattern() is Some,
            r matches Some(p) ==> p@ == self.spec_pattern()->0@,
    {
        match &self.pattern {
            Some(p) => Some(p.as_str()),
            None => None,
        }
    }
}

} // verus!
