//! Metadata of the `debugrefreshconfig` command.

use vstd::prelude::*;

verus! {

/// Names under which the command can be invoked, separated by `|`.
pub fn aliases() -> (r: &'static str)
    ensures
        r@ == "debugrefreshconfig|debugdynamicconfig"@,
{
    "debugrefreshconfig|debugdynamicconfig"
}

/// One-line help text of the command.
pub fn doc() -> (r: &'static str)
    ensures
        r@ == "refresh the internal configuration"@,
{
    "refresh the internal configuration"
}

/// Usage line of the command: it has none beyond its name.
pub fn synopsis() -> (r: Option<&'static str>)
    ensures
        r is None,
{
    None
}

} // verus!
