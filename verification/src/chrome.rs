//! Paths of the browser profile's stores within a profile directory.

use vstd::prelude::*;
use vstd::string::*;

verus! {

/// Path of the preferences document within the profile directory `dir`.
pub fn preferences(dir: &str) -> (r: String)
    ensures
        r@ == dir@ + "Preferences"@,
{
    let mut s = String::from_str(dir);
    s.append("Preferences");
    s
}

/// Path of the visit-history store within the profile directory `dir`.
pub fn history(dir: &str) -> (r: String)
    ensures
        r@ == dir@ + "History"@,
{
    let mut s = String::from_str(dir);
    s.append("History");
    s
}

} // verus!
