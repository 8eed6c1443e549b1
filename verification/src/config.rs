use vstd::prelude::*;
use vstd::string::*;

verus! {

/// The configuration key under which the discretion setting is stored; the
/// backend reads and writes it in the repository's configuration.
pub fn utmost_discretion_key() -> (r: &'static str)
    ensures
        r@ == "gitbutler.utmostDiscretion"@,
{
    "gitbutler.utmostDiscretion"
}

/// Whether the repository has utmost discretion enabled, given the value the
/// backend read from its configuration: enabled exactly when the key is set
/// to "true".
pub fn has_utmost_discretion(config_value: &Option<String>) -> (r: bool)
    ensures
        r == (config_value matches Some(v) && v@ == "true"@),
{
    match config_value {
        Some(v) => {
            let t = String::from_str("true");
            v.eq(&t)
        },
        None => false,
    }
}

/// The configuration value to store for the given discretion setting; the
/// backend writes it under the discretion key, locally.
pub fn set_utmost_discretion(value: bool) -> (r: &'static str)
    ensures
        value ==> r@ == "true"@,
        !value ==> r@ == "false"@,
{
    if value {
        "true"
    } else {
        "false"
    }
}

} // verus!
