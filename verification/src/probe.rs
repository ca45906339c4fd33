//! Where a connect probe goes for the address that a listener is bound to.

use vstd::prelude::*;

use crate::text;

verus! {

/// The two families of addresses.
#[derive(Debug, Clone, Copy, PartialEq, Eq, Structural)]
pub enum Family {
    V4,
    V6,
}

/// The family of the address in a hint: brackets stand round the sixth
/// version's, and a wildcard is taken for the fourth's.
pub open spec fn family_of(hint: Seq<char>) -> Family {
    if hint.len() > 0 && hint[0] == '[' {
        Family::V6
    } else {
        Family::V4
    }
}

/// The family's address of this machine.
pub open spec fn loopback_of(f: Family) -> Seq<char> {
    match f {
        Family::V4 => "127.0.0.1"@,
        Family::V6 => "::1"@,
    }
}

/// The family of the address in a hint.
pub fn family(hint: &str) -> (r: Family)
    ensures
        r == family_of(hint@),
{
    let v = text::chars_of(hint);
    if v.len() > 0 && v[0] == '[' {
        Family::V6
    } else {
        Family::V4
    }
}

/// Where a probe goes: to this machine, by the family of the hint, whatever
/// address the hint holds.
pub fn host(hint: &str) -> (r: String)
    ensures
        r@ == loopback_of(family_of(hint@)),
{
    match family(hint) {
        Family::V4 => "127.0.0.1".to_owned(),
        Family::V6 => "::1".to_owned(),
    }
}

/// A probe always goes to this machine: by the sixth version where the hint is in
/// brackets, else by the fourth.
pub proof fn probes_stay_on_this_machine(hint: Seq<char>)
    ensures
        loopback_of(family_of(seq!['['] + hint)) == "::1"@,
        hint.len() == 0 || hint[0] != '[' ==> loopback_of(family_of(hint)) == "127.0.0.1"@,
{
}

} // verus!
