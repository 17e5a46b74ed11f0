//! Stable names, and the forking that derives two child names from one.

use adapton::engine::Name;
use vstd::prelude::*;

verus! {

/// `adapton::engine::Name`, carried through as an opaque value.
#[verifier::external_type_specification]
#[verifier::external_body]
pub struct ExName(Name);

/// The pair of names that `adapton::engine::name_fork` derives from `n`.
pub uninterp spec fn name_fork_spec(n: Name) -> (Name, Name);

/// `adapton::engine::name_fork`: the two names it returns depend on the
/// name given and on nothing else.
pub assume_specification[ adapton::engine::name_fork ](n: Name) -> (r: (Name, Name))
    ensures
        r == name_fork_spec(n),
;

/// `<adapton::engine::Name as Clone>::clone`: the clone is the same name.
pub assume_specification[ <Name as Clone>::clone ](n: &Name) -> (r: Name)
    ensures
        r == *n,
;

/// The two optional names forked from an optional name: none from none.
pub open spec fn fork_spec(n: Option<Name>) -> (Option<Name>, Option<Name>) {
    match n {
        None => (None, None),
        Some(x) => (Some(name_fork_spec(x).0), Some(name_fork_spec(x).1)),
    }
}

/// A second copy of an optional name.
pub fn clone_name(n: &Option<Name>) -> (r: Option<Name>)
    ensures
        r == *n,
{
    match n {
        None => None,
        Some(x) => Some(x.clone()),
    }
}

/// Forks an optional name into two.
pub fn fork(n: Option<Name>) -> (r: (Option<Name>, Option<Name>))
    ensures
        r == fork_spec(n),
{
    match n {
        None => (None, None),
        Some(x) => {
            let (l, r) = adapton::engine::name_fork(x);
            (Some(l), Some(r))
        },
    }
}

} // verus!
