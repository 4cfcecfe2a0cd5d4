use vstd::prelude::*;

use crate::text::str_eq;

verus! {

/// The name of the routine that processes metadata
pub const METADATA_ROUTINE: &'static str = "meta";

/// The name of the routine that processes properties
pub const PROPERTIES_ROUTINE: &'static str = "properties";

/// The name of the routine that does installation
pub const INSTALL_ROUTINE: &'static str = "install";

/// The name of the routine that does uninstallation
pub const UNINSTALL_ROUTINE: &'static str = "uninstall";

/// Whether a routine name is one of the names reserved for the package manager
pub open spec fn spec_is_reserved(routine: Seq<char>) -> bool {
    routine == "meta"@ || routine == "properties"@ || routine == "install"@ || routine
        == "uninstall"@
}

/// Whether a routine may call other routines
pub open spec fn spec_can_call_routines(routine: Seq<char>) -> bool {
    routine != "meta"@ && routine != "properties"@
}

/// Returns if a routine name is reserved for use by the package manager
pub fn is_reserved(routine: &str) -> (r: bool)
    ensures
        r == spec_is_reserved(routine@),
{
    str_eq(routine, METADATA_ROUTINE) || str_eq(routine, PROPERTIES_ROUTINE) || str_eq(
        routine,
        INSTALL_ROUTINE,
    ) || str_eq(routine, UNINSTALL_ROUTINE)
}

/// Returns if a routine can call other routines
pub fn can_call_routines(routine: &str) -> (r: bool)
    ensures
        r == spec_can_call_routines(routine@),
{
    !str_eq(routine, METADATA_ROUTINE) && !str_eq(routine, PROPERTIES_ROUTINE)
}

} // verus!
