//! Well-known names on disk: the tool's working subdirectory and its files.

use vstd::prelude::*;
use vstd::string::StringExecFns;

verus! {

/// The name of the tool's working subdirectory.
pub open spec fn spec_pkgs_dir_name() -> Seq<char> {
    ".pkgs"@
}

/// The name of the declaration document.
pub open spec fn spec_config_file_name() -> Seq<char> {
    "pkgs.toml"@
}

/// The name of the persisted trace file.
pub open spec fn spec_trace_file_name() -> Seq<char> {
    "trace.toml"@
}

pub fn pkgs_dir_name() -> (r: String)
    ensures
        r@ == spec_pkgs_dir_name(),
{
    String::from_str(".pkgs")
}

pub fn config_file_name() -> (r: String)
    ensures
        r@ == spec_config_file_name(),
{
    String::from_str("pkgs.toml")
}

pub fn trace_file_name() -> (r: String)
    ensures
        r@ == spec_trace_file_name(),
{
    String::from_str("trace.toml")
}

} // verus!
