//! Launch dispatch: which shell action a resolved path calls for. The
//! actions themselves (spawning processes, opening the file manager) are
//! the host's side of the boundary; the rule choosing among them is the
//! library's.

use crate::shims;
use crate::shims::lower_of;
use crate::strutil;
use vstd::prelude::*;

verus! {

/// How a path should be opened.
#[derive(Debug, PartialEq, Eq, Structural, Clone, Copy)]
pub enum LaunchMethod {
    /// Run the file itself as a program.
    DirectExe,
    /// Hand the path to the shell's default-open machinery (also used
    /// for shortcuts, which the shell resolves).
    ShellOpen,
    /// Show the directory in the file manager.
    Explorer,
}

/// The dispatch rule: executables run directly, shortcuts go through
/// the shell, extensionless directories open in the file manager, and
/// everything else goes to its default handler.
pub open spec fn spec_launch_method(el: Seq<char>, is_dir: bool) -> LaunchMethod {
    if el == "exe"@ {
        LaunchMethod::DirectExe
    } else if el == "lnk"@ {
        LaunchMethod::ShellOpen
    } else if el.len() == 0 && is_dir {
        LaunchMethod::Explorer
    } else {
        LaunchMethod::ShellOpen
    }
}

/// Choose how to open a path from its extension (compared without
/// case) and whether it is a directory.
pub fn launch_method(extension: &str, is_dir: bool) -> (r: LaunchMethod)
    ensures
        r == spec_launch_method(lower_of(extension@), is_dir),
{
    let el = shims::to_lower(extension);
    if strutil::str_eq(el.as_str(), "exe") {
        LaunchMethod::DirectExe
    } else if strutil::str_eq(el.as_str(), "lnk") {
        LaunchMethod::ShellOpen
    } else if el.as_str().unicode_len() == 0 && is_dir {
        LaunchMethod::Explorer
    } else {
        LaunchMethod::ShellOpen
    }
}

} // verus!
