//! Folders that may hold a WoW installation.
use vstd::prelude::*;

use crate::types::InstallCandidate;

verus! {

/// The label of an install folder: its own name, or `World of Warcraft`
/// when it has none that is valid text.
pub open spec fn install_label(file_name: Option<Seq<char>>) -> Seq<char> {
    match file_name {
        Some(n) => n,
        None => "World of Warcraft"@,
    }
}

/// The candidate for the folder displayed as `path`, whose own name is
/// `file_name`, and which holds a `.build.info` file or not.
pub fn candidate(path: String, file_name: Option<String>, has_build_info: bool) -> (r: InstallCandidate)
    ensures
        r.path@ == path@,
        r.label@ == install_label(
            match file_name {
                Some(n) => Some(n@),
                None => None,
            },
        ),
        r.has_build_info == has_build_info,
{
    let label = match file_name {
        Some(n) => n,
        None => "World of Warcraft".to_owned(),
    };
    InstallCandidate { path, label, has_build_info }
}

} // verus!
