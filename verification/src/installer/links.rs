//! Choosing how files are linked.
use vstd::prelude::*;

use crate::installer::types::LinkKind;

verus! {

/// Determines which kind of link leads from a file to a directory, given the
/// devices that they are on, where those could be found.
///
/// Hard links are preferred as they are faster to create, cannot dangle and
/// survive renames of the store directory.  Across devices, or where a device
/// is not known, a symbolic link is used.
pub fn determine_link_type(src_dev: Option<u64>, dest_dev: Option<u64>) -> (r: LinkKind)
    ensures
        r == (if src_dev is Some && dest_dev == src_dev && src_dev->0 != 0 {
            LinkKind::Hardlink
        } else {
            LinkKind::Symlink
        }),
{
    match (src_dev, dest_dev) {
        (Some(src), Some(dest)) => {
            if src != 0 && src == dest {
                LinkKind::Hardlink
            } else {
                LinkKind::Symlink
            }
        },
        _ => LinkKind::Symlink,
    }
}

} // verus!
