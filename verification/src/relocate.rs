//! The relocator's decision: where one classified file lands, under which
//! name. The move itself (an atomic rename) happens outside; this function
//! fixes the destination directory and picks the collision-free name from a
//! listing of the names the destination holds at move time.

use vstd::prelude::*;
use crate::tree::path_child;
use crate::names::name_taken;
use crate::names::numbered_name;
use crate::names::resolve_collision;

verus! {

/// Picks the destination for a file named `file_name` classified under
/// `category`: the directory is `canonical/category`, and the name is
/// `file_name` itself when the destination does not hold it yet, else its
/// first free numbered variant — an existing file is never overwritten.
pub fn plan_move(
    file_name: &String,
    category: &String,
    canonical: &Vec<String>,
    existing: &Vec<String>,
) -> (r: (Vec<String>, String))
    requires
        existing@.len() < u64::MAX,
    ensures
        r.0.deep_view() == canonical.deep_view().push(category@),
        !name_taken(existing.deep_view(), r.1@),
        !name_taken(existing.deep_view(), file_name@) ==> r.1@ == file_name@,
        name_taken(existing.deep_view(), file_name@) ==> exists|k: nat|
            1 <= k && r.1@ == numbered_name(file_name@, k) && !name_taken(
                existing.deep_view(),
                numbered_name(file_name@, k),
            ) && forall|j: nat|
                1 <= j < k ==> name_taken(
                    existing.deep_view(),
                    #[trigger] numbered_name(file_name@, j),
                ),
{
    let dest_dir = path_child(canonical, category);
    let final_name = resolve_collision(file_name, existing);
    (dest_dir, final_name)
}

} // verus!
