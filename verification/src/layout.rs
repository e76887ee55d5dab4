//! The layout initializer: which directories the canonical layout consists
//! of, and which of them a run still has to create.

use vstd::prelude::*;
use crate::walk::assets_name;
use crate::tree::path_eq;
use crate::tree::path_child;

verus! {

/// The category directory names of the canonical layout, in creation order.
pub open spec fn layout_dir_names() -> Seq<Seq<char>> {
    seq![
        "animation"@,
        "canvae"@,
        "datasets"@,
        "documents"@,
        "emacs_org_files"@,
        "html_pages"@,
        "images"@,
        "json"@,
        "markdown_files"@,
        "obsidian_canvae"@,
        "plaintext_files"@,
        "sounds"@,
        "video"@,
        "xcalidrawings"@,
    ]
}

/// Every directory path of the canonical layout, in creation order: the
/// canonical root first, then each category directory under it.
pub open spec fn layout_paths() -> Seq<Seq<Seq<char>>> {
    seq![seq![assets_name()]] + layout_dir_names().map_values(
        |n: Seq<char>| seq![assets_name(), n],
    )
}

/// Whether the path `p` is among `existing`.
pub open spec fn path_present(existing: Seq<Seq<Seq<char>>>, p: Seq<Seq<char>>) -> bool {
    exists|i: int| 0 <= i < existing.len() && existing[i] == p
}

/// Whether `p` is one of the paths in `existing`.
pub fn contains_path(existing: &Vec<Vec<String>>, p: &Vec<String>) -> (r: bool)
    ensures
        r == path_present(existing.deep_view(), p.deep_view()),
{
    let mut i: usize = 0;
    while i < existing.len()
        invariant
            i <= existing@.len(),
            forall|j: int| 0 <= j < i ==> existing.deep_view()[j] != p.deep_view(),
        decreases existing@.len() - i,
    {
        proof {
            assert(existing.deep_view()[i as int] == existing@[i as int].deep_view());
        }
        if path_eq(&existing[i], p) {
            return true;
        }
        i = i + 1;
    }
    false
}

/// The category directory names, as strings.
fn layout_dir_name_strings() -> (r: Vec<String>)
    ensures
        r.deep_view() == layout_dir_names(),
{
    let mut r: Vec<String> = Vec::new();
    r.push(String::from_str("animation"));
    r.push(String::from_str("canvae"));
    r.push(String::from_str("datasets"));
    r.push(String::from_str("documents"));
    r.push(String::from_str("emacs_org_files"));
    r.push(String::from_str("html_pages"));
    r.push(String::from_str("images"));
    r.push(String::from_str("json"));
    r.push(String::from_str("markdown_files"));
    r.push(String::from_str("obsidian_canvae"));
    r.push(String::from_str("plaintext_files"));
    r.push(String::from_str("sounds"));
    r.push(String::from_str("video"));
    r.push(String::from_str("xcalidrawings"));
    proof {
        assert(r.deep_view() =~= layout_dir_names());
    }
    r
}

/// Plans the canonical layout: every layout path in creation order, each
/// marked `true` when it is already among `existing` (it is then reported,
/// not recreated) and `false` when the run still has to create it.
pub fn create_directories(existing: &Vec<Vec<String>>) -> (r: Vec<(Vec<String>, bool)>)
    ensures
        r@.len() == layout_paths().len(),
        forall|i: int|
            0 <= i < r@.len() ==> (#[trigger] r@[i]).0.deep_view() == layout_paths()[i] && r@[i].1
                == path_present(existing.deep_view(), layout_paths()[i]),
{
    let mut r: Vec<(Vec<String>, bool)> = Vec::new();
    let mut root: Vec<String> = Vec::new();
    root.push(String::from_str("assets"));
    proof {
        assert(root.deep_view() =~= seq![assets_name()]);
        assert(layout_paths()[0] == seq![assets_name()]);
    }
    let have_root = contains_path(existing, &root);
    r.push((root.clone(), have_root));
    let names = layout_dir_name_strings();
    let mut i: usize = 0;
    while i < names.len()
        invariant
            i <= names@.len(),
            names.deep_view() == layout_dir_names(),
            root.deep_view() == seq![assets_name()],
            r@.len() == i + 1,
            forall|j: int|
                0 <= j < r@.len() ==> (#[trigger] r@[j]).0.deep_view() == layout_paths()[j]
                    && r@[j].1 == path_present(existing.deep_view(), layout_paths()[j]),
        decreases names@.len() - i,
    {
        let p = path_child(&root, &names[i]);
        proof {
            assert(names.deep_view()[i as int] == names@[i as int]@);
            assert(p.deep_view() =~= seq![assets_name(), layout_dir_names()[i as int]]);
            assert(layout_paths()[i + 1] == layout_dir_names().map_values(
                |n: Seq<char>| seq![assets_name(), n],
            )[i as int]);
            assert(layout_paths()[i + 1] == seq![assets_name(), layout_dir_names()[i as int]]);
        }
        let have = contains_path(existing, &p);
        r.push((p, have));
        i = i + 1;
    }
    proof {
        assert(r@.len() == layout_paths().len());
    }
    r
}

/// The directory set after one run of the initializer: whatever existed,
/// plus the whole layout.
pub open spec fn after_layout(existing: Seq<Seq<Seq<char>>>) -> Seq<Seq<Seq<char>>> {
    existing + layout_paths()
}

/// Running the initializer twice changes nothing more: after one run every
/// layout path is present, so a second run reports each entry as already
/// existing, and the directory set it leaves behind has exactly the same
/// members as the first run's.
pub proof fn lemma_layout_idempotent(existing: Seq<Seq<Seq<char>>>)
    ensures
        forall|i: int|
            0 <= i < layout_paths().len() ==> path_present(
                after_layout(existing),
                #[trigger] layout_paths()[i],
            ),
        forall|p: Seq<Seq<char>>|
            #![trigger path_present(after_layout(after_layout(existing)), p)]
            path_present(after_layout(after_layout(existing)), p) <==> path_present(
                after_layout(existing),
                p,
            ),
{
    let once = after_layout(existing);
    let twice = after_layout(once);
    assert forall|i: int| 0 <= i < layout_paths().len() implies path_present(
        once,
        #[trigger] layout_paths()[i],
    ) by {
        assert(once[existing.len() + i] == layout_paths()[i]);
    }
    assert forall|p: Seq<Seq<char>>| path_present(twice, p) implies path_present(once, p) by {
        let w = choose|w: int| 0 <= w < twice.len() && twice[w] == p;
        if w < once.len() {
            assert(once[w] == p);
        } else {
            assert(layout_paths()[w - once.len()] == p);
            assert(once[existing.len() + (w - once.len())] == p);
        }
    }
    assert forall|p: Seq<Seq<char>>| path_present(once, p) implies path_present(twice, p) by {
        let w = choose|w: int| 0 <= w < once.len() && once[w] == p;
        assert(twice[w] == p);
    }
}

} // verus!
