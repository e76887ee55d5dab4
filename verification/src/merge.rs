//! The merge planner: folds foreign instances of the canonical layout into
//! the canonical root.
//!
//! For each foreign instance, every file inside an immediate child directory
//! (a category directory) is to move into the same-named directory under the
//! canonical root, and every file lying directly in the instance (a
//! malformed layout) is to move into the canonical root itself. Collisions
//! are resolved at move time, against the destination as it then stands.
//! Emptied directories are removal candidates afterwards: each child
//! directory, then the instance itself; a removal that fails (the directory
//! was not emptied) is not an error.

use vstd::prelude::*;
use crate::tree::FsNode;
use crate::tree::path_child;

verus! {

/// A foreign instance of the canonical layout: its path, and a listing of
/// its immediate entries (the entries' own subtrees included for child
/// directories).
pub struct ForeignInstance {
    pub path: Vec<String>,
    pub entries: Vec<FsNode>,
}

/// One planned move: a source file, and the directory it is to land in
/// under whatever collision-free name is available at move time.
pub struct MoveIntent {
    pub source: Vec<String>,
    pub dest_dir: Vec<String>,
}

/// A merge plan: the moves, the destination directories that must exist
/// first, and the removal candidates in removal order.
pub struct MergePlan {
    pub moves: Vec<MoveIntent>,
    pub ensure_dirs: Vec<Vec<String>>,
    pub cleanup_dirs: Vec<Vec<String>>,
}

/// The view of one planned move: source path and destination directory.
pub open spec fn intent_view(m: MoveIntent) -> (Seq<Seq<char>>, Seq<Seq<char>>) {
    (m.source.deep_view(), m.dest_dir.deep_view())
}

/// The view of a list of planned moves.
pub open spec fn intents_view(s: Seq<MoveIntent>) -> Seq<(Seq<Seq<char>>, Seq<Seq<char>>)> {
    s.map_values(|m: MoveIntent| intent_view(m))
}

/// The moves out of one category directory of a foreign instance: every
/// file among `kids` goes from `subdir_path` into `dest_dir`; anything
/// nested deeper stays (and later blocks the directory's removal).
pub open spec fn subdir_moves(
    kids: Seq<FsNode>,
    subdir_path: Seq<Seq<char>>,
    dest_dir: Seq<Seq<char>>,
) -> Seq<(Seq<Seq<char>>, Seq<Seq<char>>)>
    decreases kids,
{
    if kids.len() == 0 {
        Seq::empty()
    } else {
        subdir_moves(kids.drop_last(), subdir_path, dest_dir) + match kids.last() {
            FsNode::File { name } => seq![(subdir_path.push(name@), dest_dir)],
            FsNode::Dir { .. } => Seq::empty(),
        }
    }
}

/// The moves out of one foreign instance with entries `entries` at
/// `inst_path`: child directories empty into the same-named directory under
/// `canonical`, loose files go into `canonical` itself.
pub open spec fn instance_moves(
    entries: Seq<FsNode>,
    inst_path: Seq<Seq<char>>,
    canonical: Seq<Seq<char>>,
) -> Seq<(Seq<Seq<char>>, Seq<Seq<char>>)>
    decreases entries,
{
    if entries.len() == 0 {
        Seq::empty()
    } else {
        instance_moves(entries.drop_last(), inst_path, canonical) + match entries.last() {
            FsNode::File { name } => seq![(inst_path.push(name@), canonical)],
            FsNode::Dir { name, entries: kids } => subdir_moves(
                kids@,
                inst_path.push(name@),
                canonical.push(name@),
            ),
        }
    }
}

/// The destination directories one instance needs under `canonical`: one per
/// child directory, whether or not it holds files.
pub open spec fn instance_ensure_dirs(entries: Seq<FsNode>, canonical: Seq<Seq<char>>) -> Seq<
    Seq<Seq<char>>,
>
    decreases entries,
{
    if entries.len() == 0 {
        Seq::empty()
    } else {
        instance_ensure_dirs(entries.drop_last(), canonical) + match entries.last() {
            FsNode::File { .. } => Seq::empty(),
            FsNode::Dir { name, .. } => seq![canonical.push(name@)],
        }
    }
}

/// The paths of one instance's child directories.
pub open spec fn child_dir_paths(entries: Seq<FsNode>, inst_path: Seq<Seq<char>>) -> Seq<
    Seq<Seq<char>>,
>
    decreases entries,
{
    if entries.len() == 0 {
        Seq::empty()
    } else {
        child_dir_paths(entries.drop_last(), inst_path) + match entries.last() {
            FsNode::File { .. } => Seq::empty(),
            FsNode::Dir { name, .. } => seq![inst_path.push(name@)],
        }
    }
}

/// The removal candidates of one instance, in removal order: each child
/// directory, then the instance itself.
pub open spec fn instance_cleanup_dirs(entries: Seq<FsNode>, inst_path: Seq<Seq<char>>) -> Seq<
    Seq<Seq<char>>,
> {
    child_dir_paths(entries, inst_path) + seq![inst_path]
}

/// Appends one path to a list of paths.
fn push_path(list: &mut Vec<Vec<String>>, p: Vec<String>)
    ensures
        final(list).deep_view() == old(list).deep_view().push(p.deep_view()),
{
    let ghost prevv = list@;
    let ghost pview = p.deep_view();
    list.push(p);
    proof {
        assert(list@ == prevv.push(list@[prevv.len() as int]));
        assert forall|j: int| 0 <= j < prevv.len() implies #[trigger] list.deep_view()[j]
            == old(list).deep_view()[j] by {
            assert(list@[j] == prevv[j]);
        }
        assert(list.deep_view()[prevv.len() as int] == pview);
        assert(list.deep_view() =~= old(list).deep_view().push(pview));
    }
}

/// Appends one planned move to a list of moves.
fn push_intent(list: &mut Vec<MoveIntent>, m: MoveIntent)
    ensures
        intents_view(final(list)@) == intents_view(old(list)@).push(intent_view(m)),
{
    let ghost prevv = list@;
    let ghost mview = intent_view(m);
    list.push(m);
    proof {
        assert(list@ == prevv.push(list@[prevv.len() as int]));
        assert forall|j: int| 0 <= j < prevv.len() implies #[trigger] intents_view(list@)[j]
            == intents_view(prevv)[j] by {
            assert(list@[j] == prevv[j]);
        }
        assert(intents_view(list@)[prevv.len() as int] == mview);
        assert(intents_view(list@) =~= intents_view(prevv).push(mview));
    }
}

/// Appends the moves out of one category directory to `moves`.
fn subdir_moves_into(
    kids: &Vec<FsNode>,
    subdir_path: &Vec<String>,
    dest_dir: &Vec<String>,
    moves: &mut Vec<MoveIntent>,
)
    ensures
        intents_view(final(moves)@) == intents_view(old(moves)@) + subdir_moves(
            kids@,
            subdir_path.deep_view(),
            dest_dir.deep_view(),
        ),
{
    let ghost sp = subdir_path.deep_view();
    let ghost dd = dest_dir.deep_view();
    let mut i: usize = 0;
    proof {
        assert(kids@.subrange(0, 0) =~= Seq::<FsNode>::empty());
        assert(intents_view(moves@) =~= intents_view(old(moves)@) + subdir_moves(
            kids@.subrange(0, 0),
            sp,
            dd,
        ));
    }
    while i < kids.len()
        invariant
            i <= kids@.len(),
            sp == subdir_path.deep_view(),
            dd == dest_dir.deep_view(),
            intents_view(moves@) == intents_view(old(moves)@) + subdir_moves(
                kids@.subrange(0, i as int),
                sp,
                dd,
            ),
        decreases kids@.len() - i,
    {
        proof {
            assert(kids@.subrange(0, i + 1).drop_last() =~= kids@.subrange(0, i as int));
            assert(kids@.subrange(0, i + 1).last() == kids@[i as int]);
        }
        match &kids[i] {
            FsNode::File { name } => {
                let src = path_child(subdir_path, name);
                let m = MoveIntent { source: src, dest_dir: dest_dir.clone() };
                proof {
                    assert(kids@[i as int] == (FsNode::File { name: *name }));
                    assert(intent_view(m) == (sp.push(name@), dd));
                    assert(subdir_moves(kids@.subrange(0, i + 1), sp, dd) == subdir_moves(
                        kids@.subrange(0, i as int),
                        sp,
                        dd,
                    ) + seq![(sp.push(name@), dd)]);
                }
                let ghost prevv = moves@;
                let ghost mview = intent_view(m);
                moves.push(m);
                proof {
                    assert(moves@ == prevv.push(moves@[prevv.len() as int]));
                    assert forall|j: int|
                        0 <= j < prevv.len() implies #[trigger] intents_view(moves@)[j]
                        == intents_view(prevv)[j] by {
                        assert(moves@[j] == prevv[j]);
                    }
                    assert(intents_view(moves@)[prevv.len() as int] == mview);
                    assert(intents_view(moves@) =~= intents_view(prevv).push(mview));
                    assert(intents_view(prevv).push(mview) =~= intents_view(old(moves)@)
                        + subdir_moves(kids@.subrange(0, i + 1), sp, dd));
                    assert(intents_view(moves@) == intents_view(old(moves)@) + subdir_moves(
                        kids@.subrange(0, i + 1),
                        sp,
                        dd,
                    ));
                }
            },
            FsNode::Dir { .. } => {
                proof {
                    assert(intents_view(moves@) =~= intents_view(old(moves)@) + subdir_moves(
                        kids@.subrange(0, i + 1),
                        sp,
                        dd,
                    ));
                }
            },
        }
        i = i + 1;
    }
    proof {
        assert(kids@.subrange(0, kids@.len() as int) =~= kids@);
    }
}

/// Appends one instance's moves, needed directories and removal candidates
/// to the plan under construction.
fn instance_into(
    inst: &ForeignInstance,
    canonical: &Vec<String>,
    moves: &mut Vec<MoveIntent>,
    ensure_dirs: &mut Vec<Vec<String>>,
    cleanup_dirs: &mut Vec<Vec<String>>,
)
    ensures
        intents_view(final(moves)@) == intents_view(old(moves)@) + instance_moves(
            inst.entries@,
            inst.path.deep_view(),
            canonical.deep_view(),
        ),
        final(ensure_dirs).deep_view() == old(ensure_dirs).deep_view() + instance_ensure_dirs(
            inst.entries@,
            canonical.deep_view(),
        ),
        final(cleanup_dirs).deep_view() == old(cleanup_dirs).deep_view() + instance_cleanup_dirs(
            inst.entries@,
            inst.path.deep_view(),
        ),
{
    let ghost ip = inst.path.deep_view();
    let ghost can = canonical.deep_view();
    let mut i: usize = 0;
    proof {
        assert(inst.entries@.subrange(0, 0) =~= Seq::<FsNode>::empty());
        assert(intents_view(moves@) =~= intents_view(old(moves)@) + instance_moves(
            inst.entries@.subrange(0, 0),
            ip,
            can,
        ));
        assert(ensure_dirs.deep_view() =~= old(ensure_dirs).deep_view() + instance_ensure_dirs(
            inst.entries@.subrange(0, 0),
            can,
        ));
        assert(cleanup_dirs.deep_view() =~= old(cleanup_dirs).deep_view() + child_dir_paths(
            inst.entries@.subrange(0, 0),
            ip,
        ));
    }
    while i < inst.entries.len()
        invariant
            i <= inst.entries@.len(),
            ip == inst.path.deep_view(),
            can == canonical.deep_view(),
            intents_view(moves@) == intents_view(old(moves)@) + instance_moves(
                inst.entries@.subrange(0, i as int),
                ip,
                can,
            ),
            ensure_dirs.deep_view() == old(ensure_dirs).deep_view() + instance_ensure_dirs(
                inst.entries@.subrange(0, i as int),
                can,
            ),
            cleanup_dirs.deep_view() == old(cleanup_dirs).deep_view() + child_dir_paths(
                inst.entries@.subrange(0, i as int),
                ip,
            ),
        decreases inst.entries@.len() - i,
    {
        proof {
            assert(inst.entries@.subrange(0, i + 1).drop_last() =~= inst.entries@.subrange(
                0,
                i as int,
            ));
            assert(inst.entries@.subrange(0, i + 1).last() == inst.entries@[i as int]);
        }
        match &inst.entries[i] {
            FsNode::File { name } => {
                let src = path_child(&inst.path, name);
                let m = MoveIntent { source: src, dest_dir: canonical.clone() };
                proof {
                    assert(inst.entries@[i as int] == (FsNode::File { name: *name }));
                    assert(intent_view(m) == (ip.push(name@), can));
                }
                push_intent(moves, m);
                proof {
                    assert(intents_view(moves@) =~= intents_view(old(moves)@) + instance_moves(
                        inst.entries@.subrange(0, i + 1),
                        ip,
                        can,
                    ));
                    assert(ensure_dirs.deep_view() =~= old(ensure_dirs).deep_view()
                        + instance_ensure_dirs(inst.entries@.subrange(0, i + 1), can));
                    assert(cleanup_dirs.deep_view() =~= old(cleanup_dirs).deep_view()
                        + child_dir_paths(inst.entries@.subrange(0, i + 1), ip));
                }
            },
            FsNode::Dir { name, entries: kids } => {
                let subdir_path = path_child(&inst.path, name);
                let target_dir = path_child(canonical, name);
                proof {
                    assert(inst.entries@[i as int] == (FsNode::Dir {
                        name: *name,
                        entries: *kids,
                    }));
                    assert(subdir_path.deep_view() == ip.push(name@));
                    assert(target_dir.deep_view() == can.push(name@));
                }
                push_path(ensure_dirs, target_dir.clone());
                subdir_moves_into(kids, &subdir_path, &target_dir, moves);
                push_path(cleanup_dirs, subdir_path);
                proof {
                    assert(intents_view(moves@) =~= intents_view(old(moves)@) + instance_moves(
                        inst.entries@.subrange(0, i + 1),
                        ip,
                        can,
                    ));
                    assert(ensure_dirs.deep_view() =~= old(ensure_dirs).deep_view()
                        + instance_ensure_dirs(inst.entries@.subrange(0, i + 1), can));
                    assert(cleanup_dirs.deep_view() =~= old(cleanup_dirs).deep_view()
                        + child_dir_paths(inst.entries@.subrange(0, i + 1), ip));
                }
            },
        }
        i = i + 1;
    }
    proof {
        assert(inst.entries@.subrange(0, inst.entries@.len() as int) =~= inst.entries@);
    }
    push_path(cleanup_dirs, inst.path.clone());
    proof {
        assert(cleanup_dirs.deep_view() =~= old(cleanup_dirs).deep_view() + instance_cleanup_dirs(
            inst.entries@,
            ip,
        ));
    }
}

/// The moves of a whole merge, instance by instance in order.
pub open spec fn merge_moves(instances: Seq<ForeignInstance>, canonical: Seq<Seq<char>>) -> Seq<
    (Seq<Seq<char>>, Seq<Seq<char>>),
>
    decreases instances,
{
    if instances.len() == 0 {
        Seq::empty()
    } else {
        merge_moves(instances.drop_last(), canonical) + instance_moves(
            instances.last().entries@,
            instances.last().path.deep_view(),
            canonical,
        )
    }
}

/// The destination directories a whole merge needs.
pub open spec fn merge_ensure_dirs(instances: Seq<ForeignInstance>, canonical: Seq<Seq<char>>) -> Seq<
    Seq<Seq<char>>,
>
    decreases instances,
{
    if instances.len() == 0 {
        Seq::empty()
    } else {
        merge_ensure_dirs(instances.drop_last(), canonical) + instance_ensure_dirs(
            instances.last().entries@,
            canonical,
        )
    }
}

/// The removal candidates of a whole merge, in removal order.
pub open spec fn merge_cleanup_dirs(instances: Seq<ForeignInstance>) -> Seq<Seq<Seq<char>>>
    decreases instances,
{
    if instances.len() == 0 {
        Seq::empty()
    } else {
        merge_cleanup_dirs(instances.drop_last()) + instance_cleanup_dirs(
            instances.last().entries@,
            instances.last().path.deep_view(),
        )
    }
}

/// Plans the merge of every foreign instance into the canonical root. The
/// number of files merged is the number of planned moves that are then
/// carried out.
pub fn merge_assets_directories(canonical: &Vec<String>, instances: &Vec<ForeignInstance>) -> (plan:
    MergePlan)
    ensures
        intents_view(plan.moves@) == merge_moves(instances@, canonical.deep_view()),
        plan.ensure_dirs.deep_view() == merge_ensure_dirs(instances@, canonical.deep_view()),
        plan.cleanup_dirs.deep_view() == merge_cleanup_dirs(instances@),
{
    let ghost can = canonical.deep_view();
    let mut moves: Vec<MoveIntent> = Vec::new();
    let mut ensure_dirs: Vec<Vec<String>> = Vec::new();
    let mut cleanup_dirs: Vec<Vec<String>> = Vec::new();
    let mut i: usize = 0;
    proof {
        assert(instances@.subrange(0, 0) =~= Seq::<ForeignInstance>::empty());
        assert(intents_view(moves@) =~= merge_moves(instances@.subrange(0, 0), can));
        assert(ensure_dirs.deep_view() =~= merge_ensure_dirs(instances@.subrange(0, 0), can));
        assert(cleanup_dirs.deep_view() =~= merge_cleanup_dirs(instances@.subrange(0, 0)));
    }
    while i < instances.len()
        invariant
            i <= instances@.len(),
            can == canonical.deep_view(),
            intents_view(moves@) == merge_moves(instances@.subrange(0, i as int), can),
            ensure_dirs.deep_view() == merge_ensure_dirs(instances@.subrange(0, i as int), can),
            cleanup_dirs.deep_view() == merge_cleanup_dirs(instances@.subrange(0, i as int)),
        decreases instances@.len() - i,
    {
        proof {
            assert(instances@.subrange(0, i + 1).drop_last() =~= instances@.subrange(0, i as int));
            assert(instances@.subrange(0, i + 1).last() == instances@[i as int]);
        }
        instance_into(&instances[i], canonical, &mut moves, &mut ensure_dirs, &mut cleanup_dirs);
        proof {
            assert(intents_view(moves@) =~= merge_moves(instances@.subrange(0, i + 1), can));
            assert(ensure_dirs.deep_view() =~= merge_ensure_dirs(
                instances@.subrange(0, i + 1),
                can,
            ));
            assert(cleanup_dirs.deep_view() =~= merge_cleanup_dirs(instances@.subrange(0, i + 1)));
        }
        i = i + 1;
    }
    proof {
        assert(instances@.subrange(0, instances@.len() as int) =~= instances@);
    }
    MergePlan { moves, ensure_dirs, cleanup_dirs }
}

/// Every planned move of a merge lands either in the canonical root itself
/// (a loose file of a malformed instance) or in an immediate category
/// directory of it.
pub proof fn lemma_merge_dests_under_canonical(
    instances: Seq<ForeignInstance>,
    canonical: Seq<Seq<char>>,
)
    ensures
        forall|t: int|
            0 <= t < merge_moves(instances, canonical).len() ==> {
                let d = (#[trigger] merge_moves(instances, canonical)[t]).1;
                d == canonical || (d.len() == canonical.len() + 1 && d.drop_last() == canonical)
            },
    decreases instances,
{
    if instances.len() > 0 {
        lemma_merge_dests_under_canonical(instances.drop_last(), canonical);
        lemma_instance_dests_under_canonical(
            instances.last().entries@,
            instances.last().path.deep_view(),
            canonical,
        );
        let s = merge_moves(instances, canonical);
        let rest = merge_moves(instances.drop_last(), canonical);
        let here = instance_moves(
            instances.last().entries@,
            instances.last().path.deep_view(),
            canonical,
        );
        assert forall|t: int| 0 <= t < s.len() implies {
            let d = (#[trigger] s[t]).1;
            d == canonical || (d.len() == canonical.len() + 1 && d.drop_last() == canonical)
        } by {
            if t < rest.len() {
                assert(s[t] == rest[t]);
            } else {
                assert(s[t] == here[t - rest.len()]);
            }
        }
    }
}

/// As `lemma_merge_dests_under_canonical`, for one instance.
proof fn lemma_instance_dests_under_canonical(
    entries: Seq<FsNode>,
    inst_path: Seq<Seq<char>>,
    canonical: Seq<Seq<char>>,
)
    ensures
        forall|t: int|
            0 <= t < instance_moves(entries, inst_path, canonical).len() ==> {
                let d = (#[trigger] instance_moves(entries, inst_path, canonical)[t]).1;
                d == canonical || (d.len() == canonical.len() + 1 && d.drop_last() == canonical)
            },
    decreases entries,
{
    if entries.len() > 0 {
        lemma_instance_dests_under_canonical(entries.drop_last(), inst_path, canonical);
        let s = instance_moves(entries, inst_path, canonical);
        let rest = instance_moves(entries.drop_last(), inst_path, canonical);
        assert forall|t: int| 0 <= t < s.len() implies {
            let d = (#[trigger] s[t]).1;
            d == canonical || (d.len() == canonical.len() + 1 && d.drop_last() == canonical)
        } by {
            if t < rest.len() {
                assert(s[t] == rest[t]);
            } else {
                match entries.last() {
                    FsNode::File { name } => {
                        assert(s[t].1 == canonical);
                    },
                    FsNode::Dir { name, entries: kids } => {
                        let dd = canonical.push(name@);
                        lemma_subdir_dests_fixed(kids@, inst_path.push(name@), dd);
                        assert(s[t].1 == dd);
                        assert(dd.drop_last() =~= canonical);
                    },
                }
            }
        }
    }
}

/// Every move out of one category directory lands in that directory's
/// destination.
proof fn lemma_subdir_dests_fixed(
    kids: Seq<FsNode>,
    subdir_path: Seq<Seq<char>>,
    dest_dir: Seq<Seq<char>>,
)
    ensures
        forall|t: int|
            0 <= t < subdir_moves(kids, subdir_path, dest_dir).len() ==> (
            #[trigger] subdir_moves(kids, subdir_path, dest_dir)[t]).1 == dest_dir,
    decreases kids,
{
    if kids.len() > 0 {
        lemma_subdir_dests_fixed(kids.drop_last(), subdir_path, dest_dir);
        let s = subdir_moves(kids, subdir_path, dest_dir);
        let rest = subdir_moves(kids.drop_last(), subdir_path, dest_dir);
        assert forall|t: int| 0 <= t < s.len() implies (#[trigger] s[t]).1 == dest_dir by {
            if t < rest.len() {
                assert(s[t] == rest[t]);
            } else {
                match kids.last() {
                    FsNode::File { name } => {
                        assert(s[t] == (subdir_path.push(name@), dest_dir));
                    },
                    FsNode::Dir { .. } => {},
                }
            }
        }
    }
}

} // verus!
