//! The two tree walks: discovering foreign `assets` instances, and
//! classifying loose files by extension.
//!
//! Both walks refuse to enter the canonical root or any directory bearing
//! its name. A directory named like the canonical root but standing
//! elsewhere is a foreign instance: discovery records it as a leaf and does
//! not look inside it, leaving its contents to the merge planner. The
//! classifier skips such a directory silently, and also — defensively —
//! anything below the canonical root's path, in case a merge left a foreign
//! instance standing.

use vstd::prelude::*;
use crate::tree::FsNode;
use crate::tree::path_eq;
use crate::tree::path_starts_with;
use crate::tree::path_child;
use crate::table::category_for;
use crate::table::pairs_view;
use crate::names::find_last_dot;
use crate::table::lookup_category;

verus! {

/// The canonical root's directory name.
pub open spec fn assets_name() -> Seq<char> {
    "assets"@
}

/// Whether `name` is the canonical root's directory name.
pub fn is_assets_name(name: &String) -> (r: bool)
    ensures
        r == (name@ == assets_name()),
{
    let a = String::from_str("assets");
    *name == a
}

/// The foreign-instance paths found among `entries`, whose own path is
/// `prefix`: every directory named like the canonical root, except the
/// canonical root itself, recorded as a leaf; every other directory is
/// entered.
pub open spec fn discover_entries(
    entries: Seq<FsNode>,
    prefix: Seq<Seq<char>>,
    canonical: Seq<Seq<char>>,
) -> Seq<Seq<Seq<char>>>
    decreases entries,
{
    if entries.len() == 0 {
        Seq::empty()
    } else {
        let rest = discover_entries(entries.drop_last(), prefix, canonical);
        let here = match entries.last() {
            FsNode::File { .. } => Seq::empty(),
            FsNode::Dir { name, entries: kids } => {
                let p = prefix.push(name@);
                if p == canonical {
                    Seq::empty()
                } else if name@ == assets_name() {
                    seq![p]
                } else {
                    discover_entries(kids@, p, canonical)
                }
            },
        };
        rest + here
    }
}

/// Appends to `out` the foreign-instance paths found among `entries`.
fn discover_into(
    entries: &Vec<FsNode>,
    prefix: &Vec<String>,
    canonical: &Vec<String>,
    out: &mut Vec<Vec<String>>,
)
    ensures
        final(out).deep_view() == old(out).deep_view() + discover_entries(
            entries@,
            prefix.deep_view(),
            canonical.deep_view(),
        ),
    decreases entries@,
{
    let ghost pre = prefix.deep_view();
    let ghost can = canonical.deep_view();
    let mut i: usize = 0;
    proof {
        assert(entries@.subrange(0, 0) =~= Seq::<FsNode>::empty());
        assert(out.deep_view() =~= old(out).deep_view() + discover_entries(
            entries@.subrange(0, 0),
            pre,
            can,
        ));
    }
    while i < entries.len()
        invariant
            i <= entries@.len(),
            pre == prefix.deep_view(),
            can == canonical.deep_view(),
            out.deep_view() == old(out).deep_view() + discover_entries(
                entries@.subrange(0, i as int),
                pre,
                can,
            ),
        decreases entries@.len() - i,
    {
        proof {
            assert(entries@.subrange(0, i + 1).drop_last() =~= entries@.subrange(0, i as int));
            assert(entries@.subrange(0, i + 1).last() == entries@[i as int]);
        }
        match &entries[i] {
            FsNode::File { .. } => {
                proof {
                    assert(out.deep_view() =~= old(out).deep_view() + discover_entries(
                        entries@.subrange(0, i + 1),
                        pre,
                        can,
                    ));
                }
            },
            FsNode::Dir { name, entries: kids } => {
                let p = path_child(prefix, name);
                if path_eq(&p, canonical) {
                    proof {
                        assert(out.deep_view() =~= old(out).deep_view() + discover_entries(
                            entries@.subrange(0, i + 1),
                            pre,
                            can,
                        ));
                    }
                } else if is_assets_name(name) {
                    proof {
                        assert(entries@[i as int] == (FsNode::Dir {
                            name: *name,
                            entries: *kids,
                        }));
                        assert(p.deep_view() == pre.push(name@));
                        assert(discover_entries(entries@.subrange(0, i + 1), pre, can)
                            == discover_entries(entries@.subrange(0, i as int), pre, can) + seq![
                            pre.push(name@),
                        ]);
                    }
                    let ghost prevdv = out.deep_view();
                    let ghost prevv = out@;
                    out.push(p);
                    proof {
                        assert(out@ == prevv.push(p));
                        assert forall|j: int| 0 <= j < prevv.len() implies #[trigger] out.deep_view()[j]
                            == prevdv[j] by {
                            assert(out@[j] == prevv[j]);
                        }
                        assert(out.deep_view()[prevv.len() as int] == p.deep_view());
                        assert(out.deep_view() =~= prevdv.push(pre.push(name@)));
                        assert(prevdv.push(pre.push(name@)) =~= old(out).deep_view()
                            + discover_entries(entries@.subrange(0, i + 1), pre, can));
                        assert(out.deep_view() == old(out).deep_view() + discover_entries(
                            entries@.subrange(0, i + 1),
                            pre,
                            can,
                        ));
                    }
                } else {
                    proof {
                        assert(decreases_to!(entries@ => entries@[i as int]));
                        assert(decreases_to!(kids => kids@));
                    }
                    discover_into(kids, &p, canonical, out);
                    proof {
                        assert(out.deep_view() =~= old(out).deep_view() + discover_entries(
                            entries@.subrange(0, i + 1),
                            pre,
                            can,
                        ));
                    }
                }
            },
        }
        i = i + 1;
    }
    proof {
        assert(entries@.subrange(0, entries@.len() as int) =~= entries@);
    }
}

/// Finds every foreign instance of the canonical root among `entries`, the
/// scan root's contents.
pub fn find_assets_directories(entries: &Vec<FsNode>, canonical: &Vec<String>) -> (r: Vec<
    Vec<String>,
>)
    ensures
        r.deep_view() == discover_entries(entries@, Seq::empty(), canonical.deep_view()),
{
    let mut out: Vec<Vec<String>> = Vec::new();
    let prefix: Vec<String> = Vec::new();
    proof {
        assert(prefix.deep_view() =~= Seq::<Seq<char>>::empty());
        assert(out.deep_view() =~= Seq::<Seq<Seq<char>>>::empty());
    }
    discover_into(entries, &prefix, canonical, &mut out);
    proof {
        assert(out.deep_view() =~= Seq::empty() + discover_entries(
            entries@,
            Seq::empty(),
            canonical.deep_view(),
        ));
        assert(Seq::<Seq<Seq<char>>>::empty() + discover_entries(
            entries@,
            Seq::empty(),
            canonical.deep_view(),
        ) =~= discover_entries(entries@, Seq::empty(), canonical.deep_view()));
    }
    out
}

/// The pending moves found among `entries`, whose own path is `prefix`: for
/// every file whose extension the table maps, the file's path paired with
/// its category. The canonical root's subtree is never entered, nor is any
/// directory bearing the canonical root's name.
pub open spec fn classify_entries(
    entries: Seq<FsNode>,
    prefix: Seq<Seq<char>>,
    canonical: Seq<Seq<char>>,
    pairs: Seq<(Seq<char>, Seq<char>)>,
) -> Seq<(Seq<Seq<char>>, Seq<char>)>
    decreases entries,
{
    if entries.len() == 0 {
        Seq::empty()
    } else {
        let rest = classify_entries(entries.drop_last(), prefix, canonical, pairs);
        let here = match entries.last() {
            FsNode::File { name } => match category_for(pairs, name@) {
                Option::Some(c) => seq![(prefix.push(name@), c)],
                Option::None => Seq::empty(),
            },
            FsNode::Dir { name, entries: kids } => {
                let p = prefix.push(name@);
                if canonical.is_prefix_of(p) || name@ == assets_name() {
                    Seq::empty()
                } else {
                    classify_entries(kids@, p, canonical, pairs)
                }
            },
        };
        rest + here
    }
}

/// Appends to `out` the pending moves found among `entries`.
fn classify_into(
    entries: &Vec<FsNode>,
    prefix: &Vec<String>,
    canonical: &Vec<String>,
    table: &Vec<(String, String)>,
    out: &mut Vec<(Vec<String>, String)>,
)
    ensures
        final(out).deep_view() == old(out).deep_view() + classify_entries(
            entries@,
            prefix.deep_view(),
            canonical.deep_view(),
            pairs_view(table@),
        ),
    decreases entries@,
{
    let ghost pre = prefix.deep_view();
    let ghost can = canonical.deep_view();
    let ghost pairs = pairs_view(table@);
    let mut i: usize = 0;
    proof {
        assert(entries@.subrange(0, 0) =~= Seq::<FsNode>::empty());
        assert(out.deep_view() =~= old(out).deep_view() + classify_entries(
            entries@.subrange(0, 0),
            pre,
            can,
            pairs,
        ));
    }
    while i < entries.len()
        invariant
            i <= entries@.len(),
            pre == prefix.deep_view(),
            can == canonical.deep_view(),
            pairs == pairs_view(table@),
            out.deep_view() == old(out).deep_view() + classify_entries(
                entries@.subrange(0, i as int),
                pre,
                can,
                pairs,
            ),
        decreases entries@.len() - i,
    {
        proof {
            assert(entries@.subrange(0, i + 1).drop_last() =~= entries@.subrange(0, i as int));
            assert(entries@.subrange(0, i + 1).last() == entries@[i as int]);
        }
        match &entries[i] {
            FsNode::File { name } => {
                let mut cat: Option<String> = None;
                let dot = find_last_dot(name.as_str());
                match dot {
                    Option::Some(d) => {
                        proof {
                            crate::names::lemma_last_dot_bounds(name@);
                        }
                        let len = name.as_str().unicode_len();
                        let ext = name.as_str().substring_char(d + 1, len);
                        proof {
                            assert(ext@ == crate::names::ext_of(name@));
                        }
                        cat = lookup_category(table, ext);
                    },
                    Option::None => {},
                }
                proof {
                    match &cat {
                        Option::Some(c) => assert(category_for(pairs, name@) == Some(c@)),
                        Option::None => assert(category_for(pairs, name@) is None),
                    }
                }
                match cat {
                    Option::Some(c) => {
                        let p = path_child(prefix, name);
                        proof {
                            assert(entries@[i as int] == (FsNode::File { name: *name }));
                            assert(p.deep_view() == pre.push(name@));
                            assert(classify_entries(entries@.subrange(0, i + 1), pre, can, pairs)
                                == classify_entries(entries@.subrange(0, i as int), pre, can, pairs)
                                + seq![(pre.push(name@), c@)]);
                        }
                        let ghost prevdv = out.deep_view();
                        let ghost prevv = out@;
                        let ghost cview = c@;
                        out.push((p, c));
                        proof {
                            assert(out@ == prevv.push(out@[prevv.len() as int]));
                            assert forall|j: int|
                                0 <= j < prevv.len() implies #[trigger] out.deep_view()[j]
                                == prevdv[j] by {
                                assert(out@[j] == prevv[j]);
                            }
                            assert(out.deep_view()[prevv.len() as int] == (pre.push(name@), cview));
                            assert(out.deep_view() =~= prevdv.push((pre.push(name@), cview)));
                            assert(prevdv.push((pre.push(name@), cview)) =~= old(out).deep_view()
                                + classify_entries(entries@.subrange(0, i + 1), pre, can, pairs));
                            assert(out.deep_view() == old(out).deep_view() + classify_entries(
                                entries@.subrange(0, i + 1),
                                pre,
                                can,
                                pairs,
                            ));
                        }
                    },
                    Option::None => {
                        proof {
                            assert(out.deep_view() =~= old(out).deep_view() + classify_entries(
                                entries@.subrange(0, i + 1),
                                pre,
                                can,
                                pairs,
                            ));
                        }
                    },
                }
            },
            FsNode::Dir { name, entries: kids } => {
                let p = path_child(prefix, name);
                if path_starts_with(&p, canonical) || is_assets_name(name) {
                    proof {
                        assert(out.deep_view() =~= old(out).deep_view() + classify_entries(
                            entries@.subrange(0, i + 1),
                            pre,
                            can,
                            pairs,
                        ));
                    }
                } else {
                    proof {
                        assert(decreases_to!(entries@ => entries@[i as int]));
                        assert(decreases_to!(kids => kids@));
                    }
                    classify_into(kids, &p, canonical, table, out);
                    proof {
                        assert(out.deep_view() =~= old(out).deep_view() + classify_entries(
                            entries@.subrange(0, i + 1),
                            pre,
                            can,
                            pairs,
                        ));
                    }
                }
            },
        }
        i = i + 1;
    }
    proof {
        assert(entries@.subrange(0, entries@.len() as int) =~= entries@);
    }
}

/// Classifies every loose file among `entries`, the scan root's contents:
/// the result pairs each movable file's path with its category, in walk
/// order.
pub fn find_and_categorize_files_recursive(
    entries: &Vec<FsNode>,
    canonical: &Vec<String>,
    table: &Vec<(String, String)>,
) -> (r: Vec<(Vec<String>, String)>)
    ensures
        r.deep_view() == classify_entries(
            entries@,
            Seq::empty(),
            canonical.deep_view(),
            pairs_view(table@),
        ),
{
    let mut out: Vec<(Vec<String>, String)> = Vec::new();
    let prefix: Vec<String> = Vec::new();
    proof {
        assert(prefix.deep_view() =~= Seq::<Seq<char>>::empty());
        assert(out.deep_view() =~= Seq::<(Seq<Seq<char>>, Seq<char>)>::empty());
    }
    classify_into(entries, &prefix, canonical, table, &mut out);
    proof {
        assert(Seq::<(Seq<Seq<char>>, Seq<char>)>::empty() + classify_entries(
            entries@,
            Seq::empty(),
            canonical.deep_view(),
            pairs_view(table@),
        ) =~= classify_entries(entries@, Seq::empty(), canonical.deep_view(), pairs_view(table@)));
    }
    out
}

/// The shape of every path a walk emits from position `prefix`: it extends
/// `prefix` by at least one component, and none of the added components
/// before the last (the added directories, not the leaf) is the canonical
/// root's name.
pub open spec fn walk_path_shape(prefix: Seq<Seq<char>>, p: Seq<Seq<char>>) -> bool {
    &&& p.len() > prefix.len()
    &&& (forall|j: int| 0 <= j < prefix.len() ==> p[j] == prefix[j])
    &&& (forall|j: int| prefix.len() <= j < p.len() - 1 ==> p[j] != assets_name())
}

/// Every pending move the classifier emits has `walk_path_shape`: the walk
/// only descends through directories not named like the canonical root.
pub proof fn lemma_classify_path_shape(
    entries: Seq<FsNode>,
    prefix: Seq<Seq<char>>,
    canonical: Seq<Seq<char>>,
    pairs: Seq<(Seq<char>, Seq<char>)>,
)
    ensures
        forall|t: int|
            0 <= t < classify_entries(entries, prefix, canonical, pairs).len()
                ==> walk_path_shape(
                prefix,
                #[trigger] classify_entries(entries, prefix, canonical, pairs)[t].0,
            ),
    decreases entries,
{
    if entries.len() > 0 {
        let s = classify_entries(entries, prefix, canonical, pairs);
        let rest = classify_entries(entries.drop_last(), prefix, canonical, pairs);
        lemma_classify_path_shape(entries.drop_last(), prefix, canonical, pairs);
        assert forall|t: int| 0 <= t < s.len() implies walk_path_shape(
            prefix,
            #[trigger] s[t].0,
        ) by {
            if t < rest.len() {
                assert(s[t] == rest[t]);
            } else {
                match entries.last() {
                    FsNode::File { name } => {
                        assert(s[t].0 == prefix.push(name@));
                    },
                    FsNode::Dir { name, entries: kids } => {
                        let p = prefix.push(name@);
                        if !(canonical.is_prefix_of(p) || name@ == assets_name()) {
                            let inner = classify_entries(kids@, p, canonical, pairs);
                            lemma_classify_path_shape(kids@, p, canonical, pairs);
                            assert(s[t] == inner[t - rest.len()]);
                            assert(walk_path_shape(p, s[t].0));
                            assert(p[prefix.len() as int] == name@);
                        }
                    },
                }
            }
        }
    }
}

/// Files already placed under the canonical root are never emitted again:
/// no pending move's path lies strictly below `canonical`, provided the
/// canonical root bears the canonical name.
pub proof fn lemma_classify_never_under_canonical(
    entries: Seq<FsNode>,
    canonical: Seq<Seq<char>>,
    pairs: Seq<(Seq<char>, Seq<char>)>,
)
    requires
        canonical.len() > 0,
        canonical.last() == assets_name(),
    ensures
        forall|t: int|
            0 <= t < classify_entries(entries, Seq::empty(), canonical, pairs).len() ==> !(
            canonical.len() < #[trigger] classify_entries(
                entries,
                Seq::empty(),
                canonical,
                pairs,
            )[t].0.len() && canonical.is_prefix_of(
                classify_entries(entries, Seq::empty(), canonical, pairs)[t].0,
            )),
{
    let s = classify_entries(entries, Seq::empty(), canonical, pairs);
    lemma_classify_path_shape(entries, Seq::empty(), canonical, pairs);
    assert forall|t: int| 0 <= t < s.len() implies !(canonical.len() < #[trigger] s[t].0.len()
        && canonical.is_prefix_of(s[t].0)) by {
        let p = s[t].0;
        assert(walk_path_shape(Seq::empty(), p));
        if canonical.len() < p.len() && canonical.is_prefix_of(p) {
            assert(canonical =~= p.subrange(0, canonical.len() as int));
            assert(p[canonical.len() - 1] == canonical.last());
            assert(p[canonical.len() - 1] != assets_name());
        }
    }
}

/// Every discovered path has `walk_path_shape`, bears the canonical root's
/// name as its last component, and is not the canonical root itself.
pub proof fn lemma_discover_path_shape(
    entries: Seq<FsNode>,
    prefix: Seq<Seq<char>>,
    canonical: Seq<Seq<char>>,
)
    ensures
        forall|t: int|
            0 <= t < discover_entries(entries, prefix, canonical).len() ==> {
                let d = #[trigger] discover_entries(entries, prefix, canonical)[t];
                walk_path_shape(prefix, d) && d.last() == assets_name() && d != canonical
            },
    decreases entries,
{
    if entries.len() > 0 {
        let s = discover_entries(entries, prefix, canonical);
        let rest = discover_entries(entries.drop_last(), prefix, canonical);
        lemma_discover_path_shape(entries.drop_last(), prefix, canonical);
        assert forall|t: int| 0 <= t < s.len() implies {
            let d = #[trigger] s[t];
            walk_path_shape(prefix, d) && d.last() == assets_name() && d != canonical
        } by {
            if t < rest.len() {
                assert(s[t] == rest[t]);
            } else {
                match entries.last() {
                    FsNode::File { .. } => {},
                    FsNode::Dir { name, entries: kids } => {
                        let p = prefix.push(name@);
                        if p == canonical {
                        } else if name@ == assets_name() {
                            assert(s[t] == p);
                        } else {
                            let inner = discover_entries(kids@, p, canonical);
                            lemma_discover_path_shape(kids@, p, canonical);
                            assert(s[t] == inner[t - rest.len()]);
                            assert(walk_path_shape(p, s[t]));
                            assert(p[prefix.len() as int] == name@);
                        }
                    },
                }
            }
        }
    }
}

/// Every foreign instance is found strictly outside the canonical root's
/// own subtree: no discovered path is the canonical root or lies below it,
/// provided the canonical root bears the canonical name.
pub proof fn lemma_discover_outside_canonical(entries: Seq<FsNode>, canonical: Seq<Seq<char>>)
    requires
        canonical.len() > 0,
        canonical.last() == assets_name(),
    ensures
        forall|t: int|
            0 <= t < discover_entries(entries, Seq::empty(), canonical).len()
                ==> !canonical.is_prefix_of(
                #[trigger] discover_entries(entries, Seq::empty(), canonical)[t],
            ),
{
    let s = discover_entries(entries, Seq::empty(), canonical);
    lemma_discover_path_shape(entries, Seq::empty(), canonical);
    assert forall|t: int| 0 <= t < s.len() implies !canonical.is_prefix_of(
        #[trigger] s[t],
    ) by {
        let d = s[t];
        assert(walk_path_shape(Seq::empty(), d) && d.last() == assets_name() && d != canonical);
        if canonical.is_prefix_of(d) {
            assert(canonical =~= d.subrange(0, canonical.len() as int));
            if canonical.len() == d.len() {
                assert(d =~= canonical);
            } else {
                assert(d[canonical.len() - 1] == canonical.last());
                assert(d[canonical.len() - 1] != assets_name());
            }
        }
    }
}

/// Every pending move carries the category the table maps its file's
/// extension to: a file whose extension the table does not map is never
/// emitted.
pub proof fn lemma_classify_only_mapped(
    entries: Seq<FsNode>,
    prefix: Seq<Seq<char>>,
    canonical: Seq<Seq<char>>,
    pairs: Seq<(Seq<char>, Seq<char>)>,
)
    ensures
        forall|t: int|
            0 <= t < classify_entries(entries, prefix, canonical, pairs).len() ==> category_for(
                pairs,
                (#[trigger] classify_entries(entries, prefix, canonical, pairs)[t]).0.last(),
            ) == Some(classify_entries(entries, prefix, canonical, pairs)[t].1),
    decreases entries,
{
    if entries.len() > 0 {
        let s = classify_entries(entries, prefix, canonical, pairs);
        let rest = classify_entries(entries.drop_last(), prefix, canonical, pairs);
        lemma_classify_only_mapped(entries.drop_last(), prefix, canonical, pairs);
        assert forall|t: int| 0 <= t < s.len() implies category_for(
            pairs,
            (#[trigger] s[t]).0.last(),
        ) == Some(s[t].1) by {
            if t < rest.len() {
                assert(s[t] == rest[t]);
            } else {
                match entries.last() {
                    FsNode::File { name } => {
                        assert(s[t].0 == prefix.push(name@));
                        assert(s[t].0.last() == name@);
                    },
                    FsNode::Dir { name, entries: kids } => {
                        let p = prefix.push(name@);
                        if !(canonical.is_prefix_of(p) || name@ == assets_name()) {
                            let inner = classify_entries(kids@, p, canonical, pairs);
                            lemma_classify_only_mapped(kids@, p, canonical, pairs);
                            assert(s[t] == inner[t - rest.len()]);
                        }
                    },
                }
            }
        }
    }
}

/// A scan root that holds nothing but instances of the canonical layout
/// (directories bearing the canonical root's name) yields no pending move
/// and no foreign instance: a fresh run finds nothing to do.
pub proof fn lemma_walks_find_nothing_in_layout(
    entries: Seq<FsNode>,
    pairs: Seq<(Seq<char>, Seq<char>)>,
)
    requires
        forall|j: int|
            0 <= j < entries.len() ==> entries[j] is Dir && (#[trigger] entries[j]).name_view()
                == assets_name(),
    ensures
        classify_entries(entries, Seq::<Seq<char>>::empty(), seq![assets_name()], pairs)
            == Seq::<(Seq<Seq<char>>, Seq<char>)>::empty(),
        discover_entries(entries, Seq::<Seq<char>>::empty(), seq![assets_name()])
            == Seq::<Seq<Seq<char>>>::empty(),
    decreases entries,
{
    let canonical: Seq<Seq<char>> = seq![assets_name()];
    if entries.len() > 0 {
        lemma_walks_find_nothing_in_layout(entries.drop_last(), pairs);
        match entries.last() {
            FsNode::File { .. } => {
                assert(entries[entries.len() - 1] is Dir);
            },
            FsNode::Dir { name, entries: kids } => {
                assert(entries[entries.len() - 1].name_view() == name@);
                let p = Seq::<Seq<char>>::empty().push(name@);
                assert(p =~= canonical);
                assert(canonical.is_prefix_of(p));
                assert(classify_entries(entries, Seq::empty(), canonical, pairs) =~= Seq::empty());
                assert(discover_entries(entries, Seq::empty(), canonical) =~= Seq::empty());
            },
        }
    }
}

} // verus!
