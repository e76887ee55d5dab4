use extorg::tree::FsNode;
use extorg::walk::find_assets_directories;
use extorg::walk::find_and_categorize_files_recursive;
use extorg::merge::merge_assets_directories;
use extorg::merge::ForeignInstance;
use extorg::layout::create_directories;
use extorg::report::tally_outcomes;
use extorg::table::get_extension_mapping;
use extorg::relocate::plan_move;

fn s(x: &str) -> String {
    x.to_string()
}

fn names(xs: &[&str]) -> Vec<String> {
    xs.iter().map(|x| x.to_string()).collect()
}

fn file(name: &str) -> FsNode {
    FsNode::File { name: s(name) }
}

fn dir(name: &str, entries: Vec<FsNode>) -> FsNode {
    FsNode::Dir { name: s(name), entries }
}

fn canonical() -> Vec<String> {
    names(&["assets"])
}

#[test]
fn discovery_finds_foreign_instances_only() {
    let entries = vec![
        dir("assets", vec![dir("images", vec![file("a.png")])]),
        dir("work", vec![
            dir("assets", vec![dir("images", vec![file("b.png")])]),
            dir("deep", vec![dir("assets", vec![])]),
        ]),
        file("loose.txt"),
    ];
    let found = find_assets_directories(&entries, &canonical());
    assert_eq!(found, vec![names(&["work", "assets"]), names(&["work", "deep", "assets"])]);
}

#[test]
fn discovery_treats_foreign_instance_as_leaf() {
    let entries = vec![dir("work", vec![dir("assets", vec![dir("assets", vec![])])])];
    let found = find_assets_directories(&entries, &canonical());
    assert_eq!(found, vec![names(&["work", "assets"])]);
}

#[test]
fn classification_pairs_files_with_categories() {
    let table = get_extension_mapping();
    let entries = vec![
        file("a.JPG"),
        dir("docs", vec![file("b.pdf"), file("c.exe")]),
        file("README"),
    ];
    let moves = find_and_categorize_files_recursive(&entries, &canonical(), &table);
    assert_eq!(moves, vec![
        (names(&["a.JPG"]), s("images")),
        (names(&["docs", "b.pdf"]), s("documents")),
    ]);
}

#[test]
fn classification_leaves_unmapped_extensions_in_place() {
    let table = get_extension_mapping();
    let entries = vec![file("tool.exe"), file("noext"), file("trailing.")];
    let moves = find_and_categorize_files_recursive(&entries, &canonical(), &table);
    assert!(moves.is_empty());
}

#[test]
fn classification_never_enters_canonical_root() {
    let table = get_extension_mapping();
    let entries = vec![
        dir("assets", vec![dir("images", vec![file("already.png")])]),
        file("new.png"),
    ];
    let moves = find_and_categorize_files_recursive(&entries, &canonical(), &table);
    assert_eq!(moves, vec![(names(&["new.png"]), s("images"))]);
}

#[test]
fn classification_skips_any_directory_named_assets() {
    let table = get_extension_mapping();
    let entries = vec![dir("work", vec![dir("assets", vec![file("hidden.png")])])];
    let moves = find_and_categorize_files_recursive(&entries, &canonical(), &table);
    assert!(moves.is_empty());
}

#[test]
fn empty_scan_root_is_a_noop() {
    let table = get_extension_mapping();
    let entries = vec![dir("assets", vec![
        dir("images", vec![]),
        dir("documents", vec![]),
    ])];
    let moves = find_and_categorize_files_recursive(&entries, &canonical(), &table);
    let found = find_assets_directories(&entries, &canonical());
    assert!(moves.is_empty());
    assert!(found.is_empty());
}

#[test]
fn merge_plans_category_and_loose_moves() {
    let inst = ForeignInstance {
        path: names(&["work", "assets"]),
        entries: vec![
            dir("images", vec![file("a.png"), dir("nested", vec![])]),
            file("stray.txt"),
        ],
    };
    let plan = merge_assets_directories(&canonical(), &vec![inst]);
    assert_eq!(plan.moves.len(), 2);
    assert_eq!(plan.moves[0].source, names(&["work", "assets", "images", "a.png"]));
    assert_eq!(plan.moves[0].dest_dir, names(&["assets", "images"]));
    assert_eq!(plan.moves[1].source, names(&["work", "assets", "stray.txt"]));
    assert_eq!(plan.moves[1].dest_dir, names(&["assets"]));
    assert_eq!(plan.ensure_dirs, vec![names(&["assets", "images"])]);
    assert_eq!(plan.cleanup_dirs, vec![
        names(&["work", "assets", "images"]),
        names(&["work", "assets"]),
    ]);
}

#[test]
fn merge_collision_yields_numbered_survivor() {
    let inst = ForeignInstance {
        path: names(&["work", "assets"]),
        entries: vec![dir("images", vec![file("a.png")])],
    };
    let plan = merge_assets_directories(&canonical(), &vec![inst]);
    assert_eq!(plan.moves.len(), 1);
    let m = &plan.moves[0];
    assert_eq!(m.dest_dir, names(&["assets", "images"]));
    let destination_holds = names(&["a.png"]);
    let chosen = plan_move(&s("a.png"), &s("images"), &canonical(), &destination_holds);
    assert_eq!(chosen.0, names(&["assets", "images"]));
    assert_eq!(chosen.1, "a_1.png");
}

#[test]
fn layout_plan_creates_fifteen_directories() {
    let plan = create_directories(&Vec::new());
    assert_eq!(plan.len(), 15);
    assert_eq!(plan[0].0, names(&["assets"]));
    assert_eq!(plan[1].0, names(&["assets", "animation"]));
    assert_eq!(plan[14].0, names(&["assets", "xcalidrawings"]));
    assert!(plan.iter().all(|e| !e.1));
}

#[test]
fn layout_plan_is_idempotent() {
    let first = create_directories(&Vec::new());
    let created: Vec<Vec<String>> = first.iter().map(|e| e.0.clone()).collect();
    let second = create_directories(&created);
    assert_eq!(second.len(), 15);
    assert!(second.iter().all(|e| e.1));
    let again: Vec<Vec<String>> = second.iter().map(|e| e.0.clone()).collect();
    assert_eq!(created, again);
}

#[test]
fn layout_plan_keeps_partial_layout() {
    let existing = vec![names(&["assets"]), names(&["assets", "images"])];
    let plan = create_directories(&existing);
    assert!(plan[0].1);
    assert!(plan.iter().any(|e| e.0 == names(&["assets", "images"]) && e.1));
    assert!(plan.iter().any(|e| e.0 == names(&["assets", "video"]) && !e.1));
}

#[test]
fn tally_counts_each_outcome_alone() {
    let mut outcomes = vec![true; 9];
    outcomes.push(false);
    let (moved, errored) = tally_outcomes(&outcomes);
    assert_eq!(moved, 9);
    assert_eq!(errored, 1);
    let (all, none) = tally_outcomes(&vec![true, true]);
    assert_eq!(all, 2);
    assert_eq!(none, 0);
    let (zero, zero_err) = tally_outcomes(&Vec::new());
    assert_eq!(zero, 0);
    assert_eq!(zero_err, 0);
}
