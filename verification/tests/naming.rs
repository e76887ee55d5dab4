use extorg::names::get_unique_filename;
use extorg::table::get_extension_mapping;
use extorg::table::lookup_category;
use extorg::relocate::plan_move;

fn s(x: &str) -> String {
    x.to_string()
}

fn names(xs: &[&str]) -> Vec<String> {
    xs.iter().map(|x| x.to_string()).collect()
}

#[test]
fn unique_name_first_suffix() {
    let r = get_unique_filename(&s("photo.jpg"), &names(&["photo.jpg"]));
    assert_eq!(r, "photo_1.jpg");
}

#[test]
fn unique_name_skips_taken_suffixes() {
    let r = get_unique_filename(&s("photo.jpg"), &names(&["photo.jpg", "photo_1.jpg"]));
    assert_eq!(r, "photo_2.jpg");
    let r2 = get_unique_filename(
        &s("photo.jpg"),
        &names(&["photo.jpg", "photo_1.jpg", "photo_2.jpg"]),
    );
    assert_eq!(r2, "photo_3.jpg");
}

#[test]
fn unique_name_without_extension() {
    let r = get_unique_filename(&s("README"), &names(&["README"]));
    assert_eq!(r, "README_1");
}

#[test]
fn unique_name_trailing_dot_drops_dot() {
    let r = get_unique_filename(&s("notes."), &names(&["notes."]));
    assert_eq!(r, "notes_1");
}

#[test]
fn unique_name_hidden_file_keeps_whole_name_as_stem() {
    let r = get_unique_filename(&s(".gitignore"), &names(&[".gitignore"]));
    assert_eq!(r, ".gitignore_1");
}

#[test]
fn unique_name_double_extension_splits_at_last_dot() {
    let r = get_unique_filename(&s("archive.tar.gz"), &names(&["archive.tar.gz"]));
    assert_eq!(r, "archive.tar_1.gz");
}

#[test]
fn unique_name_many_collisions() {
    let mut taken: Vec<String> = vec!["a.png".to_string()];
    for k in 1..1000 {
        taken.push(format!("a_{}.png", k));
    }
    let r = get_unique_filename(&s("a.png"), &taken);
    assert_eq!(r, "a_1000.png");
}

#[test]
fn table_maps_known_extensions() {
    let table = get_extension_mapping();
    assert_eq!(lookup_category(&table, "jpg"), Some(s("images")));
    assert_eq!(lookup_category(&table, "pdf"), Some(s("documents")));
    assert_eq!(lookup_category(&table, "md"), Some(s("markdown_files")));
    assert_eq!(lookup_category(&table, "mkv"), Some(s("video")));
    assert_eq!(lookup_category(&table, "excalidraw"), Some(s("xcalidrawings")));
}

#[test]
fn table_lookup_is_case_insensitive() {
    let table = get_extension_mapping();
    assert_eq!(lookup_category(&table, "JPG"), Some(s("images")));
    assert_eq!(lookup_category(&table, "PnG"), Some(s("images")));
    assert_eq!(lookup_category(&table, "WEBM"), Some(s("animation")));
}

#[test]
fn table_last_registration_wins_for_canvas() {
    let table = get_extension_mapping();
    assert_eq!(lookup_category(&table, "canvas"), Some(s("obsidian_canvae")));
}

#[test]
fn table_rejects_unknown_and_empty_extensions() {
    let table = get_extension_mapping();
    assert_eq!(lookup_category(&table, "exe"), None);
    assert_eq!(lookup_category(&table, ""), None);
    assert_eq!(lookup_category(&table, "jpgg"), None);
}

#[test]
fn custom_table_is_honoured() {
    let table = vec![(s("foo"), s("first")), (s("foo"), s("second"))];
    assert_eq!(lookup_category(&table, "foo"), Some(s("second")));
    assert_eq!(lookup_category(&table, "FOO"), Some(s("second")));
    assert_eq!(lookup_category(&table, "bar"), None);
}

#[test]
fn plan_move_free_destination_keeps_name() {
    let canonical = names(&["assets"]);
    let (dir, name) = plan_move(&s("a.png"), &s("images"), &canonical, &names(&["b.png"]));
    assert_eq!(dir, names(&["assets", "images"]));
    assert_eq!(name, "a.png");
}

#[test]
fn plan_move_occupied_destination_numbers_name() {
    let canonical = names(&["assets"]);
    let (dir, name) = plan_move(&s("a.png"), &s("images"), &canonical, &names(&["a.png"]));
    assert_eq!(dir, names(&["assets", "images"]));
    assert_eq!(name, "a_1.png");
}
