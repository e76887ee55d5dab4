//! The category table: which file extension belongs to which destination
//! directory, with case-insensitive keys and last-registration-wins lookup.

use vstd::prelude::*;
use crate::names::last_dot;
use crate::names::ext_of;

verus! {

/// ASCII lowercasing of one character; other characters are unchanged.
pub open spec fn lower_char(c: char) -> char {
    if 65 <= c as u32 && c as u32 <= 90 {
        (((c as u32) + 32) as u8) as char
    } else {
        c
    }
}

/// ASCII lowercasing of a whole name.
pub open spec fn lower_seq(s: Seq<char>) -> Seq<char> {
    s.map_values(|c: char| lower_char(c))
}

/// ASCII lowercasing of one character.
pub fn lower_char_exec(c: char) -> (r: char)
    ensures
        r == lower_char(c),
{
    let u = c as u32;
    if 65 <= u && u <= 90 {
        ((u + 32) as u8) as char
    } else {
        c
    }
}

/// Whether `key` is exactly the ASCII-lowercased form of `ext`.
pub fn matches_lowered(key: &str, ext: &str) -> (r: bool)
    ensures
        r == (key@ == lower_seq(ext@)),
{
    let klen = key.unicode_len();
    let elen = ext.unicode_len();
    if klen != elen {
        proof {
            assert(lower_seq(ext@).len() == ext@.len());
        }
        return false;
    }
    let mut i: usize = 0;
    while i < klen
        invariant
            i <= klen,
            klen as int == key@.len(),
            klen as int == ext@.len(),
            forall|j: int| 0 <= j < i ==> key@[j] == #[trigger] lower_seq(ext@)[j],
        decreases klen - i,
    {
        let kc = key.get_char(i);
        let ec = lower_char_exec(ext.get_char(i));
        if kc != ec {
            proof {
                assert(lower_seq(ext@)[i as int] == lower_char(ext@[i as int]));
            }
            return false;
        }
        proof {
            assert(lower_seq(ext@)[i as int] == lower_char(ext@[i as int]));
        }
        i = i + 1;
    }
    proof {
        assert(key@ =~= lower_seq(ext@));
    }
    true
}

/// The view of a list of `(extension, category)` pairs.
pub open spec fn pairs_view(t: Seq<(String, String)>) -> Seq<(Seq<char>, Seq<char>)> {
    t.map_values(|p: (String, String)| (p.0@, p.1@))
}

/// Looks `key` up among `pairs`, the last matching registration winning.
pub open spec fn lookup_pairs(pairs: Seq<(Seq<char>, Seq<char>)>, key: Seq<char>) -> Option<
    Seq<char>,
>
    decreases pairs.len(),
{
    if pairs.len() == 0 {
        None
    } else if pairs.last().0 == key {
        Some(pairs.last().1)
    } else {
        lookup_pairs(pairs.drop_last(), key)
    }
}

/// The category a file name is classified under, given a table of pairs:
/// `None` for a name without an extension, otherwise the last-wins lookup of
/// the ASCII-lowercased extension.
pub open spec fn category_for(pairs: Seq<(Seq<char>, Seq<char>)>, filename: Seq<char>) -> Option<
    Seq<char>,
> {
    if last_dot(filename) == -1 {
        None
    } else {
        lookup_pairs(pairs, lower_seq(ext_of(filename)))
    }
}

/// Looks the ASCII-lowercased form of `ext` up in `table`, the last matching
/// pair winning.
pub fn lookup_category(table: &Vec<(String, String)>, ext: &str) -> (r: Option<String>)
    ensures
        match r {
            Some(c) => lookup_pairs(pairs_view(table@), lower_seq(ext@)) == Some(c@),
            None => lookup_pairs(pairs_view(table@), lower_seq(ext@)) is None,
        },
{
    let ghost pairs = pairs_view(table@);
    let mut i: usize = table.len();
    proof {
        assert(pairs.subrange(0, i as int) =~= pairs);
    }
    while i > 0
        invariant
            i <= table.len(),
            pairs == pairs_view(table@),
            pairs.len() == table@.len(),
            lookup_pairs(pairs, lower_seq(ext@)) == lookup_pairs(
                pairs.subrange(0, i as int),
                lower_seq(ext@),
            ),
        decreases i,
    {
        let p = &table[i - 1];
        proof {
            assert(pairs.subrange(0, i as int).last() == pairs[i - 1]);
            assert(pairs[i - 1] == (table@[i - 1].0@, table@[i - 1].1@));
        }
        if matches_lowered(p.0.as_str(), ext) {
            return Some(p.1.clone());
        }
        proof {
            assert(pairs.subrange(0, i as int).drop_last() =~= pairs.subrange(0, i - 1));
        }
        i = i - 1;
    }
    proof {
        assert(pairs.subrange(0, 0).len() == 0);
    }
    None
}

/// The fixed registrations, in order. `canvas` is registered twice; by
/// last-wins lookup the later pair is the one in force.
pub open spec fn table_pairs() -> Seq<(Seq<char>, Seq<char>)> {
    seq![
        ("webm"@, "animation"@),
        ("gif"@, "animation"@),
        ("canvas"@, "canvae"@),
        ("csv"@, "datasets"@),
        ("pdf"@, "documents"@),
        ("docx"@, "documents"@),
        ("odt"@, "documents"@),
        ("org"@, "emacs_org_files"@),
        ("html"@, "html_pages"@),
        ("svg"@, "images"@),
        ("png"@, "images"@),
        ("jpg"@, "images"@),
        ("jpeg"@, "images"@),
        ("psd"@, "images"@),
        ("json"@, "json"@),
        ("md"@, "markdown_files"@),
        ("canvas"@, "obsidian_canvae"@),
        ("mp3"@, "sounds"@),
        ("m4a"@, "sounds"@),
        ("wav"@, "sounds"@),
        ("txt"@, "plaintext_files"@),
        ("mp4"@, "video"@),
        ("mkv"@, "video"@),
        ("excalidraw"@, "xcalidrawings"@),
    ]
}

/// The fixed extension-to-category table, as `(extension, category)` pairs
/// in registration order.
pub fn get_extension_mapping() -> (r: Vec<(String, String)>)
    ensures
        pairs_view(r@) == table_pairs(),
{
    let mut r: Vec<(String, String)> = Vec::new();
    r.push((String::from_str("webm"), String::from_str("animation")));
    r.push((String::from_str("gif"), String::from_str("animation")));
    r.push((String::from_str("canvas"), String::from_str("canvae")));
    r.push((String::from_str("csv"), String::from_str("datasets")));
    r.push((String::from_str("pdf"), String::from_str("documents")));
    r.push((String::from_str("docx"), String::from_str("documents")));
    r.push((String::from_str("odt"), String::from_str("documents")));
    r.push((String::from_str("org"), String::from_str("emacs_org_files")));
    r.push((String::from_str("html"), String::from_str("html_pages")));
    r.push((String::from_str("svg"), String::from_str("images")));
    r.push((String::from_str("png"), String::from_str("images")));
    r.push((String::from_str("jpg"), String::from_str("images")));
    r.push((String::from_str("jpeg"), String::from_str("images")));
    r.push((String::from_str("psd"), String::from_str("images")));
    r.push((String::from_str("json"), String::from_str("json")));
    r.push((String::from_str("md"), String::from_str("markdown_files")));
    r.push((String::from_str("canvas"), String::from_str("obsidian_canvae")));
    r.push((String::from_str("mp3"), String::from_str("sounds")));
    r.push((String::from_str("m4a"), String::from_str("sounds")));
    r.push((String::from_str("wav"), String::from_str("sounds")));
    r.push((String::from_str("txt"), String::from_str("plaintext_files")));
    r.push((String::from_str("mp4"), String::from_str("video")));
    r.push((String::from_str("mkv"), String::from_str("video")));
    r.push((String::from_str("excalidraw"), String::from_str("xcalidrawings")));
    proof {
        assert(pairs_view(r@) =~= table_pairs());
    }
    r
}

} // verus!
