//! File-name arithmetic: splitting a name into stem and extension, decimal
//! suffixes, and collision-free destination names.

use vstd::prelude::*;

verus! {

/// The decimal digit character for `d` (`0 <= d <= 9`).
pub open spec fn digit_char(d: nat) -> char {
    if d == 0 {
        '0'
    } else if d == 1 {
        '1'
    } else if d == 2 {
        '2'
    } else if d == 3 {
        '3'
    } else if d == 4 {
        '4'
    } else if d == 5 {
        '5'
    } else if d == 6 {
        '6'
    } else if d == 7 {
        '7'
    } else if d == 8 {
        '8'
    } else {
        '9'
    }
}

/// The decimal representation of `k`, most significant digit first,
/// without leading zeros (`dec_rep(0) == seq!['0']`).
pub open spec fn dec_rep(k: nat) -> Seq<char>
    decreases k,
{
    if k < 10 {
        seq![digit_char(k)]
    } else {
        dec_rep(k / 10).push(digit_char(k % 10))
    }
}

pub proof fn lemma_dec_rep_len(k: nat)
    ensures
        dec_rep(k).len() >= 1,
        k >= 10 ==> dec_rep(k).len() >= 2,
    decreases k,
{
    if k >= 10 {
        lemma_dec_rep_len(k / 10);
    }
}

/// Two different numbers never share a decimal representation.
pub proof fn lemma_dec_rep_injective(k1: nat, k2: nat)
    requires
        dec_rep(k1) == dec_rep(k2),
    ensures
        k1 == k2,
    decreases k1,
{
    lemma_dec_rep_len(k1);
    lemma_dec_rep_len(k2);
    if k1 < 10 && k2 < 10 {
        assert(dec_rep(k1)[0] == dec_rep(k2)[0]);
        assert(seq![digit_char(k1)][0] == digit_char(k1));
        assert(seq![digit_char(k2)][0] == digit_char(k2));
        assert(digit_char(k1) == digit_char(k2));
        assert(k1 == k2);
    } else if k1 < 10 {
        assert(dec_rep(k1).len() == 1 && dec_rep(k2).len() >= 2);
        assert(false);
    } else if k2 < 10 {
        assert(dec_rep(k1).len() >= 2 && dec_rep(k2).len() == 1);
        assert(false);
    } else {
        let s1 = dec_rep(k1 / 10);
        let s2 = dec_rep(k2 / 10);
        assert(s1.push(digit_char(k1 % 10)).last() == digit_char(k1 % 10));
        assert(s2.push(digit_char(k2 % 10)).last() == digit_char(k2 % 10));
        assert(k1 % 10 == k2 % 10);
        assert(dec_rep(k1) == s1.push(digit_char(k1 % 10)));
        assert(dec_rep(k2) == s2.push(digit_char(k2 % 10)));
        assert(s1.len() == s2.len());
        assert forall|i: int| 0 <= i < s1.len() implies s1[i] == s2[i] by {
            assert(s1[i] == s1.push(digit_char(k1 % 10))[i]);
            assert(s2[i] == s2.push(digit_char(k2 % 10))[i]);
        }
        assert(s1 =~= s2);
        lemma_dec_rep_injective(k1 / 10, k2 / 10);
        assert(k1 == 10 * (k1 / 10) + k1 % 10) by (nonlinear_arith);
        assert(k2 == 10 * (k2 / 10) + k2 % 10) by (nonlinear_arith);
    }
}

/// Appends the decimal representation of `k` to `s`.
pub fn append_decimal(s: &mut String, k: u64)
    ensures
        final(s)@ == old(s)@ + dec_rep(k as nat),
    decreases k,
{
    if k < 10 {
        let d = digit_str(k);
        s.append(d);
        proof {
            assert(old(s)@ + seq![digit_char(k as nat)] == old(s)@ + dec_rep(k as nat));
        }
    } else {
        append_decimal(s, k / 10);
        let d = digit_str(k % 10);
        s.append(d);
        proof {
            assert((old(s)@ + dec_rep((k / 10) as nat)) + seq![digit_char((k % 10) as nat)]
                =~= old(s)@ + dec_rep(k as nat));
        }
    }
}

/// The one-character string slice for the digit `d`.
fn digit_str(d: u64) -> (s: &'static str)
    requires
        d < 10,
    ensures
        s@ == seq![digit_char(d as nat)],
{
    proof {
        reveal_strlit("0");
        reveal_strlit("1");
        reveal_strlit("2");
        reveal_strlit("3");
        reveal_strlit("4");
        reveal_strlit("5");
        reveal_strlit("6");
        reveal_strlit("7");
        reveal_strlit("8");
        reveal_strlit("9");
    }
    let s: &'static str = if d == 0 {
        "0"
    } else if d == 1 {
        "1"
    } else if d == 2 {
        "2"
    } else if d == 3 {
        "3"
    } else if d == 4 {
        "4"
    } else if d == 5 {
        "5"
    } else if d == 6 {
        "6"
    } else if d == 7 {
        "7"
    } else if d == 8 {
        "8"
    } else {
        "9"
    };
    proof {
        assert(s@ =~= seq![digit_char(d as nat)]);
    }
    s
}

/// The index of the last `'.'` that separates a stem from an extension:
/// the greatest `i` with `1 <= i < name.len()` and `name[i] == '.'`, or `-1`
/// when there is none. A dot at index 0 (a leading dot, as in a hidden file)
/// never separates an extension.
pub open spec fn last_dot(name: Seq<char>) -> int
    decreases name.len(),
{
    if name.len() <= 1 {
        -1
    } else if name[name.len() - 1] == '.' {
        name.len() - 1
    } else {
        last_dot(name.drop_last())
    }
}

pub proof fn lemma_last_dot_bounds(name: Seq<char>)
    ensures
        last_dot(name) == -1 || (1 <= last_dot(name) < name.len() && name[last_dot(name)] == '.'),
    decreases name.len(),
{
    if name.len() > 1 && name[name.len() - 1] != '.' {
        lemma_last_dot_bounds(name.drop_last());
    }
}

/// The part of a file name before its extension; the whole name when there
/// is no extension.
pub open spec fn stem_of(name: Seq<char>) -> Seq<char> {
    if last_dot(name) == -1 {
        name
    } else {
        name.subrange(0, last_dot(name))
    }
}

/// The part of a file name after the last separating dot; empty when there
/// is no such dot (and also for a name that ends in a dot).
pub open spec fn ext_of(name: Seq<char>) -> Seq<char> {
    if last_dot(name) == -1 {
        Seq::empty()
    } else {
        name.subrange(last_dot(name) + 1, name.len() as int)
    }
}

/// The `k`-numbered variant of a file name: `photo.jpg` becomes `photo_3.jpg`
/// for `k == 3`, and a name without an extension gets the suffix at its end
/// (`notes` becomes `notes_3`).
pub open spec fn numbered_name(name: Seq<char>, k: nat) -> Seq<char> {
    if ext_of(name).len() == 0 {
        stem_of(name) + seq!['_'] + dec_rep(k)
    } else {
        stem_of(name) + seq!['_'] + dec_rep(k) + seq!['.'] + ext_of(name)
    }
}

/// Different suffix numbers always give different names.
pub proof fn lemma_numbered_name_injective(name: Seq<char>, k1: nat, k2: nat)
    requires
        numbered_name(name, k1) == numbered_name(name, k2),
    ensures
        k1 == k2,
{
    let p = stem_of(name).len() + 1;
    let n1 = numbered_name(name, k1);
    let n2 = numbered_name(name, k2);
    if ext_of(name).len() == 0 {
        assert(n1.len() == p + dec_rep(k1).len());
        assert(n2.len() == p + dec_rep(k2).len());
    } else {
        assert(n1.len() == p + dec_rep(k1).len() + 1 + ext_of(name).len());
        assert(n2.len() == p + dec_rep(k2).len() + 1 + ext_of(name).len());
    }
    let l = dec_rep(k1).len();
    assert(l == dec_rep(k2).len());
    assert(dec_rep(k1) =~= n1.subrange(p as int, (p + l) as int)) by {
        assert(forall|i: int|
            0 <= i < l ==> n1[p + i] == #[trigger] dec_rep(k1)[i]);
    }
    assert(dec_rep(k2) =~= n2.subrange(p as int, (p + l) as int)) by {
        assert(forall|i: int|
            0 <= i < l ==> n2[p + i] == #[trigger] dec_rep(k2)[i]);
    }
    lemma_dec_rep_injective(k1, k2);
}

/// Finds the last separating dot of `name`, as `last_dot` defines it.
pub fn find_last_dot(name: &str) -> (r: Option<usize>)
    ensures
        match r {
            Some(i) => last_dot(name@) == i as int,
            None => last_dot(name@) == -1,
        },
{
    let len = name.unicode_len();
    let mut i = len;
    proof {
        assert(name@.subrange(0, len as int) =~= name@);
    }
    while i >= 2
        invariant
            i <= len,
            len as int == name@.len(),
            last_dot(name@) == last_dot(name@.subrange(0, i as int)),
        decreases i,
    {
        let c = name.get_char(i - 1);
        proof {
            assert(name@.subrange(0, i as int).len() == i);
            assert(name@.subrange(0, i as int)[i - 1] == name@[i - 1]);
        }
        if c == '.' {
            return Some(i - 1);
        }
        proof {
            assert(name@.subrange(0, i as int).drop_last() =~= name@.subrange(0, i - 1));
        }
        i = i - 1;
    }
    proof {
        assert(name@.subrange(0, i as int).len() <= 1);
    }
    None
}

/// Builds the `k`-numbered variant of `name`, as `numbered_name` defines it.
pub fn make_numbered(name: &str, k: u64) -> (r: String)
    ensures
        r@ == numbered_name(name@, k as nat),
{
    proof {
        reveal_strlit("_");
        reveal_strlit(".");
        lemma_last_dot_bounds(name@);
    }
    let len = name.unicode_len();
    let dot = find_last_dot(name);
    let mut r: String;
    match dot {
        None => {
            r = String::from_str(name);
            r.append("_");
            append_decimal(&mut r, k);
            proof {
                assert(("_")@ =~= seq!['_']);
                assert(r@ =~= numbered_name(name@, k as nat));
            }
        },
        Some(d) => {
            let stem = name.substring_char(0, d);
            r = String::from_str(stem);
            r.append("_");
            append_decimal(&mut r, k);
            if d + 1 < len {
                let ext = name.substring_char(d + 1, len);
                r.append(".");
                r.append(ext);
                proof {
                    assert(("_")@ =~= seq!['_']);
                    assert((".")@ =~= seq!['.']);
                    assert(ext_of(name@).len() > 0);
                    assert(r@ =~= numbered_name(name@, k as nat));
                }
            } else {
                proof {
                    assert(("_")@ =~= seq!['_']);
                    assert(ext_of(name@).len() == 0);
                    assert(r@ =~= numbered_name(name@, k as nat));
                }
            }
        },
    }
    r
}

/// Whether some entry of `existing` is the name `s`.
pub open spec fn name_taken(existing: Seq<Seq<char>>, s: Seq<char>) -> bool {
    exists|i: int| 0 <= i < existing.len() && existing[i] == s
}

/// Whether `s` is one of the names in `existing`.
pub fn contains_name(existing: &Vec<String>, s: &String) -> (r: bool)
    ensures
        r == name_taken(existing.deep_view(), s@),
{
    let mut i: usize = 0;
    while i < existing.len()
        invariant
            i <= existing.len(),
            forall|j: int| 0 <= j < i ==> existing.deep_view()[j] != s@,
        decreases existing.len() - i,
    {
        proof {
            assert(existing.deep_view()[i as int] == existing@[i as int]@);
        }
        if existing[i] == *s {
            return true;
        }
        i = i + 1;
    }
    false
}

/// If the numbered variants of `name` for every suffix from `lo` to
/// `lo + m - 1` are all taken, `existing` holds at least `m` entries: each
/// suffix needs its own witness, since different suffixes give different
/// names.
proof fn lemma_taken_suffixes_bound(name: Seq<char>, existing: Seq<Seq<char>>, lo: nat, m: nat)
    requires
        forall|j: nat| lo <= j < lo + m ==> name_taken(existing, #[trigger] numbered_name(name, j)),
    ensures
        m <= existing.len(),
    decreases m,
{
    if m > 0 {
        assert(name_taken(existing, numbered_name(name, lo)));
        let i = choose|i: int|
            0 <= i < existing.len() && existing[i] == numbered_name(name, lo);
        let rest = existing.remove(i);
        assert forall|j: nat| lo + 1 <= j < lo + 1 + (m - 1) implies name_taken(
            rest,
            #[trigger] numbered_name(name, j),
        ) by {
            assert(name_taken(existing, numbered_name(name, j)));
            let w = choose|w: int|
                0 <= w < existing.len() && existing[w] == numbered_name(name, j);
            if existing[w] == numbered_name(name, lo) {
                lemma_numbered_name_injective(name, j, lo);
            }
            if w < i {
                assert(rest[w] == numbered_name(name, j));
            } else {
                assert(rest[w - 1] == numbered_name(name, j));
            }
        }
        lemma_taken_suffixes_bound(name, rest, lo + 1, (m - 1) as nat);
    }
}

/// Picks the name a file lands under in a destination holding `existing`:
/// the file's own name when it is free, else its first free numbered
/// variant. An existing file is never overwritten.
pub fn resolve_collision(file_name: &String, existing: &Vec<String>) -> (r: String)
    requires
        existing@.len() < u64::MAX,
    ensures
        !name_taken(existing.deep_view(), r@),
        !name_taken(existing.deep_view(), file_name@) ==> r@ == file_name@,
        name_taken(existing.deep_view(), file_name@) ==> exists|k: nat|
            1 <= k && r@ == numbered_name(file_name@, k) && !name_taken(
                existing.deep_view(),
                numbered_name(file_name@, k),
            ) && forall|j: nat|
                1 <= j < k ==> name_taken(
                    existing.deep_view(),
                    #[trigger] numbered_name(file_name@, j),
                ),
{
    if contains_name(existing, file_name) {
        get_unique_filename(file_name, existing)
    } else {
        file_name.clone()
    }
}

/// Chooses the first free numbered variant of `name`: the result carries the
/// least suffix `k >= 1` whose numbered name is not yet in `existing`, so an
/// occupied destination is never reused.
pub fn get_unique_filename(name: &String, existing: &Vec<String>) -> (r: String)
    requires
        existing@.len() < u64::MAX,
    ensures
        exists|k: nat|
            1 <= k && r@ == numbered_name(name@, k) && !name_taken(
                existing.deep_view(),
                numbered_name(name@, k),
            ) && forall|j: nat|
                1 <= j < k ==> name_taken(existing.deep_view(), #[trigger] numbered_name(name@, j)),
{
    let ghost ex = existing.deep_view();
    proof {
        assert(ex.len() == existing@.len());
    }
    let mut k: u64 = 1;
    let mut cand = make_numbered(name.as_str(), 1);
    while contains_name(existing, &cand)
        invariant
            1 <= k,
            k <= ex.len() + 1,
            ex == existing.deep_view(),
            ex.len() == existing@.len() < u64::MAX,
            cand@ == numbered_name(name@, k as nat),
            forall|j: nat| 1 <= j < k ==> name_taken(ex, #[trigger] numbered_name(name@, j)),
        decreases ex.len() + 1 - k,
    {
        proof {
            assert forall|j: nat| 1 <= j < k + 1 implies name_taken(
                ex,
                #[trigger] numbered_name(name@, j),
            ) by {
                if j == k {
                    assert(cand@ == numbered_name(name@, k as nat));
                }
            }
            if k as int == ex.len() + 1 {
                lemma_taken_suffixes_bound(name@, ex, 1, (ex.len() + 1) as nat);
                assert(false);
            }
        }
        k = k + 1;
        cand = make_numbered(name.as_str(), k);
    }
    proof {
        assert(1 <= k as nat && cand@ == numbered_name(name@, k as nat) && !name_taken(
            ex,
            numbered_name(name@, k as nat),
        ));
    }
    cand
}

} // verus!
