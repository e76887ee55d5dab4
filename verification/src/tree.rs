//! A snapshot of a directory tree as a plain value, and path utilities.
//! A path is a list of name components, relative to the scan root.

use vstd::prelude::*;

verus! {

/// One entry of a directory tree: a file, or a directory with its entries.
pub enum FsNode {
    File { name: String },
    Dir { name: String, entries: Vec<FsNode> },
}

impl FsNode {
    /// The entry's own name.
    pub open spec fn name_view(self) -> Seq<char> {
        match self {
            FsNode::File { name } => name@,
            FsNode::Dir { name, .. } => name@,
        }
    }

}

/// Whether two paths name the same place.
pub fn path_eq(a: &Vec<String>, b: &Vec<String>) -> (r: bool)
    ensures
        r == (a.deep_view() == b.deep_view()),
{
    if a.len() != b.len() {
        proof {
            assert(a.deep_view().len() == a@.len());
            assert(b.deep_view().len() == b@.len());
        }
        return false;
    }
    let mut i: usize = 0;
    while i < a.len()
        invariant
            i <= a@.len(),
            a@.len() == b@.len(),
            forall|j: int| 0 <= j < i ==> a.deep_view()[j] == b.deep_view()[j],
        decreases a@.len() - i,
    {
        proof {
            assert(a.deep_view()[i as int] == a@[i as int]@);
            assert(b.deep_view()[i as int] == b@[i as int]@);
        }
        if !(a[i] == b[i]) {
            return false;
        }
        i = i + 1;
    }
    proof {
        assert(a.deep_view() =~= b.deep_view());
    }
    true
}

/// Whether `prefix` is a leading run of `p`'s components (equality counts).
pub fn path_starts_with(p: &Vec<String>, prefix: &Vec<String>) -> (r: bool)
    ensures
        r == prefix.deep_view().is_prefix_of(p.deep_view()),
{
    if prefix.len() > p.len() {
        proof {
            assert(prefix.deep_view().len() == prefix@.len());
            assert(p.deep_view().len() == p@.len());
        }
        return false;
    }
    let mut i: usize = 0;
    while i < prefix.len()
        invariant
            i <= prefix@.len(),
            prefix@.len() <= p@.len(),
            forall|j: int| 0 <= j < i ==> prefix.deep_view()[j] == p.deep_view()[j],
        decreases prefix@.len() - i,
    {
        proof {
            assert(prefix.deep_view()[i as int] == prefix@[i as int]@);
            assert(p.deep_view()[i as int] == p@[i as int]@);
        }
        if !(prefix[i] == p[i]) {
            proof {
                assert(prefix.deep_view()[i as int] != p.deep_view()[i as int]);
                assert(p.deep_view().subrange(0, prefix.deep_view().len() as int)[i as int]
                    == p.deep_view()[i as int]);
            }
            return false;
        }
        i = i + 1;
    }
    proof {
        assert(prefix.deep_view() =~= p.deep_view().subrange(0, prefix.deep_view().len() as int));
    }
    true
}

/// A copy of `path` with `name` appended.
pub fn path_child(path: &Vec<String>, name: &String) -> (r: Vec<String>)
    ensures
        r.deep_view() == path.deep_view().push(name@),
{
    let mut r = path.clone();
    r.push(name.clone());
    proof {
        assert(r.deep_view() =~= path.deep_view().push(name@));
    }
    r
}

} // verus!
