//! The module search path: the entry file's directory first, then the
//! library directories an `emet.json` manifest lists (relative to the
//! manifest's directory), each once.
use vstd::prelude::*;

verus! {

/// The path `rel` names relative to `base`, as `Path::join` builds it on the
/// target platform.
pub uninterp spec fn joined_path(base: Seq<char>, rel: Seq<char>) -> Seq<char>;

/// Whether two path texts name the same path component by component, as
/// `Path`'s `==` decides.
pub uninterp spec fn same_path(a: Seq<char>, b: Seq<char>) -> bool;

/// `Path::join`, on paths held as text.
#[verifier::external_body]
fn join_path(base: &str, rel: &str) -> (r: String)
    ensures
        r@ == joined_path(base@, rel@),
{
    std::path::Path::new(base).join(rel).to_string_lossy().into_owned()
}

/// `Path`'s `==`, on paths held as text.
#[verifier::external_body]
fn path_eq(a: &str, b: &str) -> (r: bool)
    ensures
        r == same_path(a@, b@),
{
    std::path::Path::new(a) == std::path::Path::new(b)
}

/// Where a program's modules are looked up, in order.
pub struct SearchPath {
    directories: Vec<String>,
}

impl View for SearchPath {
    type V = Seq<Seq<char>>;

    closed spec fn view(&self) -> Seq<Seq<char>> {
        self.directories@.map_values(|d: String| d@)
    }
}

/// Some path of the list is the same path as `p`.
pub open spec fn listed(dirs: Seq<Seq<char>>, p: Seq<char>) -> bool {
    exists|i: int| 0 <= i < dirs.len() && same_path(#[trigger] dirs[i], p)
}

/// The search path: the entry directory, then each library directory joined
/// to the manifest's directory, skipping any that names a path already on the
/// list.
pub open spec fn search_dirs(entry_dir: Seq<char>, manifest_dir: Seq<char>, rels: Seq<Seq<char>>) -> Seq<Seq<char>>
    decreases rels.len(),
{
    if rels.len() == 0 {
        seq![entry_dir]
    } else {
        let before = search_dirs(entry_dir, manifest_dir, rels.drop_last());
        let p = joined_path(manifest_dir, rels.last());
        if listed(before, p) {
            before
        } else {
            before.push(p)
        }
    }
}

impl SearchPath {
    /// The directories searched, in order.
    pub fn directories(&self) -> (r: &[String])
        ensures
            r@.map_values(|d: String| d@) == self@,
    {
        self.directories.as_slice()
    }
}

/// The search path of a program whose entry file lies in `entry_dir`, given
/// the manifest found above it, if any: its directory and its listed
/// `source-directories`.
pub fn search_path_for(entry_dir: String, manifest: Option<(String, Vec<String>)>) -> (r: SearchPath)
    ensures
        match manifest {
            None => r@ == seq![entry_dir@],
            Some((dir, rels)) => r@ == search_dirs(
                entry_dir@,
                dir@,
                rels@.map_values(|s: String| s@),
            ),
        },
{
    let ghost e = entry_dir@;
    let mut directories: Vec<String> = Vec::new();
    directories.push(entry_dir);
    proof {
        assert(directories@.map_values(|d: String| d@) =~= seq![e]);
    }
    match manifest {
        None => SearchPath { directories },
        Some((dir, rels)) => {
            let ghost rv = rels@.map_values(|s: String| s@);
            let mut i: usize = 0;
            while i < rels.len()
                invariant
                    i <= rels@.len(),
                    rv == rels@.map_values(|s: String| s@),
                    directories@.map_values(|d: String| d@) == search_dirs(
                        e,
                        dir@,
                        rv.subrange(0, i as int),
                    ),
                decreases rels.len() - i,
            {
                let ghost before = directories@.map_values(|d: String| d@);
                let p = join_path(dir.as_str(), rels[i].as_str());
                let mut seen = false;
                let mut k: usize = 0;
                while k < directories.len()
                    invariant
                        k <= directories@.len(),
                        before == directories@.map_values(|d: String| d@),
                        seen <==> exists|j: int| 0 <= j < k && same_path(#[trigger] before[j], p@),
                    decreases directories.len() - k,
                {
                    proof {
                        assert(before[k as int] == directories@[k as int]@);
                    }
                    if path_eq(directories[k].as_str(), p.as_str()) {
                        seen = true;
                    }
                    k = k + 1;
                }
                proof {
                    let sub = rv.subrange(0, i + 1);
                    assert(sub.drop_last() =~= rv.subrange(0, i as int));
                    assert(sub.last() == rels@[i as int]@);
                }
                if !seen {
                    directories.push(p);
                    proof {
                        assert(directories@.map_values(|d: String| d@) =~= before.push(p@));
                    }
                }
                i = i + 1;
            }
            proof {
                assert(rv.subrange(0, i as int) =~= rv);
            }
            SearchPath { directories }
        },
    }
}

} // verus!
