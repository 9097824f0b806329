//! Unit configuration derived from a package manifest: the package's name,
//! its conventional entry files, and its declared dependencies.  Reading and
//! parsing the manifest is a collaborator's job; this module holds the rules
//! that turn the manifest's facts into a unit configuration.

use vstd::prelude::*;
use vstd::string::StringExecFns;
use crate::text::clone_string;

verus! {

/// The characters of the conventional source directory suffix `/src`.
pub open spec fn src_suffix() -> Seq<char> {
    seq!['/', 's', 'r', 'c']
}

/// The characters of the conventional entry file name `/main.rs`.
pub open spec fn main_file_suffix() -> Seq<char> {
    seq!['/', 'm', 'a', 'i', 'n', '.', 'r', 's']
}

/// The characters of the conventional entry file name `/lib.rs`.
pub open spec fn lib_file_suffix() -> Seq<char> {
    seq!['/', 'l', 'i', 'b', '.', 'r', 's']
}

/// The fallback package name when the manifest declares none.
pub open spec fn unknown_name() -> Seq<char> {
    seq!['u', 'n', 'k', 'n', 'o', 'w', 'n']
}

/// The entry files a package offers, given which conventional roots exist.
pub open spec fn spec_entry_points(dir: Seq<char>, has_main: bool, has_lib: bool) -> Seq<
    Seq<char>,
> {
    let src = dir + src_suffix();
    (if has_main {
        seq![src + main_file_suffix()]
    } else {
        Seq::empty()
    }) + (if has_lib {
        seq![src + lib_file_suffix()]
    } else {
        Seq::empty()
    })
}

/// One package's configuration, as read from its manifest and source layout.
pub struct CargoConfig {
    pub name: String,
    pub entry_points: Vec<String>,
    pub src_path: String,
    pub is_workspace: bool,
    pub dependencies: Vec<String>,
}

impl CargoConfig {
    /// Builds a package's configuration from the facts a manifest and the
    /// filesystem supply: the declared package name if any, whether the
    /// manifest holds a workspace table, which conventional entry files
    /// exist under `dir/src`, and the declared dependency names.
    pub fn from_manifest(
        dir: &str,
        package_name: Option<String>,
        has_workspace: bool,
        has_main: bool,
        has_lib: bool,
        dependencies: Vec<String>,
    ) -> (r: CargoConfig)
        ensures
            r.name@ == match package_name {
                Some(n) => n@,
                None => unknown_name(),
            },
            r.src_path@ == dir@ + src_suffix(),
            r.entry_points.deep_view() == spec_entry_points(dir@, has_main, has_lib),
            r.is_workspace == has_workspace,
            r.dependencies == dependencies,
    {
        proof {
            reveal_strlit("unknown");
            reveal_strlit("/src");
            reveal_strlit("/main.rs");
            reveal_strlit("/lib.rs");
            assert("unknown"@ =~= unknown_name());
            assert("/src"@ =~= src_suffix());
            assert("/main.rs"@ =~= main_file_suffix());
            assert("/lib.rs"@ =~= lib_file_suffix());
        }
        let name = match package_name {
            Some(n) => n,
            None => String::from_str("unknown"),
        };
        let mut src_path = String::from_str(dir);
        src_path.append("/src");
        proof {
            assert(src_path@ =~= dir@ + src_suffix());
        }
        let mut entry_points: Vec<String> = Vec::new();
        proof {
            assert(entry_points.deep_view() =~= Seq::<Seq<char>>::empty());
        }
        if has_main {
            let ghost pre = entry_points.deep_view();
            let mut p = clone_string(&src_path);
            p.append("/main.rs");
            entry_points.push(p);
            proof {
                assert(entry_points.deep_view() =~= pre.push(src_path@ + main_file_suffix()));
            }
        }
        if has_lib {
            let ghost pre = entry_points.deep_view();
            let mut p = clone_string(&src_path);
            p.append("/lib.rs");
            entry_points.push(p);
            proof {
                assert(entry_points.deep_view() =~= pre.push(src_path@ + lib_file_suffix()));
            }
        }
        proof {
            assert(entry_points.deep_view() =~= spec_entry_points(dir@, has_main, has_lib));
        }
        CargoConfig { name, entry_points, src_path, is_workspace: has_workspace, dependencies }
    }
}

/// A workspace's member packages, each with its configuration.
pub struct WorkspaceAnalyzer {
    pub root_path: String,
    pub members: Vec<CargoConfig>,
}

/// The entry files of all members, in member order.
pub open spec fn members_entries(ms: Seq<CargoConfig>) -> Seq<Seq<char>>
    decreases ms.len(),
{
    if ms.len() == 0 {
        Seq::empty()
    } else {
        members_entries(ms.drop_last()) + ms.last().entry_points.deep_view()
    }
}

impl WorkspaceAnalyzer {
    /// Gathers the member configurations under a workspace root.  Reading
    /// the root manifest and each member's manifest is a collaborator's job.
    pub fn new(root_path: String, members: Vec<CargoConfig>) -> (r: WorkspaceAnalyzer)
        ensures
            r.root_path == root_path,
            r.members == members,
    {
        WorkspaceAnalyzer { root_path, members }
    }

    /// Every member's entry files, flattened in member order.
    pub fn get_entry_points(&self) -> (r: Vec<String>)
        ensures
            r.deep_view() == members_entries(self.members@),
    {
        let ghost ms = self.members@;
        let mut out: Vec<String> = Vec::new();
        let mut i: usize = 0;
        proof {
            assert(ms.subrange(0, 0) =~= Seq::<CargoConfig>::empty());
            assert(out.deep_view() =~= members_entries(ms.subrange(0, 0)));
        }
        while i < self.members.len()
            invariant
                ms == self.members@,
                i <= ms.len(),
                out.deep_view() == members_entries(ms.subrange(0, i as int)),
            decreases ms.len() - i,
        {
            let m = &self.members[i];
            let ghost es = m.entry_points.deep_view();
            let ghost base = out.deep_view();
            let mut j: usize = 0;
            proof {
                assert(es.subrange(0, 0) =~= Seq::<Seq<char>>::empty());
                assert(base + es.subrange(0, 0) =~= base);
            }
            while j < m.entry_points.len()
                invariant
                    ms == self.members@,
                    i < ms.len(),
                    m == ms[i as int],
                    es == m.entry_points.deep_view(),
                    es.len() == m.entry_points@.len(),
                    j <= es.len(),
                    base == members_entries(ms.subrange(0, i as int)),
                    out.deep_view() == base + es.subrange(0, j as int),
                decreases es.len() - j,
            {
                proof {
                    assert(es[j as int] == m.entry_points@[j as int]@);
                }
                let ghost pre = out.deep_view();
                out.push(clone_string(&m.entry_points[j]));
                proof {
                    assert(out.deep_view() =~= pre.push(es[j as int]));
                    assert(pre.push(es[j as int]) =~= base + es.subrange(0, j + 1));
                }
                j = j + 1;
            }
            proof {
                assert(es.subrange(0, es.len() as int) =~= es);
                assert(ms.subrange(0, i + 1).drop_last() =~= ms.subrange(0, i as int));
                assert(ms.subrange(0, i + 1).last() == ms[i as int]);
            }
            i = i + 1;
        }
        proof {
            assert(ms.subrange(0, ms.len() as int) =~= ms);
        }
        out
    }

    /// Whether more than one member package was gathered.
    pub fn is_workspace(&self) -> (r: bool)
        ensures
            r == (self.members@.len() > 1),
    {
        self.members.len() > 1
    }
}

} // verus!
