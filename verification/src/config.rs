//! Search-directory configuration: a list of dictionary search paths,
//! extended by OS-specific defaults. Paths are carried as plain strings;
//! reading them from a config file, and finding the home directory, is the
//! caller's concern.

use vstd::prelude::*;

verus! {

/// The host platform, as far as dictionary lookup defaults go.
#[derive(Clone, Copy, Debug, PartialEq, Eq, Structural)]
pub enum HostOs {
    MacOs,
    Linux,
    Other,
}

/// The views of a list of path strings.
pub open spec fn dir_views(v: Seq<String>) -> Seq<Seq<char>> {
    v.map_values(|s: String| s@)
}

/// The OS-specific default search directories: under macOS the user's and
/// the system's spelling directories, under Linux the common hunspell and
/// myspell directories, elsewhere none.
pub open spec fn spec_os_dirs(os: HostOs, home: Option<Seq<char>>) -> Seq<Seq<char>> {
    match os {
        HostOs::MacOs => match home {
            Some(h) => seq![h + "/Library/Spelling/"@, "/Library/Spelling/"@],
            None => Seq::<Seq<char>>::empty(),
        },
        HostOs::Linux => seq![
            "/usr/share/myspell/"@,
            "/usr/share/hunspell/"@,
            "/usr/share/myspell/dicts/"@,
        ],
        HostOs::Other => Seq::<Seq<char>>::empty(),
    }
}

/// The OS-specific default search directories, as strings. Under macOS the
/// home directory must come from the caller; without one there are no
/// defaults there.
pub fn os_specific_search_dirs(os: HostOs, home: Option<&String>) -> (r: Vec<String>)
    ensures
        dir_views(r@) == spec_os_dirs(
            os,
            match home {
                Some(h) => Some(h@),
                None => None,
            },
        ),
{
    let mut out: Vec<String> = Vec::new();
    match os {
        HostOs::MacOs => {
            match home {
                Some(h) => {
                    let mut first = h.clone();
                    first.append("/Library/Spelling/");
                    out.push(first);
                    out.push(String::from_str("/Library/Spelling/"));
                    proof {
                        assert(dir_views(out@) =~= spec_os_dirs(os, Some(h@)));
                    }
                },
                None => {
                    proof {
                        assert(dir_views(out@) =~= Seq::<Seq<char>>::empty());
                    }
                },
            }
        },
        HostOs::Linux => {
            out.push(String::from_str("/usr/share/myspell/"));
            out.push(String::from_str("/usr/share/hunspell/"));
            out.push(String::from_str("/usr/share/myspell/dicts/"));
            proof {
                assert(dir_views(out@) =~= spec_os_dirs(os, match home {
                    Some(h) => Some(h@),
                    None => None,
                }));
            }
        },
        HostOs::Other => {
            proof {
                assert(dir_views(out@) =~= Seq::<Seq<char>>::empty());
            }
        },
    }
    out
}

/// A collection of search dirs, extended on request by OS-specific defaults.
#[derive(Debug)]
pub struct SearchDirs(pub Vec<String>);

impl Default for SearchDirs {
    /// An empty collection. The OS-specific defaults are appended on request
    /// through `extend_with_os_defaults`, since which platform is running is
    /// the caller's knowledge.
    fn default() -> (r: Self)
        ensures
            r.0@ == Seq::<String>::empty(),
    {
        SearchDirs(Vec::new())
    }
}

impl SearchDirs {
    /// A collection holding exactly the given directories.
    pub fn from_dirs(dirs: Vec<String>) -> (r: SearchDirs)
        ensures
            r.0 == dirs,
    {
        SearchDirs(dirs)
    }

    /// The directories, in order.
    pub fn dirs(&self) -> (r: &Vec<String>)
        ensures
            r@ == self.0@,
    {
        &self.0
    }

    /// Append the OS-specific defaults after the configured directories;
    /// directories already present are kept, duplicates and all.
    pub fn extend_with_os_defaults(&mut self, os: HostOs, home: Option<&String>)
        ensures
            dir_views(final (self).0@) == dir_views(old(self).0@) + spec_os_dirs(
                os,
                match home {
                    Some(h) => Some(h@),
                    None => None,
                },
            ),
    {
        let mut defaults = os_specific_search_dirs(os, home);
        let ghost before = self.0@;
        let ghost added = defaults@;
        self.0.append(&mut defaults);
        proof {
            assert(dir_views(before + added) =~= dir_views(before) + dir_views(added));
        }
    }
}

} // verus!
