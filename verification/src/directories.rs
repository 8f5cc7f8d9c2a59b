//! The directories of the project that the credits are written for: its
//! root, found from the path of a file three levels below it; the Godot
//! project inside it; and the directory the credits go to.
use vstd::prelude::*;

use crate::paths::{join_path, joined_path, parent_of, parent_path};

verus! {

/// A directory of the project.
pub trait IDirectory {
    /// The directory's path.
    fn get_path(&self) -> &String;
}

/// The path `n` parents up from `p`, if there is one.
pub open spec fn ancestor(p: Seq<char>, n: nat) -> Option<Seq<char>>
    decreases n,
{
    if n == 0 {
        Some(p)
    } else {
        match ancestor(p, (n - 1) as nat) {
            Some(q) => parent_path(q),
            None => None,
        }
    }
}

/// The root of the project.
pub struct ProjectRoot {
    pub path: String,
}

/// The Godot project inside the project.
#[derive(Clone)]
pub struct GodotRoot {
    pub path: String,
}

/// The directory the credits are written to.
pub struct CreditsOutRoot {
    pub path: String,
}

impl IDirectory for ProjectRoot {
    fn get_path(&self) -> (p: &String)
        ensures
            *p == self.path,
    {
        &self.path
    }
}

impl IDirectory for GodotRoot {
    fn get_path(&self) -> (p: &String)
        ensures
            *p == self.path,
    {
        &self.path
    }
}

impl IDirectory for CreditsOutRoot {
    fn get_path(&self) -> (p: &String)
        ensures
            *p == self.path,
    {
        &self.path
    }
}

impl ProjectRoot {
    /// The root of the project, three parents up from the path of a file in
    /// it (the generator's source file lies at `<root>/<tool>/src/<file>`).
    pub fn from_path_to_this_file(path: String) -> (root: ProjectRoot)
        requires
            ancestor(path@, 3) is Some,
        ensures
            Some(root.path@) == ancestor(path@, 3),
    {
        let mut current = path;
        let mut i: usize = 0;
        while i < 3
            invariant
                i <= 3,
                ancestor(path@, 3) is Some,
                ancestor(path@, i as nat) == Some(current@),
            decreases 3 - i,
        {
            proof {
                if ancestor(path@, (i + 1) as nat) is None {
                    lemma_ancestor_none(path@, (i + 1) as nat, 3);
                }
            }
            current = parent_of(current.as_str()).unwrap();
            i = i + 1;
        }
        ProjectRoot { path: current }
    }

    /// The root of the project, three parents up from `path`, or nothing
    /// when the path has fewer than three parents.
    pub fn try_from_path_to_this_file(path: String) -> (root: Option<ProjectRoot>)
        ensures
            match root {
                Some(r) => Some(r.path@) == ancestor(path@, 3),
                None => ancestor(path@, 3) is None,
            },
    {
        let mut current = path.clone();
        let mut i: usize = 0;
        while i < 3
            invariant
                i <= 3,
                ancestor(path@, i as nat) == Some(current@),
            decreases 3 - i,
        {
            match parent_of(current.as_str()) {
                Some(p) => {
                    current = p;
                },
                None => {
                    proof {
                        lemma_ancestor_none(path@, (i + 1) as nat, 3);
                    }
                    return None;
                },
            }
            i = i + 1;
        }
        Some(ProjectRoot::from_path_to_this_file(path))
    }
}

/// Once a path has no `n`-th ancestor it has no later one either.
pub proof fn lemma_ancestor_none(p: Seq<char>, n: nat, m: nat)
    requires
        ancestor(p, n) is None,
        n <= m,
    ensures
        ancestor(p, m) is None,
    decreases m - n,
{
    if n < m {
        lemma_ancestor_none(p, n, (m - 1) as nat);
    }
}

impl GodotRoot {
    /// The Godot project: `godot/project-reindeer` inside the project root.
    pub fn from_project_root(project_root: ProjectRoot) -> (root: GodotRoot)
        ensures
            root.path@ == joined_path(project_root.path@, "godot/project-reindeer"@),
    {
        let path = join_path(project_root.get_path().as_str(), "godot/project-reindeer");
        GodotRoot { path }
    }
}

impl CreditsOutRoot {
    /// The credits directory: `about/credits` inside the Godot project.
    pub fn from_godot_root(root: GodotRoot) -> (out: CreditsOutRoot)
        ensures
            out.path@ == joined_path(root.path@, "about/credits"@),
    {
        let path = join_path(root.get_path().as_str(), "about/credits");
        CreditsOutRoot { path }
    }
}

} // verus!
