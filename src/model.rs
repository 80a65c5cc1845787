use vstd::prelude::*;

verus! {

/// One repository as found by a listing.
pub struct RepoDescriptor {
    /// Groups from the top-level namespace down to the repository's own group.
    pub namespace_path: Vec<String>,
    pub name: String,
    pub ssh_url: String,
    pub http_url: String,
}

impl RepoDescriptor {
    /// The namespace path as a sequence of character sequences.
    pub open spec fn path_view(&self) -> Seq<Seq<char>> {
        self.namespace_path@.map_values(|s: String| s@)
    }

    /// All four fields as character sequences.
    pub open spec fn same_text(&self, o: RepoDescriptor) -> bool {
        &&& self.path_view() == o.path_view()
        &&& self.name@ == o.name@
        &&& self.ssh_url@ == o.ssh_url@
        &&& self.http_url@ == o.http_url@
    }

    /// A copy with the same text in every field.
    pub fn duplicate(&self) -> (r: RepoDescriptor)
        ensures
            r.same_text(*self),
    {
        let mut path: Vec<String> = Vec::new();
        let mut i: usize = 0;
        while i < self.namespace_path.len()
            invariant
                i <= self.namespace_path@.len(),
                path@.map_values(|s: String| s@) =~= self.path_view().take(i as int),
            decreases self.namespace_path@.len() - i,
        {
            let ghost prev = path@;
            path.push(self.namespace_path[i].clone());
            assert(path@.map_values(|s: String| s@) =~= prev.map_values(|s: String| s@).push(self.namespace_path@[i as int]@));
            i = i + 1;
        }
        assert(self.path_view().take(i as int) =~= self.path_view());
        RepoDescriptor {
            namespace_path: path,
            name: self.name.clone(),
            ssh_url: self.ssh_url.clone(),
            http_url: self.http_url.clone(),
        }
    }
}

/// The work a sync of one repository calls for.
#[derive(Clone, Copy, PartialEq, Eq, Structural, Debug)]
pub enum Planned {
    Clone,
    Update,
}

/// What a sync did to the local mirror.
#[derive(Clone, Copy, PartialEq, Eq, Structural, Debug)]
pub enum Action {
    Cloned,
    Updated,
    /// Nothing was done (dry run); the payload tells what would have been done.
    Skipped(Planned),
    /// The mirror was synced, then its local copy deleted.
    Removed,
}

#[derive(Clone, Copy, PartialEq, Eq, Structural, Debug)]
pub enum Status {
    Success,
    Failed,
}

/// The result of syncing one repository.
pub struct Outcome {
    pub descriptor: RepoDescriptor,
    pub action: Action,
    pub status: Status,
    pub error: Option<String>,
    pub duration_ms: u64,
}

/// Options of one mirror run; immutable for the run.
pub struct MirrorOptions {
    /// Base directory of all local mirrors.
    pub mirror_dir: String,
    /// Sync over HTTPS (with the token embedded) instead of SSH.
    pub use_http: bool,
    pub private_token: Option<String>,
    pub dry_run: bool,
    pub worker_count: usize,
    pub metrics_file: Option<String>,
    pub junit_file: Option<String>,
    pub git_executable: String,
    /// Refspecs to fetch; all refs when absent.
    pub refspec: Option<Vec<String>>,
    /// Delete the local copy after a successful sync.
    pub remove_workrepo: bool,
}

impl Action {
    /// Short text for reports: what was done, or what would have been.
    pub fn annotation(&self) -> (r: &'static str)
        ensures
            r@ == spec_annotation(*self),
    {
        match self {
            Action::Cloned => "cloned",
            Action::Updated => "updated",
            Action::Skipped(Planned::Clone) => "would clone",
            Action::Skipped(Planned::Update) => "would update",
            Action::Removed => "removed",
        }
    }
}

pub open spec fn spec_annotation(a: Action) -> Seq<char> {
    match a {
        Action::Cloned => "cloned"@,
        Action::Updated => "updated"@,
        Action::Skipped(Planned::Clone) => "would clone"@,
        Action::Skipped(Planned::Update) => "would update"@,
        Action::Removed => "removed"@,
    }
}

} // verus!
