use vstd::prelude::*;
use vstd::string::*;
use crate::model::{Action, MirrorOptions, Outcome, Planned, RepoDescriptor, Status};

verus! {

/// A path segment or repository name that can stand as a directory name of
/// its own: not empty, not `.` or `..`, and without separators or NUL.
pub open spec fn valid_segment(s: Seq<char>) -> bool {
    &&& s.len() > 0
    &&& s != seq!['.']
    &&& s != seq!['.', '.']
    &&& forall|i: int| 0 <= i < s.len() ==> #[trigger] s[i] != '/' && s[i] != '\\' && s[i] != '\0'
}

/// Every segment of the namespace path and the name are valid.
pub open spec fn names_valid(d: RepoDescriptor) -> bool {
    &&& forall|i: int| 0 <= i < d.path_view().len() ==> valid_segment(#[trigger] d.path_view()[i])
    &&& valid_segment(d.name@)
}

pub fn segment_is_valid(s: &str) -> (r: bool)
    ensures
        r == valid_segment(s@),
{
    let n = s.unicode_len();
    if n == 0 {
        return false;
    }
    let mut i: usize = 0;
    let mut dots: usize = 0;
    while i < n
        invariant
            n == s@.len(),
            i <= n,
            dots <= i,
            dots == i <==> forall|k: int| 0 <= k < i ==> s@[k] == '.',
            forall|k: int| 0 <= k < i ==> #[trigger] s@[k] != '/' && s@[k] != '\\' && s@[k] != '\0',
        decreases n - i,
    {
        let c = s.get_char(i);
        if c == '/' || c == '\\' || c == '\0' {
            return false;
        }
        if c == '.' && dots == i {
            dots = dots + 1;
        }
        i = i + 1;
    }
    if dots == n && n <= 2 {
        if n == 1 {
            assert(s@ =~= seq!['.']);
        } else {
            assert(s@ =~= seq!['.', '.']);
        }
        false
    } else {
        assert(s@ != seq!['.']) by {
            if s@ == seq!['.'] {
                assert(forall|k: int| 0 <= k < n ==> s@[k] == '.');
            }
        }
        assert(s@ != seq!['.', '.']) by {
            if s@ == seq!['.', '.'] {
                assert(forall|k: int| 0 <= k < n ==> s@[k] == '.');
            }
        }
        true
    }
}

pub fn descriptor_names_valid(d: &RepoDescriptor) -> (r: bool)
    ensures
        r == names_valid(*d),
{
    let mut i: usize = 0;
    while i < d.namespace_path.len()
        invariant
            i <= d.namespace_path@.len(),
            forall|k: int| 0 <= k < i ==> valid_segment(#[trigger] d.path_view()[k]),
        decreases d.namespace_path@.len() - i,
    {
        assert(d.path_view()[i as int] == d.namespace_path@[i as int]@);
        if !segment_is_valid(d.namespace_path[i].as_str()) {
            return false;
        }
        i = i + 1;
    }
    segment_is_valid(d.name.as_str())
}

/// `root` followed by each segment, every one after a `/`.
pub open spec fn joined_under(root: Seq<char>, segs: Seq<Seq<char>>) -> Seq<char>
    decreases segs.len(),
{
    if segs.len() == 0 {
        root
    } else {
        joined_under(root, segs.drop_last()) + seq!['/'] + segs.last()
    }
}

/// Local directory of a repository's mirror: the mirror root joined with the
/// namespace path and the name.
pub open spec fn spec_mirror_path(root: Seq<char>, d: RepoDescriptor) -> Seq<char> {
    joined_under(root, d.path_view().push(d.name@))
}

pub fn mirror_path(mirror_dir: &String, d: &RepoDescriptor) -> (r: String)
    ensures
        r@ == spec_mirror_path(mirror_dir@, *d),
{
    proof {
        reveal_strlit("/");
    }
    let mut out = mirror_dir.clone();
    let mut i: usize = 0;
    while i < d.namespace_path.len()
        invariant
            i <= d.namespace_path@.len(),
            out@ == joined_under(mirror_dir@, d.path_view().take(i as int)),
        decreases d.namespace_path@.len() - i,
    {
        let ghost prev = out@;
        proof {
            reveal_strlit("/");
        }
        out.append("/");
        out.append(d.namespace_path[i].as_str());
        assert(out@ == prev + seq!['/'] + d.namespace_path@[i as int]@);
        let ghost t = d.path_view().take(i + 1);
        assert(t.drop_last() =~= d.path_view().take(i as int));
        assert(t.last() == d.namespace_path@[i as int]@);
        assert(joined_under(mirror_dir@, t) == joined_under(mirror_dir@, t.drop_last()) + seq!['/'] + t.last());
        i = i + 1;
    }
    out.append("/");
    out.append(d.name.as_str());
    assert(d.path_view().take(i as int) =~= d.path_view());
    assert(d.path_view().push(d.name@).drop_last() =~= d.path_view());
    out
}

pub open spec fn https_prefix() -> Seq<char> {
    seq!['h', 't', 't', 'p', 's', ':', '/', '/']
}

/// User name under which an access token is embedded in an HTTPS URL.
pub open spec fn token_user() -> Seq<char> {
    seq!['o', 'a', 'u', 't', 'h', '2', ':']
}

/// `url` with `token` embedded as credentials, where `url` is an HTTPS URL;
/// otherwise `url` unchanged.
pub open spec fn with_token(url: Seq<char>, token: Seq<char>) -> Seq<char> {
    if url.len() >= 8 && url.take(8) == https_prefix() {
        https_prefix() + token_user() + token + seq!['@'] + url.skip(8)
    } else {
        url
    }
}

/// The address a repository is synced from.
pub open spec fn spec_remote_url(d: RepoDescriptor, use_http: bool, token: Option<String>) -> Seq<char> {
    if !use_http {
        d.ssh_url@
    } else {
        match token {
            Some(t) => with_token(d.http_url@, t@),
            None => d.http_url@,
        }
    }
}

pub fn remote_url(d: &RepoDescriptor, use_http: bool, token: &Option<String>) -> (r: String)
    ensures
        r@ == spec_remote_url(*d, use_http, *token),
{
    if !use_http {
        return d.ssh_url.clone();
    }
    match token {
        None => d.http_url.clone(),
        Some(t) => {
            proof {
                reveal_strlit("https://");
                reveal_strlit("oauth2:");
                reveal_strlit("@");
            }
            let url = &d.http_url;
            let n = url.unicode_len();
            if n < 8 {
                return url.clone();
            }
            let head = String::from_str(url.as_str().substring_char(0, 8));
            assert(head@ =~= url@.take(8));
            assert(https_prefix() =~= "https://"@);
            if !(head == String::from_str("https://")) {
                return url.clone();
            }
            let mut out = String::from_str("https://");
            out.append("oauth2:");
            out.append(t.as_str());
            out.append("@");
            out.append(url.as_str().substring_char(8, n));
            assert(token_user() =~= "oauth2:"@);
            assert(seq!['@'] =~= "@"@);
            assert(url@.subrange(8, n as int) =~= url@.skip(8));
            assert(out@ =~= with_token(url@, t@));
            out
        },
    }
}

/// One run of the version-control tool.
pub struct ToolCall {
    pub program: String,
    pub args: Vec<String>,
    /// Directory to run in; the current one when absent.
    pub workdir: Option<String>,
}

impl ToolCall {
    pub open spec fn args_view(&self) -> Seq<Seq<char>> {
        self.args@.map_values(|s: String| s@)
    }
}

/// What a run of the tool reported.
pub struct ToolResult {
    pub success: bool,
    /// Captured diagnostic output.
    pub diagnostic: String,
}

/// The steps of syncing one repository.
pub struct SyncPlan {
    pub planned: Planned,
    pub dry_run: bool,
    /// Delete the local copy once the calls have succeeded.
    pub remove_after: bool,
    pub local_path: String,
    pub calls: Vec<ToolCall>,
}

pub enum SyncError {
    /// A namespace segment or the name cannot stand as a directory name.
    InvalidName,
}

pub open spec fn spec_planned(local_exists: bool) -> Planned {
    if local_exists { Planned::Update } else { Planned::Clone }
}

pub open spec fn spec_call_count(dry_run: bool, local_exists: bool) -> nat {
    if dry_run { 0 } else if local_exists { 2 } else { 1 }
}

/// The refspecs fetched on an update.
pub open spec fn spec_refspecs(refspec: Option<Vec<String>>) -> Seq<Seq<char>> {
    match refspec {
        Some(v) => v@.map_values(|s: String| s@),
        None => seq!["+refs/*:refs/*"@],
    }
}

fn string_of(s: &str) -> (r: String)
    ensures
        r@ == s@,
{
    String::from_str(s)
}

/// Plans the sync of `d`: a bare mirror clone where no local copy exists,
/// otherwise a refresh of the remote address and a pruning fetch. A dry run
/// plans no call at all.
pub fn plan_sync(d: &RepoDescriptor, opts: &MirrorOptions, local_exists: bool) -> (r: Result<SyncPlan, SyncError>)
    ensures
        r is Err <==> !names_valid(*d),
        r matches Ok(p) ==> {
            let url = spec_remote_url(*d, opts.use_http, opts.private_token);
            let path = spec_mirror_path(opts.mirror_dir@, *d);
            &&& p.planned == spec_planned(local_exists)
            &&& p.dry_run == opts.dry_run
            &&& p.remove_after == (opts.remove_workrepo && !opts.dry_run)
            &&& p.local_path@ == path
            &&& p.calls@.len() == spec_call_count(opts.dry_run, local_exists)
            &&& forall|i: int| 0 <= i < p.calls@.len() ==> #[trigger] p.calls@[i].program@ == opts.git_executable@
            &&& (!opts.dry_run && !local_exists) ==> {
                &&& p.calls@[0].args_view() == seq!["clone"@, "--mirror"@, url, path]
                &&& p.calls@[0].workdir is None
            }
            &&& (!opts.dry_run && local_exists) ==> {
                &&& p.calls@[0].args_view() == seq!["remote"@, "set-url"@, "origin"@, url]
                &&& p.calls@[0].workdir == Some(p.local_path)
                &&& p.calls@[1].args_view() == seq!["fetch"@, "--prune"@, "origin"@] + spec_refspecs(opts.refspec)
                &&& p.calls@[1].workdir == Some(p.local_path)
            }
        },
{
    if !descriptor_names_valid(d) {
        return Err(SyncError::InvalidName);
    }
    let path = mirror_path(&opts.mirror_dir, d);
    let planned = if local_exists { Planned::Update } else { Planned::Clone };
    let mut calls: Vec<ToolCall> = Vec::new();
    if !opts.dry_run {
        let url = remote_url(d, opts.use_http, &opts.private_token);
        if !local_exists {
            let args = vec![string_of("clone"), string_of("--mirror"), url, path.clone()];
            assert(args@.map_values(|s: String| s@) =~= seq!["clone"@, "--mirror"@, url@, path@]);
            calls.push(ToolCall { program: opts.git_executable.clone(), args, workdir: None });
        } else {
            let args = vec![string_of("remote"), string_of("set-url"), string_of("origin"), url];
            assert(args@.map_values(|s: String| s@) =~= seq!["remote"@, "set-url"@, "origin"@, url@]);
            calls.push(ToolCall { program: opts.git_executable.clone(), args, workdir: Some(path.clone()) });
            let mut fetch = vec![string_of("fetch"), string_of("--prune"), string_of("origin")];
            let ghost base = seq!["fetch"@, "--prune"@, "origin"@];
            assert(fetch@.map_values(|s: String| s@) =~= base);
            match &opts.refspec {
                Some(specs) => {
                    let mut i: usize = 0;
                    while i < specs.len()
                        invariant
                            i <= specs@.len(),
                            fetch@.map_values(|s: String| s@) =~= base + specs@.take(i as int).map_values(|s: String| s@),
                        decreases specs@.len() - i,
                    {
                        let ghost prev = fetch@;
                        fetch.push(specs[i].clone());
                        assert(fetch@.map_values(|s: String| s@) =~= prev.map_values(|s: String| s@).push(specs@[i as int]@));
                        assert(specs@.take(i + 1).map_values(|s: String| s@) =~= specs@.take(i as int).map_values(|s: String| s@).push(specs@[i as int]@));
                        i = i + 1;
                    }
                    assert(specs@.take(i as int) =~= specs@);
                },
                None => {
                    fetch.push(string_of("+refs/*:refs/*"));
                },
            }
            assert(fetch@.map_values(|s: String| s@) =~= base + spec_refspecs(opts.refspec));
            calls.push(ToolCall { program: opts.git_executable.clone(), args: fetch, workdir: Some(path.clone()) });
        }
    }
    Ok(SyncPlan {
        planned,
        dry_run: opts.dry_run,
        remove_after: opts.remove_workrepo && !opts.dry_run,
        local_path: path,
        calls,
    })
}

/// Every tool run reported success.
pub open spec fn all_ok(rs: Seq<ToolResult>) -> bool {
    forall|i: int| 0 <= i < rs.len() ==> #[trigger] rs[i].success
}

/// Index of the next call to run, after the runs reported in `rs`: none once
/// one has failed or all `n_calls` have run.
pub open spec fn spec_next_call(n_calls: nat, rs: Seq<ToolResult>) -> Option<nat> {
    if all_ok(rs) && rs.len() < n_calls {
        Some(rs.len())
    } else {
        None
    }
}

/// Status of a sync whose plan has `n_calls` calls, after the runs in `rs`.
pub open spec fn spec_status(dry_run: bool, n_calls: nat, rs: Seq<ToolResult>) -> Status {
    if dry_run || (all_ok(rs) && rs.len() >= n_calls) {
        Status::Success
    } else {
        Status::Failed
    }
}

pub open spec fn spec_action(planned: Planned, dry_run: bool, remove_after: bool, status: Status) -> Action {
    if dry_run {
        Action::Skipped(planned)
    } else if status == Status::Success && remove_after {
        Action::Removed
    } else if planned == Planned::Clone {
        Action::Cloned
    } else {
        Action::Updated
    }
}

/// `k` is the first failed run in `rs`.
pub open spec fn first_failure(rs: Seq<ToolResult>, k: int) -> bool {
    &&& 0 <= k < rs.len()
    &&& !rs[k].success
    &&& forall|j: int| 0 <= j < k ==> #[trigger] rs[j].success
}

/// Whether the local copy exists after a sync, given whether it did before.
pub open spec fn local_exists_after(before: bool, dry_run: bool, remove_after: bool, status: Status) -> bool {
    if dry_run || status == Status::Failed {
        before
    } else {
        !remove_after
    }
}

pub open spec fn incomplete_message() -> Seq<char> {
    "tool runs missing"@
}

/// Which call of `plan` to run next, given the results of those that ran.
pub fn next_call(plan: &SyncPlan, results: &Vec<ToolResult>) -> (r: Option<usize>)
    ensures
        r matches Some(i) ==> spec_next_call(plan.calls@.len(), results@) == Some(i as nat),
        r is None ==> spec_next_call(plan.calls@.len(), results@) is None,
{
    let mut i: usize = 0;
    while i < results.len()
        invariant
            i <= results@.len(),
            forall|k: int| 0 <= k < i ==> #[trigger] results@[k].success,
        decreases results@.len() - i,
    {
        if !results[i].success {
            return None;
        }
        i = i + 1;
    }
    if results.len() < plan.calls.len() {
        Some(results.len())
    } else {
        None
    }
}

/// The outcome of a sync from the results of the calls that ran, in order.
pub fn finish_sync(d: RepoDescriptor, plan: &SyncPlan, results: &Vec<ToolResult>, duration_ms: u64) -> (r: Outcome)
    ensures
        r.descriptor == d,
        r.duration_ms == duration_ms,
        r.status == spec_status(plan.dry_run, plan.calls@.len(), results@),
        r.action == spec_action(plan.planned, plan.dry_run, plan.remove_after, r.status),
        r.status == Status::Success ==> r.error is None,
        r.status == Status::Failed && all_ok(results@) ==> (r.error matches Some(e) && e@ == incomplete_message()),
        r.status == Status::Failed && !all_ok(results@) ==> exists|k: int|
            first_failure(results@, k) && r.error == Some(results@[k].diagnostic),
{
    let ghost n_calls = plan.calls@.len();
    if plan.dry_run {
        return Outcome {
            descriptor: d,
            action: Action::Skipped(plan.planned),
            status: Status::Success,
            error: None,
            duration_ms,
        };
    }
    let mut i: usize = 0;
    while i < results.len()
        invariant
            !plan.dry_run,
            i <= results@.len(),
            forall|k: int| 0 <= k < i ==> #[trigger] results@[k].success,
        decreases results@.len() - i,
    {
        if !results[i].success {
            assert(!all_ok(results@));
            assert(first_failure(results@, i as int));
            let action = if plan.planned == Planned::Clone { Action::Cloned } else { Action::Updated };
            return Outcome {
                descriptor: d,
                action,
                status: Status::Failed,
                error: Some(results[i].diagnostic.clone()),
                duration_ms,
            };
        }
        i = i + 1;
    }
    if results.len() < plan.calls.len() {
        let action = if plan.planned == Planned::Clone { Action::Cloned } else { Action::Updated };
        return Outcome {
            descriptor: d,
            action,
            status: Status::Failed,
            error: Some(string_of("tool runs missing")),
            duration_ms,
        };
    }
    let action = if plan.remove_after {
        Action::Removed
    } else if plan.planned == Planned::Clone {
        Action::Cloned
    } else {
        Action::Updated
    };
    Outcome { descriptor: d, action, status: Status::Success, error: None, duration_ms }
}

/// Syncing a repository whose mirror exists, twice in a row, with every tool
/// run succeeding (nothing changed upstream), updates it both times,
/// successfully, and leaves the mirror in place; the second sync is planned
/// from the same inputs as the first.
pub proof fn lemma_sync_twice_updates(
    d: RepoDescriptor,
    opts: MirrorOptions,
    first: Seq<ToolResult>,
    second: Seq<ToolResult>,
)
    requires
        names_valid(d),
        !opts.dry_run,
        !opts.remove_workrepo,
        all_ok(first),
        all_ok(second),
        first.len() == spec_call_count(opts.dry_run, true),
        second.len() == spec_call_count(opts.dry_run, true),
    ensures
        ({
            let remove_after = opts.remove_workrepo && !opts.dry_run;
            let s1 = spec_status(opts.dry_run, spec_call_count(opts.dry_run, true), first);
            let after1 = local_exists_after(true, opts.dry_run, remove_after, s1);
            let s2 = spec_status(opts.dry_run, spec_call_count(opts.dry_run, after1), second);
            let after2 = local_exists_after(after1, opts.dry_run, remove_after, s2);
            &&& s1 == Status::Success
            &&& s2 == Status::Success
            &&& spec_action(spec_planned(true), opts.dry_run, remove_after, s1) == Action::Updated
            &&& spec_action(spec_planned(after1), opts.dry_run, remove_after, s2) == Action::Updated
            &&& after1 == true
            &&& after2 == true
        }),
{
}

/// A dry run plans no tool run, runs none, reports the repository as skipped
/// with what would have been done (also where it is refused for its names or
/// as a duplicate), and leaves the local copy as it was.
pub proof fn lemma_dry_run_touches_nothing(local_exists: bool, remove_after: bool, rs: Seq<ToolResult>)
    requires
        rs.len() == 0,
    ensures
        spec_call_count(true, local_exists) == 0,
        spec_next_call(spec_call_count(true, local_exists), rs) is None,
        spec_status(true, 0, rs) == Status::Success,
        spec_action(spec_planned(local_exists), true, remove_after, Status::Success)
            == Action::Skipped(spec_planned(local_exists)),
        spec_action(spec_planned(local_exists), true, false, Status::Failed)
            == Action::Skipped(spec_planned(local_exists)),
        local_exists_after(local_exists, true, remove_after, Status::Success) == local_exists,
{
}

pub open spec fn invalid_name_message() -> Seq<char> {
    "namespace path or name is not a valid directory name"@
}

/// The outcome of a repository whose plan was refused for its names: a
/// failure, with nothing run; in a dry run it is reported as skipped.
pub fn invalid_name_outcome(d: RepoDescriptor, local_exists: bool, dry_run: bool, duration_ms: u64) -> (r: Outcome)
    ensures
        r.descriptor == d,
        r.status == Status::Failed,
        r.action == spec_action(spec_planned(local_exists), dry_run, false, Status::Failed),
        r.error matches Some(e) && e@ == invalid_name_message(),
        r.duration_ms == duration_ms,
{
    let planned = if local_exists { Planned::Update } else { Planned::Clone };
    let action = if dry_run {
        Action::Skipped(planned)
    } else if local_exists {
        Action::Updated
    } else {
        Action::Cloned
    };
    Outcome {
        descriptor: d,
        action,
        status: Status::Failed,
        error: Some(string_of("namespace path or name is not a valid directory name")),
        duration_ms,
    }
}

} // verus!
