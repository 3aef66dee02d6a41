//! A hook definition and the decisions taken on it: whether the changed files
//! call for running its command, how a run is counted, and how its shim is
//! installed into a repository.
use vstd::prelude::*;
use crate::hook_types::HookTypes;
use crate::sqllite::{SqlLiteConfig, StoreView};
use crate::text::{split_args, views, words};

verus! {

/// The command a hook runs: an executable, its arguments as one string split
/// on spaces, and the directory to run it in.
pub struct CommandConfig {
    pub cmd: String,
    pub args: Option<String>,
    pub directory: Option<String>,
}

/// A hook definition as read from the configuration.
pub struct GitHook {
    pub name: String,
    pub command: CommandConfig,
    pub glob_pattern: Vec<String>,
    pub description: Option<String>,
}

/// Whether a glob pattern, a `*` not crossing `/`, is accepted by globset:
/// it parses, and the regular expression it becomes compiles.
pub uninterp spec fn glob_compiles(pattern: Seq<char>) -> bool;

/// Whether a compiled glob pattern (a `*` not crossing `/`) matches a path.
pub uninterp spec fn glob_accepts(pattern: Seq<char>, path: Seq<char>) -> bool;

/// Relies on globset: `GlobBuilder::build` with `literal_separator(true)`
/// fails on a pattern that does not parse, `GlobSetBuilder::build` fails
/// where its regular expression does not compile, and `GlobSet::is_match`
/// answers for the path given. Neither build panics.
#[verifier::external_body]
fn glob_match(pattern: &str, path: &str) -> (r: Option<bool>)
    ensures
        r.is_some() == glob_compiles(pattern@),
        r matches Some(b) ==> b == glob_accepts(pattern@, path@),
{
    let glob = globset::GlobBuilder::new(pattern).literal_separator(true).build().ok()?;
    let set = globset::GlobSetBuilder::new().add(glob).build().ok()?;
    Some(set.is_match(path))
}

/// The path of `path` below the directory `base`, if it lies below it.
pub uninterp spec fn relative_path(path: Seq<char>, base: Seq<char>) -> Option<Seq<char>>;

/// Relies on std's `Path::strip_prefix`: it fails when `base` is not a
/// prefix of `path`, and the rest is a function of the two paths.
#[verifier::external_body]
fn strip_base(path: &str, base: &str) -> (r: Option<String>)
    ensures
        r.is_some() == relative_path(path@, base@).is_some(),
        r matches Some(p) ==> relative_path(path@, base@) == Some(p@),
{
    let rest = std::path::Path::new(path).strip_prefix(base).ok()?;
    Some(rest.to_string_lossy().into_owned())
}

/// Pattern `p` compiles and matches path `q`.
pub open spec fn hit(p: Seq<char>, q: Seq<char>) -> bool {
    glob_compiles(p) && glob_accepts(p, q)
}

/// Some path of `paths` is matched by pattern `p`.
pub open spec fn pattern_hits(p: Seq<char>, paths: Seq<Seq<char>>) -> bool {
    exists|j: int| 0 <= j < paths.len() && hit(p, #[trigger] paths[j])
}

/// Finds the first pattern, in configured order, that matches some path, and
/// the first path it matches. Patterns that do not compile are passed over.
pub fn first_match(patterns: &Vec<String>, paths: &Vec<String>) -> (r: Option<(usize, usize)>)
    ensures
        match r {
            Some((p, q)) => {
                &&& p < patterns.len() && q < paths.len()
                &&& hit(patterns[p as int]@, paths[q as int]@)
                &&& forall|i: int| 0 <= i < p ==> !pattern_hits(#[trigger] patterns[i]@, views(paths@))
                &&& forall|j: int| 0 <= j < q ==> !hit(patterns[p as int]@, #[trigger] paths[j]@)
            },
            None => forall|i: int|
                0 <= i < patterns.len() ==> !pattern_hits(#[trigger] patterns[i]@, views(paths@)),
        },
{
    let mut i: usize = 0;
    while i < patterns.len()
        invariant
            i <= patterns.len(),
            forall|k: int| 0 <= k < i ==> !pattern_hits(#[trigger] patterns[k]@, views(paths@)),
        decreases patterns.len() - i,
    {
        let mut j: usize = 0;
        let mut compiles = true;
        while compiles && j < paths.len()
            invariant
                i < patterns.len(),
                j <= paths.len(),
                forall|k: int| 0 <= k < i ==> !pattern_hits(#[trigger] patterns[k]@, views(paths@)),
                forall|k: int| 0 <= k < j ==> !hit(patterns[i as int]@, #[trigger] paths[k]@),
                !compiles ==> !glob_compiles(patterns[i as int]@),
            decreases paths.len() - j + (if compiles { 1int } else { 0int }),
        {
            match glob_match(patterns[i].as_str(), paths[j].as_str()) {
                None => {
                    compiles = false;
                },
                Some(true) => {
                    return Some((i, j));
                },
                Some(false) => {
                    j = j + 1;
                },
            }
        }
        proof {
            assert forall|k: int| 0 <= k < paths.len() implies !hit(patterns[i as int]@, #[trigger] views(paths@)[k]) by {
                assert(views(paths@)[k] == paths[k]@);
            }
        }
        i = i + 1;
    }
    None
}

/// A command ready to be spawned.
pub struct CommandLine {
    pub program: String,
    pub args: Vec<String>,
    pub directory: Option<String>,
}

/// What `run` is to do next.
pub enum RunStep {
    /// No changed file matches the hook's patterns: report success without
    /// running anything or touching the store.
    Skip,
    /// Spawn this command, then hand its outcome to `record_outcome`.
    Execute(CommandLine),
}

/// How a spawned command ended.
#[derive(Clone, Copy, Debug, PartialEq, Eq, Structural)]
pub enum Outcome {
    Success,
    Failure(i32),
    Signaled,
}

/// A command that ran and did not succeed.
#[derive(Clone, Copy, Debug, PartialEq, Eq, Structural)]
pub enum RunError {
    CommandFailure(i32),
    CommandSignaled,
}

/// Why a hook could not be applied.
#[derive(Clone, Copy, Debug, PartialEq, Eq, Structural)]
pub enum ApplyError {
    /// This hook is already bound to this hook point of this repository.
    AlreadyConfigured,
    /// A shim the store knows nothing of already occupies the hook point.
    ForeignHookConflict,
}

/// What to write to the shim file of the hook point.
pub enum ShimWrite {
    /// Create the file with this content and make it executable.
    Create(String),
    /// Append this line to the existing file.
    Append(String),
}

/// What becomes of the shim file when a hook leaves a hook point.
pub enum ShimRemoval {
    /// No hook is bound there any more: delete the file.
    Delete,
    /// Replace the file with this content, which runs the hooks still bound.
    Rewrite(String),
}

/// Why a hook could not be removed from a hook point.
#[derive(Clone, Copy, Debug, PartialEq, Eq, Structural)]
pub enum RemoveError {
    /// The hook is not bound to this hook point of this repository.
    NotConfigured,
}

/// The shim lines running each of `names`, in order.
pub open spec fn invocation_lines(exe: Seq<char>, names: Seq<Seq<char>>) -> Seq<char>
    decreases names.len(),
{
    if names.len() == 0 {
        Seq::empty()
    } else {
        invocation_lines(exe, names.drop_last()) + invocation_line(exe, names.last())
    }
}

/// A shim script running each of `names`, in order.
pub open spec fn chained_script(exe: Seq<char>, names: Seq<Seq<char>>) -> Seq<char> {
    "#!/usr/bin/env sh\n"@ + "set -e\n"@ + invocation_lines(exe, names)
}

/// The shim line that runs hook `name` through the executable `exe`.
pub open spec fn invocation_line(exe: Seq<char>, name: Seq<char>) -> Seq<char> {
    exe + " run "@ + name + "\n"@
}

/// A fresh shim script running hook `name`.
pub open spec fn shim_script(exe: Seq<char>, name: Seq<char>) -> Seq<char> {
    "#!/usr/bin/env sh\n"@ + "set -e\n"@ + invocation_line(exe, name)
}

/// The changed paths taken relative to `cwd`; paths outside it are dropped.
pub open spec fn relative_views(changed: Seq<Seq<char>>, cwd: Seq<char>) -> Seq<Seq<char>> {
    changed.filter_map(|p: Seq<char>| relative_path(p, cwd))
}

pub open spec fn opt_view(o: Option<String>) -> Option<Seq<char>> {
    match o {
        Some(s) => Some(s@),
        None => None,
    }
}

fn clone_opt(o: &Option<String>) -> (r: Option<String>)
    ensures
        opt_view(r) == opt_view(*o),
{
    match o {
        Some(s) => Some(s.clone()),
        None => None,
    }
}

impl CommandConfig {
    /// The arguments the command is spawned with.
    pub open spec fn arg_views(self) -> Seq<Seq<char>> {
        match self.args {
            Some(a) => words(a@),
            None => Seq::empty(),
        }
    }
}

impl GitHook {
    pub fn new(
        name: String,
        command: CommandConfig,
        glob_pattern: Vec<String>,
        description: Option<String>,
    ) -> (r: GitHook)
        ensures
            r.name == name,
            r.command == command,
            r.glob_pattern == glob_pattern,
            r.description == description,
    {
        GitHook { name, command, glob_pattern, description }
    }

    /// Some pattern of the hook matches some changed path, taken relative to
    /// `cwd`.
    pub open spec fn gate_open(&self, changed: Seq<Seq<char>>, cwd: Seq<char>) -> bool {
        exists|i: int|
            0 <= i < self.glob_pattern.len() && pattern_hits(
                #[trigger] self.glob_pattern[i]@,
                relative_views(changed, cwd),
            )
    }

    /// The first pattern, in configured order, that matches a changed path
    /// taken relative to `cwd`, with the first such relative path: what a
    /// run reports as the reason for running.
    pub fn matched_pattern(&self, changed: &Vec<String>, cwd: &str) -> (r: Option<(usize, String)>)
        ensures
            ({
                let rel = relative_views(views(changed@), cwd@);
                match r {
                    Some((p, path)) => {
                        &&& p < self.glob_pattern.len()
                        &&& hit(self.glob_pattern[p as int]@, path@)
                        &&& forall|i: int| 0 <= i < p ==> !pattern_hits(#[trigger] self.glob_pattern[i]@, rel)
                        &&& exists|q: int| 0 <= q < rel.len() && rel[q] == path@
                            && forall|j: int| 0 <= j < q ==> !hit(self.glob_pattern[p as int]@, #[trigger] rel[j])
                    },
                    None => !self.gate_open(views(changed@), cwd@),
                }
            }),
    {
        let relative = relative_paths(changed, cwd);
        match first_match(&self.glob_pattern, &relative) {
            Some((p, q)) => {
                let path = relative[q].clone();
                proof {
                    let rel = relative_views(views(changed@), cwd@);
                    assert(rel[q as int] == relative@[q as int]@);
                    assert forall|j: int| 0 <= j < q implies !hit(self.glob_pattern[p as int]@, #[trigger] rel[j]) by {
                        assert(rel[j] == relative@[j]@);
                    }
                }
                Some((p, path))
            },
            None => None,
        }
    }

    /// Whether the hook's patterns match any of the changed paths, each taken
    /// relative to `cwd` (paths outside `cwd` cannot match).
    pub fn check_files_match_glob(&self, changed: &Vec<String>, cwd: &str) -> (r: bool)
        ensures
            r == self.gate_open(views(changed@), cwd@),
    {
        let found = self.matched_pattern(changed, cwd);
        proof {
            if let Some((p, path)) = &found {
                let rel = relative_views(views(changed@), cwd@);
                let q = choose|q: int| 0 <= q < rel.len() && rel[q] == path@
                    && forall|j: int| 0 <= j < q ==> !hit(self.glob_pattern[p as int]@, #[trigger] rel[j]);
                assert(hit(self.glob_pattern[p as int]@, rel[q]));
                assert(pattern_hits(self.glob_pattern@[p as int]@, rel));
            }
        }
        found.is_some()
    }

    /// The command of the hook, with its arguments split on spaces.
    pub fn command_line(&self) -> (r: CommandLine)
        ensures
            r.program@ == self.command.cmd@,
            views(r.args@) == self.command.arg_views(),
            opt_view(r.directory) == opt_view(self.command.directory),
    {
        let args = match &self.command.args {
            Some(a) => split_args(a.as_str()),
            None => {
                let v: Vec<String> = Vec::new();
                proof {
                    assert(views(v@) =~= Seq::<Seq<char>>::empty());
                }
                v
            },
        };
        CommandLine {
            program: self.command.cmd.clone(),
            args,
            directory: clone_opt(&self.command.directory),
        }
    }

    /// Decides whether a run of the hook executes its command: only when a
    /// pattern matches a changed path.
    pub fn plan_run(&self, changed: &Vec<String>, cwd: &str) -> (r: RunStep)
        ensures
            r is Skip <==> !self.gate_open(views(changed@), cwd@),
            r matches RunStep::Execute(c) ==> {
                &&& c.program@ == self.command.cmd@
                &&& views(c.args@) == self.command.arg_views()
                &&& opt_view(c.directory) == opt_view(self.command.directory)
            },
    {
        if self.check_files_match_glob(changed, cwd) {
            RunStep::Execute(self.command_line())
        } else {
            RunStep::Skip
        }
    }

    /// Counts a finished run in the store, then reports a command that did
    /// not succeed as an error. The count is taken whatever the outcome.
    pub fn record_outcome(&self, sql_config: &mut SqlLiteConfig, outcome: Outcome) -> (r: Result<(), RunError>)
        requires
            old(sql_config)@.wf(),
        ensures
            final(sql_config)@ == old(sql_config)@.recorded(self.name@, outcome == Outcome::Success),
            final(sql_config)@.wf(),
            r == match outcome {
                Outcome::Success => Ok(()),
                Outcome::Failure(code) => Err(RunError::CommandFailure(code)),
                Outcome::Signaled => Err(RunError::CommandSignaled),
            },
    {
        match outcome {
            Outcome::Success => {
                sql_config.add_successful_run(self.name.as_str());
                Ok(())
            },
            Outcome::Failure(code) => {
                sql_config.add_failed_run(self.name.as_str());
                Err(RunError::CommandFailure(code))
            },
            Outcome::Signaled => {
                sql_config.add_failed_run(self.name.as_str());
                Err(RunError::CommandSignaled)
            },
        }
    }

    /// Applies the hook to `hook_type` in the repository `repo`, whose shim is
    /// run through the executable `exe`; `shim_exists` tells whether a shim
    /// file is already at the hook point. A hook point no hook is bound to
    /// gets a fresh shim, unless a foreign file is there; a hook point bound to
    /// other hooks gets one more line; the same hook is not applied twice. On
    /// success the hook is registered and bound, after the hooks already there.
    pub fn apply_hook(
        &self,
        hook_type: &HookTypes,
        sql_config: &mut SqlLiteConfig,
        repo: &str,
        exe: &str,
        shim_exists: bool,
    ) -> (r: Result<ShimWrite, ApplyError>)
        requires
            old(sql_config)@.wf(),
        ensures
            final(sql_config)@.wf(),
            ({
                let pre = old(sql_config)@;
                let bound = pre.is_bound(repo@, *hook_type);
                let applied = pre.registered(self.name@).bound(self.name@, repo@, *hook_type);
                if bound && pre.is_bound_to(repo@, *hook_type, self.name@) {
                    r == Err::<ShimWrite, ApplyError>(ApplyError::AlreadyConfigured) && final(sql_config)@ == pre
                } else if bound {
                    &&& r matches Ok(ShimWrite::Append(line))
                    &&& line@ == invocation_line(exe@, self.name@)
                    &&& final(sql_config)@ == applied
                } else if shim_exists {
                    r == Err::<ShimWrite, ApplyError>(ApplyError::ForeignHookConflict) && final(sql_config)@ == pre
                } else {
                    &&& r matches Ok(ShimWrite::Create(content))
                    &&& content@ == shim_script(exe@, self.name@)
                    &&& final(sql_config)@ == applied
                }
            }),
    {
        let name = self.name.as_str();
        let write = if sql_config.check_if_new_hook_is_known(repo, hook_type) {
            if sql_config.check_if_new_hook_is_same(repo, hook_type, name) {
                return Err(ApplyError::AlreadyConfigured);
            }
            ShimWrite::Append(invocation(exe, name))
        } else {
            if shim_exists {
                return Err(ApplyError::ForeignHookConflict);
            }
            let content = String::from_str("#!/usr/bin/env sh\n").concat("set -e\n").concat(
                invocation(exe, name).as_str(),
            );
            proof {
                assert(content@ =~= shim_script(exe@, self.name@));
            }
            ShimWrite::Create(content)
        };
        sql_config.add_hook(name);
        sql_config.add_hook_to_repo(name, repo, hook_type);
        Ok(write)
    }

    /// Takes the hook off `hook_type` in the repository `repo` and says what
    /// becomes of the shim: deleted when no hook is left there, else
    /// rewritten to run the remaining hooks in binding order.
    pub fn remove_hook(
        &self,
        hook_type: &HookTypes,
        sql_config: &mut SqlLiteConfig,
        repo: &str,
        exe: &str,
    ) -> (r: Result<ShimRemoval, RemoveError>)
        requires
            old(sql_config)@.wf(),
        ensures
            final(sql_config)@.wf(),
            !old(sql_config)@.is_bound_to(repo@, *hook_type, self.name@) ==> {
                &&& r == Err::<ShimRemoval, RemoveError>(RemoveError::NotConfigured)
                &&& final(sql_config)@ == old(sql_config)@
            },
            old(sql_config)@.is_bound_to(repo@, *hook_type, self.name@) ==> {
                let after = old(sql_config)@.unbound(self.name@, repo@, *hook_type);
                let left = after.names_on(repo@, *hook_type);
                &&& final(sql_config)@ == after
                &&& if left.len() == 0 {
                    r matches Ok(ShimRemoval::Delete)
                } else {
                    &&& r matches Ok(ShimRemoval::Rewrite(content))
                    &&& content@ == chained_script(exe@, left)
                }
            },
    {
        let name = self.name.as_str();
        if !sql_config.check_if_new_hook_is_same(repo, hook_type, name) {
            return Err(RemoveError::NotConfigured);
        }
        sql_config.remove_hook_from_repo(name, repo, hook_type);
        let left = sql_config.bound_names(repo, hook_type);
        if left.len() == 0 {
            return Ok(ShimRemoval::Delete);
        }
        Ok(ShimRemoval::Rewrite(chained(exe, &left)))
    }
}

fn invocation(exe: &str, name: &str) -> (r: String)
    ensures
        r@ == invocation_line(exe@, name@),
{
    let r = String::from_str(exe).concat(" run ").concat(name).concat("\n");
    proof {
        assert(r@ =~= invocation_line(exe@, name@));
    }
    r
}

fn chained(exe: &str, names: &Vec<String>) -> (r: String)
    ensures
        r@ == chained_script(exe@, views(names@)),
{
    let mut r = String::from_str("#!/usr/bin/env sh\n").concat("set -e\n");
    let mut i: usize = 0;
    proof {
        assert(views(names@).take(0) =~= Seq::<Seq<char>>::empty());
        assert(r@ =~= chained_script(exe@, views(names@).take(0)));
    }
    while i < names.len()
        invariant
            i <= names.len(),
            r@ == chained_script(exe@, views(names@).take(i as int)),
        decreases names.len() - i,
    {
        let line = invocation(exe, names[i].as_str());
        r = r.concat(line.as_str());
        proof {
            let t = views(names@).take(i + 1);
            assert(t.drop_last() =~= views(names@).take(i as int));
            assert(t.last() == names@[i as int]@);
            assert(r@ =~= chained_script(exe@, t));
        }
        i = i + 1;
    }
    proof {
        assert(views(names@).take(names.len() as int) =~= views(names@));
    }
    r
}

/// The position of the first hook named `name`, if any.
pub fn find_hook(hooks: &Vec<GitHook>, name: &str) -> (r: Option<usize>)
    ensures
        match r {
            Some(i) => i < hooks.len() && hooks[i as int].name@ == name@ && forall|j: int|
                0 <= j < i ==> #[trigger] hooks[j].name@ != name@,
            None => forall|j: int| 0 <= j < hooks.len() ==> #[trigger] hooks[j].name@ != name@,
        },
{
    let wanted = String::from_str(name);
    let mut i: usize = 0;
    while i < hooks.len()
        invariant
            i <= hooks.len(),
            wanted@ == name@,
            forall|j: int| 0 <= j < i ==> #[trigger] hooks[j].name@ != name@,
        decreases hooks.len() - i,
    {
        if hooks[i].name == wanted {
            return Some(i);
        }
        i = i + 1;
    }
    None
}

proof fn lemma_names_on_unbound(bs: Seq<crate::sqllite::BindingRow>, repo: Seq<char>, hook_type: HookTypes)
    requires
        !(StoreView { hooks: Seq::empty(), bindings: bs }).is_bound(repo, hook_type),
    ensures
        (StoreView { hooks: Seq::empty(), bindings: bs }).names_on(repo, hook_type).len() == 0,
    decreases bs.len(),
{
    if bs.len() > 0 {
        let front = bs.drop_last();
        assert forall|i: int| 0 <= i < front.len() implies !(#[trigger] front[i].repo == repo
            && front[i].hook_type == hook_type) by {
            assert(bs[i] == front[i]);
        }
        lemma_names_on_unbound(front, repo, hook_type);
        assert(bs[bs.len() - 1] == bs.last());
    }
}

/// Applying a hook keeps its shim in step with the store: the hooks bound to
/// the hook point gain this one at the end, a fresh shim is the script for
/// that single hook, and a chained shim, which held one line per bound hook
/// in binding order, holds the same after the new line is appended.
pub proof fn lemma_apply_keeps_shim_in_step(
    pre: StoreView,
    name: Seq<char>,
    repo: Seq<char>,
    hook_type: HookTypes,
    exe: Seq<char>,
)
    requires
        !pre.is_bound_to(repo, hook_type, name),
    ensures
        ({
            let post = pre.registered(name).bound(name, repo, hook_type);
            &&& post.names_on(repo, hook_type) == pre.names_on(repo, hook_type).push(name)
            &&& !pre.is_bound(repo, hook_type) ==> post.names_on(repo, hook_type) == seq![name]
                && chained_script(exe, post.names_on(repo, hook_type)) == shim_script(exe, name)
            &&& chained_script(exe, pre.names_on(repo, hook_type)) + invocation_line(exe, name)
                == chained_script(exe, post.names_on(repo, hook_type))
        }),
{
    let post = pre.registered(name).bound(name, repo, hook_type);
    let row = crate::sqllite::BindingRow { name, repo, hook_type };
    assert(post.bindings == pre.bindings.push(row));
    assert(pre.bindings.push(row).drop_last() =~= pre.bindings);
    let before = pre.names_on(repo, hook_type);
    let after = post.names_on(repo, hook_type);
    assert(after =~= before.push(name));
    assert(after.drop_last() =~= before);
    assert(chained_script(exe, before) + invocation_line(exe, name) =~= chained_script(exe, after));
    if !pre.is_bound(repo, hook_type) {
        lemma_names_on_unbound(pre.bindings, repo, hook_type);
        assert((StoreView { hooks: Seq::empty(), bindings: pre.bindings }).names_on(repo, hook_type) == before);
        assert(after =~= seq![name]);
        assert(before =~= Seq::<Seq<char>>::empty());
        assert(chained_script(exe, after) =~= shim_script(exe, name));
    }
}

/// Each changed path taken relative to `cwd`, in order; paths outside `cwd`
/// are dropped.
pub fn relative_paths(changed: &Vec<String>, cwd: &str) -> (r: Vec<String>)
    ensures
        views(r@) == relative_views(views(changed@), cwd@),
{
    let ghost f = |p: Seq<char>| relative_path(p, cwd@);
    let mut r: Vec<String> = Vec::new();
    let mut i: usize = 0;
    proof {
        assert(views(changed@).take(0) =~= Seq::<Seq<char>>::empty());
        assert(views(r@) =~= Seq::<Seq<char>>::empty());
        assert(Seq::<Seq<char>>::empty().filter_map(f) =~= Seq::<Seq<char>>::empty());
    }
    while i < changed.len()
        invariant
            i <= changed.len(),
            f == (|p: Seq<char>| relative_path(p, cwd@)),
            views(r@) == views(changed@).take(i as int).filter_map(f),
        decreases changed.len() - i,
    {
        proof {
            views(changed@).lemma_filter_map_take_succ(f, i as int);
        }
        match strip_base(changed[i].as_str(), cwd) {
            Some(p) => {
                proof {
                    assert(views(r@.push(p)) =~= views(r@) + seq![p@]);
                }
                r.push(p);
            },
            None => {
                proof {
                    assert(views(r@) =~= views(r@) + Seq::<Seq<char>>::empty());
                }
            },
        }
        i = i + 1;
    }
    proof {
        assert(views(changed@).take(changed.len() as int) =~= views(changed@));
    }
    r
}

} // verus!
