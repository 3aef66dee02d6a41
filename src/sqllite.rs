//! The hook store: known hooks with their run counters, and which hook is
//! bound to which hook point of which repository.
use vstd::prelude::*;
use crate::hook_types::HookTypes;

verus! {

/// A known hook and how often it ran.
pub struct HookRecord {
    pub name: String,
    pub total_runs: u64,
    pub successful_runs: u64,
}

/// A hook bound to one hook point of one repository.
pub struct RepoHook {
    pub name: String,
    pub repo: String,
    pub hook_type: HookTypes,
}

/// The abstract content of a hook record.
pub ghost struct HookRow {
    pub name: Seq<char>,
    pub total: nat,
    pub successful: nat,
}

/// The abstract content of a binding.
pub ghost struct BindingRow {
    pub name: Seq<char>,
    pub repo: Seq<char>,
    pub hook_type: HookTypes,
}

/// The abstract content of the store: hook records, and bindings in the
/// order they were added.
pub ghost struct StoreView {
    pub hooks: Seq<HookRow>,
    pub bindings: Seq<BindingRow>,
}

impl HookRecord {
    pub open spec fn row(self) -> HookRow {
        HookRow { name: self.name@, total: self.total_runs as nat, successful: self.successful_runs as nat }
    }
}

impl RepoHook {
    pub open spec fn row(self) -> BindingRow {
        BindingRow { name: self.name@, repo: self.repo@, hook_type: self.hook_type }
    }
}

/// The largest value a run counter reaches; further runs leave it there.
pub const MAX_RUNS: u64 = 0xffff_ffff_ffff_ffff;

impl StoreView {
    /// Hook names are unique, every counter pair is ordered, no binding is
    /// held twice.
    pub open spec fn wf(self) -> bool {
        &&& forall|i: int, j: int|
            0 <= i < j < self.hooks.len() ==> self.hooks[i].name != self.hooks[j].name
        &&& forall|i: int|
            0 <= i < self.hooks.len() ==> #[trigger] self.hooks[i].successful <= self.hooks[i].total
        &&& forall|i: int| 0 <= i < self.hooks.len() ==> #[trigger] self.hooks[i].total <= MAX_RUNS
        &&& forall|i: int, j: int|
            0 <= i < j < self.bindings.len() ==> self.bindings[i] != self.bindings[j]
    }

    pub open spec fn has_hook(self, name: Seq<char>) -> bool {
        exists|i: int| 0 <= i < self.hooks.len() && #[trigger] self.hooks[i].name == name
    }

    /// Some hook is bound to this hook point of this repository.
    pub open spec fn is_bound(self, repo: Seq<char>, hook_type: HookTypes) -> bool {
        exists|i: int|
            0 <= i < self.bindings.len() && #[trigger] self.bindings[i].repo == repo
                && self.bindings[i].hook_type == hook_type
    }

    /// This very hook is bound to this hook point of this repository.
    pub open spec fn is_bound_to(self, repo: Seq<char>, hook_type: HookTypes, name: Seq<char>) -> bool {
        self.bindings.contains(BindingRow { name, repo, hook_type })
    }

    /// The store after registering `name`: a record with zero counters if
    /// the name was unknown, no change otherwise.
    pub open spec fn registered(self, name: Seq<char>) -> StoreView {
        if self.has_hook(name) {
            self
        } else {
            StoreView {
                hooks: self.hooks.push(HookRow { name, total: 0, successful: 0 }),
                bindings: self.bindings,
            }
        }
    }

    /// A counter pair after one more run.
    pub open spec fn bumped(row: HookRow, success: bool) -> HookRow {
        if row.total < MAX_RUNS {
            HookRow {
                name: row.name,
                total: row.total + 1,
                successful: if success { row.successful + 1 } else { row.successful },
            }
        } else {
            row
        }
    }

    /// The store after recording one run of `name`; an unknown name changes
    /// nothing.
    pub open spec fn recorded(self, name: Seq<char>, success: bool) -> StoreView {
        StoreView {
            hooks: self.hooks.map_values(
                |row: HookRow| if row.name == name { StoreView::bumped(row, success) } else { row },
            ),
            bindings: self.bindings,
        }
    }

    /// The store after binding `name` to a hook point of a repository; a
    /// binding already held is not added twice.
    pub open spec fn bound(self, name: Seq<char>, repo: Seq<char>, hook_type: HookTypes) -> StoreView {
        if self.is_bound_to(repo, hook_type, name) {
            self
        } else {
            StoreView {
                hooks: self.hooks,
                bindings: self.bindings.push(BindingRow { name, repo, hook_type }),
            }
        }
    }

    /// The names bound to a hook point of a repository, in binding order.
    pub open spec fn names_on(self, repo: Seq<char>, hook_type: HookTypes) -> Seq<Seq<char>> {
        self.bindings.filter_map(
            |b: BindingRow| if b.repo == repo && b.hook_type == hook_type { Some(b.name) } else { None },
        )
    }

    /// The store without the binding of `name` to a hook point of a repository.
    pub open spec fn unbound(self, name: Seq<char>, repo: Seq<char>, hook_type: HookTypes) -> StoreView {
        StoreView {
            hooks: self.hooks,
            bindings: self.bindings.filter(|b: BindingRow| b != BindingRow { name, repo, hook_type }),
        }
    }

    /// The store without the record of `name` and without any of its bindings.
    pub open spec fn deleted(self, name: Seq<char>) -> StoreView {
        StoreView {
            hooks: self.hooks.filter(|h: HookRow| h.name != name),
            bindings: self.bindings.filter(|b: BindingRow| b.name != name),
        }
    }

    /// The store after a sequence of recorded runs, in order.
    pub open spec fn replayed(self, runs: Seq<(Seq<char>, bool)>) -> StoreView
        decreases runs.len(),
    {
        if runs.len() == 0 {
            self
        } else {
            self.replayed(runs.drop_last()).recorded(runs.last().0, runs.last().1)
        }
    }
}

/// Registering a hook twice leaves the store, its counters included, as the
/// first registration left it.
pub proof fn lemma_register_idempotent(s: StoreView, name: Seq<char>)
    ensures
        s.registered(name).registered(name) == s.registered(name),
{
    let once = s.registered(name);
    if !s.has_hook(name) {
        assert(once.hooks[once.hooks.len() - 1].name == name);
        assert(once.has_hook(name));
    }
}

/// Recording a run keeps the store well formed: successful runs never
/// exceed total runs.
pub proof fn lemma_record_keeps_wf(s: StoreView, name: Seq<char>, success: bool)
    requires
        s.wf(),
    ensures
        s.recorded(name, success).wf(),
{
    let r = s.recorded(name, success);
    assert forall|i: int, j: int| 0 <= i < j < r.hooks.len() implies r.hooks[i].name != r.hooks[j].name by {
        assert(s.hooks[i].name != s.hooks[j].name);
    }
    assert forall|i: int| 0 <= i < r.hooks.len() implies #[trigger] r.hooks[i].successful <= r.hooks[i].total by {
        assert(s.hooks[i].successful <= s.hooks[i].total);
    }
    assert forall|i: int| 0 <= i < r.hooks.len() implies #[trigger] r.hooks[i].total <= MAX_RUNS by {
        assert(s.hooks[i].total <= MAX_RUNS);
    }
}

/// After every prefix of any sequence of recorded outcomes, each hook's
/// successful runs are at most its total runs.
pub proof fn lemma_successful_never_exceeds_total(s: StoreView, runs: Seq<(Seq<char>, bool)>)
    requires
        s.wf(),
    ensures
        forall|k: int| 0 <= k <= runs.len() ==> #[trigger] s.replayed(runs.take(k)).wf(),
        forall|k: int, i: int|
            0 <= k <= runs.len() && 0 <= i < s.replayed(runs.take(k)).hooks.len()
                ==> #[trigger] s.replayed(runs.take(k)).hooks[i].successful
                    <= s.replayed(runs.take(k)).hooks[i].total,
    decreases runs.len(),
{
    if runs.len() > 0 {
        let front = runs.drop_last();
        lemma_successful_never_exceeds_total(s, front);
        assert forall|k: int| 0 <= k <= runs.len() implies #[trigger] s.replayed(runs.take(k)).wf() by {
            if k < runs.len() {
                assert(runs.take(k) =~= front.take(k));
            } else {
                assert(runs.take(k) =~= runs);
                assert(front.take(front.len() as int) =~= front);
                lemma_record_keeps_wf(s.replayed(front), runs.last().0, runs.last().1);
            }
        }
    } else {
        assert(runs.take(0) =~= runs);
    }
    assert forall|k: int, i: int|
        0 <= k <= runs.len() && 0 <= i < s.replayed(runs.take(k)).hooks.len()
            implies #[trigger] s.replayed(runs.take(k)).hooks[i].successful
                <= s.replayed(runs.take(k)).hooks[i].total by {
        assert(s.replayed(runs.take(k)).wf());
    }
}

/// Recording a run of a name the store does not know changes nothing.
pub proof fn lemma_unknown_run_is_noop(s: StoreView, name: Seq<char>, success: bool)
    requires
        !s.has_hook(name),
    ensures
        s.recorded(name, success) == s,
{
    let r = s.recorded(name, success);
    assert forall|i: int| 0 <= i < s.hooks.len() implies r.hooks[i] == s.hooks[i] by {
        assert(s.hooks[i].name != name);
    }
    assert(r.hooks =~= s.hooks);
}

/// Keeping some records of a well-formed list keeps names unique and
/// counters ordered.
proof fn lemma_filter_hooks_wf(s: Seq<HookRow>, p: spec_fn(HookRow) -> bool)
    requires
        forall|i: int, j: int| 0 <= i < j < s.len() ==> s[i].name != s[j].name,
        forall|i: int| 0 <= i < s.len() ==> #[trigger] s[i].successful <= s[i].total,
        forall|i: int| 0 <= i < s.len() ==> #[trigger] s[i].total <= MAX_RUNS,
    ensures
        forall|i: int, j: int|
            0 <= i < j < s.filter(p).len() ==> s.filter(p)[i].name != s.filter(p)[j].name,
        forall|i: int| 0 <= i < s.filter(p).len() ==> #[trigger] s.filter(p)[i].successful <= s.filter(p)[i].total,
        forall|i: int| 0 <= i < s.filter(p).len() ==> #[trigger] s.filter(p)[i].total <= MAX_RUNS,
        forall|x: HookRow| s.filter(p).contains(x) ==> s.contains(x),
    decreases s.len(),
{
    reveal(Seq::filter);
    if s.len() > 0 {
        let front = s.drop_last();
        lemma_filter_hooks_wf(front, p);
        let f = front.filter(p);
        assert forall|x: HookRow| f.contains(x) implies x.name != s.last().name by {
            front.lemma_filter_contains_rev(p, x);
            let k = choose|k: int| 0 <= k < front.len() && front[k] == x;
            assert(s[k] == x);
        }
        assert forall|x: HookRow| s.filter(p).contains(x) implies s.contains(x) by {
            if f.contains(x) {
                front.lemma_filter_contains_rev(p, x);
                let k = choose|k: int| 0 <= k < front.len() && front[k] == x;
                assert(s[k] == x);
            } else {
                assert(x == s.last());
                assert(s[s.len() - 1] == x);
            }
        }
        if p(s.last()) {
            assert forall|i: int, j: int| 0 <= i < j < s.filter(p).len() implies s.filter(p)[i].name
                != s.filter(p)[j].name by {
                if j == f.len() {
                    assert(f.contains(f[i]));
                }
            }
            assert forall|i: int| 0 <= i < s.filter(p).len() implies #[trigger] s.filter(p)[i].successful
                <= s.filter(p)[i].total && s.filter(p)[i].total <= MAX_RUNS by {
                if i < f.len() {
                    assert(s.filter(p)[i] == f[i]);
                } else {
                    assert(s[s.len() - 1] == s.last());
                }
            }
        }
    } else {
        assert(s.filter(p) =~= s);
    }
}

/// Keeping some bindings of a list without repetition keeps it without
/// repetition.
proof fn lemma_filter_bindings_distinct(s: Seq<BindingRow>, p: spec_fn(BindingRow) -> bool)
    requires
        forall|i: int, j: int| 0 <= i < j < s.len() ==> s[i] != s[j],
    ensures
        forall|i: int, j: int| 0 <= i < j < s.filter(p).len() ==> s.filter(p)[i] != s.filter(p)[j],
        forall|x: BindingRow| s.filter(p).contains(x) ==> s.contains(x),
    decreases s.len(),
{
    reveal(Seq::filter);
    if s.len() > 0 {
        let front = s.drop_last();
        lemma_filter_bindings_distinct(front, p);
        let f = front.filter(p);
        assert forall|x: BindingRow| f.contains(x) implies x != s.last() by {
            front.lemma_filter_contains_rev(p, x);
            let k = choose|k: int| 0 <= k < front.len() && front[k] == x;
            assert(s[k] == x);
        }
        assert forall|x: BindingRow| s.filter(p).contains(x) implies s.contains(x) by {
            if f.contains(x) {
                front.lemma_filter_contains_rev(p, x);
                let k = choose|k: int| 0 <= k < front.len() && front[k] == x;
                assert(s[k] == x);
            } else {
                assert(s[s.len() - 1] == x);
            }
        }
        if p(s.last()) {
            assert forall|i: int, j: int| 0 <= i < j < s.filter(p).len() implies s.filter(p)[i]
                != s.filter(p)[j] by {
                if j == f.len() {
                    assert(f.contains(f[i]));
                }
            }
        }
    } else {
        assert(s.filter(p) =~= s);
    }
}

/// The hook store. Its content is persisted by the caller.
pub struct SqlLiteConfig {
    hooks: Vec<HookRecord>,
    repo_hooks: Vec<RepoHook>,
}

impl View for SqlLiteConfig {
    type V = StoreView;

    closed spec fn view(&self) -> StoreView {
        StoreView {
            hooks: self.hooks@.map_values(|r: HookRecord| r.row()),
            bindings: self.repo_hooks@.map_values(|b: RepoHook| b.row()),
        }
    }
}

fn str_equal(a: &str, b: &String) -> (r: bool)
    ensures
        r == (a@ == b@),
{
    String::from_str(a) == *b
}

impl SqlLiteConfig {
    /// An empty store.
    pub fn new() -> (r: SqlLiteConfig)
        ensures
            r@.hooks.len() == 0,
            r@.bindings.len() == 0,
            r@.wf(),
    {
        let r = SqlLiteConfig { hooks: Vec::new(), repo_hooks: Vec::new() };
        proof {
            assert(r@.hooks =~= Seq::<HookRow>::empty());
            assert(r@.bindings =~= Seq::<BindingRow>::empty());
        }
        r
    }

    fn find_hook(&self, name: &str) -> (r: Option<usize>)
        ensures
            match r {
                Some(i) => i < self@.hooks.len() && self@.hooks[i as int].name == name@,
                None => !self@.has_hook(name@),
            },
    {
        let mut i: usize = 0;
        while i < self.hooks.len()
            invariant
                i <= self.hooks.len(),
                forall|j: int| 0 <= j < i ==> #[trigger] self@.hooks[j].name != name@,
            decreases self.hooks.len() - i,
        {
            if str_equal(name, &self.hooks[i].name) {
                return Some(i);
            }
            i = i + 1;
        }
        None
    }

    /// Whether a record for `name` exists.
    pub fn is_hook_managed(&self, name: &str) -> (r: bool)
        ensures
            r == self@.has_hook(name@),
    {
        self.find_hook(name).is_some()
    }

    /// Registers `name` with zero counters; a known name is left as it is.
    pub fn add_hook(&mut self, name: &str)
        requires
            old(self)@.wf(),
        ensures
            final(self)@ == old(self)@.registered(name@),
            final(self)@.wf(),
    {
        if self.find_hook(name).is_none() {
            self.hooks.push(HookRecord { name: String::from_str(name), total_runs: 0, successful_runs: 0 });
            proof {
                assert(self@.hooks =~= old(self)@.hooks.push(HookRow { name: name@, total: 0, successful: 0 }));
                assert(self@.bindings =~= old(self)@.bindings);
            }
        }
    }

    fn record_run(&mut self, name: &str, success: bool)
        requires
            old(self)@.wf(),
        ensures
            final(self)@ == old(self)@.recorded(name@, success),
            final(self)@.wf(),
    {
        let ghost pre = self@;
        match self.find_hook(name) {
            Some(i) => {
                let total = self.hooks[i].total_runs;
                let successful = self.hooks[i].successful_runs;
                proof {
                    assert(pre.hooks[i as int] == self.hooks@[i as int].row());
                    assert(pre.hooks[i as int].successful <= pre.hooks[i as int].total);
                }
                if total < MAX_RUNS {
                    let new_successful = if success { successful + 1 } else { successful };
                    let record = HookRecord {
                        name: String::from_str(name),
                        total_runs: total + 1,
                        successful_runs: new_successful,
                    };
                    self.hooks.set(i, record);
                }
                proof {
                    assert forall|j: int| 0 <= j < pre.hooks.len() && j != i implies pre.hooks[j].name != name@ by {
                        if j < i {
                            assert(pre.hooks[j].name != pre.hooks[i as int].name);
                        } else {
                            assert(pre.hooks[i as int].name != pre.hooks[j].name);
                        }
                    }
                    assert(self@.hooks =~= pre.recorded(name@, success).hooks);
                    assert(self@.bindings =~= pre.bindings);
                }
            },
            None => {
                proof {
                    assert(pre.recorded(name@, success).hooks =~= pre.hooks);
                }
            },
        }
    }

    /// Counts one successful run of `name`; an unknown name is ignored.
    pub fn add_successful_run(&mut self, name: &str)
        requires
            old(self)@.wf(),
        ensures
            final(self)@ == old(self)@.recorded(name@, true),
            final(self)@.wf(),
    {
        self.record_run(name, true)
    }

    /// Counts one failed run of `name`; an unknown name is ignored.
    pub fn add_failed_run(&mut self, name: &str)
        requires
            old(self)@.wf(),
        ensures
            final(self)@ == old(self)@.recorded(name@, false),
            final(self)@.wf(),
    {
        self.record_run(name, false)
    }

    /// Puts back a record read from persistent storage. A name that is
    /// already known, or counters out of order, leave the store unchanged.
    pub fn restore_hook(&mut self, name: &str, total_runs: u64, successful_runs: u64)
        requires
            old(self)@.wf(),
        ensures
            final(self)@ == (if old(self)@.has_hook(name@) || successful_runs > total_runs {
                old(self)@
            } else {
                StoreView {
                    hooks: old(self)@.hooks.push(
                        HookRow { name: name@, total: total_runs as nat, successful: successful_runs as nat },
                    ),
                    bindings: old(self)@.bindings,
                }
            }),
            final(self)@.wf(),
    {
        if successful_runs <= total_runs && self.find_hook(name).is_none() {
            self.hooks.push(HookRecord { name: String::from_str(name), total_runs, successful_runs });
            proof {
                assert(self@.hooks =~= old(self)@.hooks.push(
                    HookRow { name: name@, total: total_runs as nat, successful: successful_runs as nat },
                ));
                assert(self@.bindings =~= old(self)@.bindings);
            }
        }
    }

    fn find_binding(&self, repo: &str, hook_type: HookTypes) -> (r: Option<usize>)
        ensures
            match r {
                Some(i) => i < self@.bindings.len() && self@.bindings[i as int].repo == repo@
                    && self@.bindings[i as int].hook_type == hook_type,
                None => !self@.is_bound(repo@, hook_type),
            },
    {
        let mut i: usize = 0;
        while i < self.repo_hooks.len()
            invariant
                i <= self.repo_hooks.len(),
                forall|j: int| 0 <= j < i ==> !(#[trigger] self@.bindings[j].repo == repo@
                    && self@.bindings[j].hook_type == hook_type),
            decreases self.repo_hooks.len() - i,
        {
            if self.repo_hooks[i].hook_type == hook_type && str_equal(repo, &self.repo_hooks[i].repo) {
                return Some(i);
            }
            i = i + 1;
        }
        None
    }

    fn find_exact_binding(&self, repo: &str, hook_type: HookTypes, name: &str) -> (r: Option<usize>)
        ensures
            match r {
                Some(i) => i < self@.bindings.len()
                    && self@.bindings[i as int] == (BindingRow { name: name@, repo: repo@, hook_type }),
                None => !self@.is_bound_to(repo@, hook_type, name@),
            },
    {
        let ghost target = BindingRow { name: name@, repo: repo@, hook_type };
        let mut i: usize = 0;
        while i < self.repo_hooks.len()
            invariant
                i <= self.repo_hooks.len(),
                target == (BindingRow { name: name@, repo: repo@, hook_type }),
                forall|j: int| 0 <= j < i ==> #[trigger] self@.bindings[j] != target,
            decreases self.repo_hooks.len() - i,
        {
            if self.repo_hooks[i].hook_type == hook_type && str_equal(repo, &self.repo_hooks[i].repo)
                && str_equal(name, &self.repo_hooks[i].name) {
                return Some(i);
            }
            i = i + 1;
        }
        None
    }

    /// Whether some hook is bound to `hook_type` in `repo`.
    pub fn check_if_new_hook_is_known(&self, repo: &str, hook_type: &HookTypes) -> (r: bool)
        ensures
            r == self@.is_bound(repo@, *hook_type),
    {
        self.find_binding(repo, *hook_type).is_some()
    }

    /// Whether the hook `name` is bound to `hook_type` in `repo`.
    pub fn check_if_new_hook_is_same(&self, repo: &str, hook_type: &HookTypes, name: &str) -> (r: bool)
        ensures
            r == self@.is_bound_to(repo@, *hook_type, name@),
    {
        self.find_exact_binding(repo, *hook_type, name).is_some()
    }

    /// Binds `name` to `hook_type` in `repo`, after the bindings already
    /// there; a binding already held is not added twice.
    pub fn add_hook_to_repo(&mut self, name: &str, repo: &str, hook_type: &HookTypes)
        requires
            old(self)@.wf(),
        ensures
            final(self)@ == old(self)@.bound(name@, repo@, *hook_type),
            final(self)@.wf(),
    {
        if self.find_exact_binding(repo, *hook_type, name).is_none() {
            self.repo_hooks.push(
                RepoHook { name: String::from_str(name), repo: String::from_str(repo), hook_type: *hook_type },
            );
            proof {
                assert(self@.bindings =~= old(self)@.bindings.push(
                    BindingRow { name: name@, repo: repo@, hook_type: *hook_type },
                ));
                assert(self@.hooks =~= old(self)@.hooks);
            }
        }
    }

    /// The names of the hooks bound to `hook_type` in `repo`, in the order
    /// they were bound: the order their shim runs them in.
    pub fn bound_names(&self, repo: &str, hook_type: &HookTypes) -> (r: Vec<String>)
        ensures
            crate::text::views(r@) == self@.names_on(repo@, *hook_type),
    {
        let ghost f = |b: BindingRow| if b.repo == repo@ && b.hook_type == *hook_type { Some(b.name) } else { None };
        let mut r: Vec<String> = Vec::new();
        let mut i: usize = 0;
        proof {
            assert(self@.bindings.take(0) =~= Seq::<BindingRow>::empty());
            assert(Seq::<BindingRow>::empty().filter_map(f) =~= Seq::<Seq<char>>::empty());
            assert(crate::text::views(r@) =~= Seq::<Seq<char>>::empty());
        }
        while i < self.repo_hooks.len()
            invariant
                i <= self.repo_hooks.len(),
                f == (|b: BindingRow| if b.repo == repo@ && b.hook_type == *hook_type { Some(b.name) } else { None }),
                crate::text::views(r@) == self@.bindings.take(i as int).filter_map(f),
            decreases self.repo_hooks.len() - i,
        {
            proof {
                self@.bindings.lemma_filter_map_take_succ(f, i as int);
                assert(self@.bindings[i as int] == self.repo_hooks@[i as int].row());
            }
            let b = &self.repo_hooks[i];
            if b.hook_type == *hook_type && str_equal(repo, &b.repo) {
                let ghost before = crate::text::views(r@);
                r.push(b.name.clone());
                proof {
                    assert(crate::text::views(r@) =~= before + seq![b.name@]);
                }
            } else {
                proof {
                    assert(crate::text::views(r@) =~= crate::text::views(r@) + Seq::<Seq<char>>::empty());
                }
            }
            i = i + 1;
        }
        proof {
            assert(self@.bindings.take(self.repo_hooks.len() as int) =~= self@.bindings);
        }
        r
    }

    /// Removes the binding of `name` to `hook_type` in `repo`, if held.
    pub fn remove_hook_from_repo(&mut self, name: &str, repo: &str, hook_type: &HookTypes)
        requires
            old(self)@.wf(),
        ensures
            final(self)@ == old(self)@.unbound(name@, repo@, *hook_type),
            final(self)@.wf(),
    {
        let ghost target = BindingRow { name: name@, repo: repo@, hook_type: *hook_type };
        let ghost p = |b: BindingRow| b != target;
        let ghost pre = self@;
        let mut kept: Vec<RepoHook> = Vec::new();
        let mut i: usize = 0;
        proof {
            reveal(Seq::filter);
            assert(pre.bindings.take(0) =~= Seq::<BindingRow>::empty());
            assert(kept@.map_values(|b: RepoHook| b.row()) =~= Seq::<BindingRow>::empty());
        }
        while i < self.repo_hooks.len()
            invariant
                i <= self.repo_hooks.len(),
                self@ == pre,
                target == (BindingRow { name: name@, repo: repo@, hook_type: *hook_type }),
                p == (|b: BindingRow| b != target),
                kept@.map_values(|b: RepoHook| b.row()) == pre.bindings.take(i as int).filter(p),
            decreases self.repo_hooks.len() - i,
        {
            proof {
                reveal(Seq::filter);
                assert(pre.bindings.take(i + 1).drop_last() =~= pre.bindings.take(i as int));
                assert(pre.bindings[i as int] == self.repo_hooks@[i as int].row());
            }
            let b = &self.repo_hooks[i];
            let same = b.hook_type == *hook_type && str_equal(repo, &b.repo) && str_equal(name, &b.name);
            if !same {
                let copy = RepoHook { name: b.name.clone(), repo: b.repo.clone(), hook_type: b.hook_type };
                let ghost before = kept@.map_values(|b: RepoHook| b.row());
                kept.push(copy);
                proof {
                    assert(kept@.map_values(|b: RepoHook| b.row()) =~= before.push(copy.row()));
                }
            }
            i = i + 1;
        }
        proof {
            assert(pre.bindings.take(pre.bindings.len() as int) =~= pre.bindings);
            lemma_filter_bindings_distinct(pre.bindings, p);
        }
        self.repo_hooks = kept;
        proof {
            assert(self@.hooks == pre.hooks);
            assert(self@.bindings == pre.bindings.filter(p));
        }
    }

    /// Removes the record of `name` and every binding of it.
    pub fn delete_hook(&mut self, name: &str)
        requires
            old(self)@.wf(),
        ensures
            final(self)@ == old(self)@.deleted(name@),
            final(self)@.wf(),
    {
        let ghost pre = self@;
        let ghost ph = |h: HookRow| h.name != name@;
        let ghost pb = |b: BindingRow| b.name != name@;
        let mut hooks: Vec<HookRecord> = Vec::new();
        let mut i: usize = 0;
        proof {
            reveal(Seq::filter);
            assert(pre.hooks.take(0) =~= Seq::<HookRow>::empty());
            assert(hooks@.map_values(|r: HookRecord| r.row()) =~= Seq::<HookRow>::empty());
        }
        while i < self.hooks.len()
            invariant
                i <= self.hooks.len(),
                self@ == pre,
                ph == (|h: HookRow| h.name != name@),
                hooks@.map_values(|r: HookRecord| r.row()) == pre.hooks.take(i as int).filter(ph),
            decreases self.hooks.len() - i,
        {
            proof {
                reveal(Seq::filter);
                assert(pre.hooks.take(i + 1).drop_last() =~= pre.hooks.take(i as int));
                assert(pre.hooks[i as int] == self.hooks@[i as int].row());
            }
            let h = &self.hooks[i];
            if !str_equal(name, &h.name) {
                let copy = HookRecord {
                    name: h.name.clone(),
                    total_runs: h.total_runs,
                    successful_runs: h.successful_runs,
                };
                let ghost before = hooks@.map_values(|r: HookRecord| r.row());
                hooks.push(copy);
                proof {
                    assert(hooks@.map_values(|r: HookRecord| r.row()) =~= before.push(copy.row()));
                }
            }
            i = i + 1;
        }
        let mut kept: Vec<RepoHook> = Vec::new();
        let mut k: usize = 0;
        proof {
            reveal(Seq::filter);
            assert(pre.hooks.take(pre.hooks.len() as int) =~= pre.hooks);
            assert(pre.bindings.take(0) =~= Seq::<BindingRow>::empty());
            assert(kept@.map_values(|b: RepoHook| b.row()) =~= Seq::<BindingRow>::empty());
        }
        while k < self.repo_hooks.len()
            invariant
                k <= self.repo_hooks.len(),
                self@ == pre,
                pb == (|b: BindingRow| b.name != name@),
                kept@.map_values(|b: RepoHook| b.row()) == pre.bindings.take(k as int).filter(pb),
            decreases self.repo_hooks.len() - k,
        {
            proof {
                reveal(Seq::filter);
                assert(pre.bindings.take(k + 1).drop_last() =~= pre.bindings.take(k as int));
                assert(pre.bindings[k as int] == self.repo_hooks@[k as int].row());
            }
            let b = &self.repo_hooks[k];
            if !str_equal(name, &b.name) {
                let copy = RepoHook { name: b.name.clone(), repo: b.repo.clone(), hook_type: b.hook_type };
                let ghost before = kept@.map_values(|b: RepoHook| b.row());
                kept.push(copy);
                proof {
                    assert(kept@.map_values(|b: RepoHook| b.row()) =~= before.push(copy.row()));
                }
            }
            k = k + 1;
        }
        proof {
            assert(pre.bindings.take(pre.bindings.len() as int) =~= pre.bindings);
            lemma_filter_hooks_wf(pre.hooks, ph);
            lemma_filter_bindings_distinct(pre.bindings, pb);
        }
        self.hooks = hooks;
        self.repo_hooks = kept;
    }

    /// The hook records, for persisting them.
    pub fn hook_records(&self) -> (r: &Vec<HookRecord>)
        ensures
            r@.map_values(|h: HookRecord| h.row()) == self@.hooks,
    {
        &self.hooks
    }

    /// The bindings in the order they were added, for persisting them.
    pub fn repo_hooks(&self) -> (r: &Vec<RepoHook>)
        ensures
            r@.map_values(|b: RepoHook| b.row()) == self@.bindings,
    {
        &self.repo_hooks
    }
}

} // verus!
