//! Workspace enumeration: layered ignore stacks and latency window
//! normalization.

use vstd::prelude::*;

verus! {

#[derive(Debug)]
pub enum RepoType {
    Git,
    Archive,
}

#[derive(Debug)]
pub enum IgnoreSource {
    Git,
    Editor,
    Sandbox,
    Global,
    Custom(String),
}

/// One ignore pattern with its origin.
#[derive(Debug)]
pub struct IgnoreRule {
    pub source: IgnoreSource,
    pub pattern: String,
}

/// Model of an ignore source.
pub enum SourceModel {
    Git,
    Editor,
    Sandbox,
    Global,
    Custom(Seq<char>),
}

/// Model of an ignore rule.
pub struct RuleModel {
    pub source: SourceModel,
    pub pattern: Seq<char>,
}

impl DeepView for IgnoreRule {
    type V = RuleModel;

    open spec fn deep_view(&self) -> RuleModel {
        RuleModel {
            source: match self.source {
                IgnoreSource::Git => SourceModel::Git,
                IgnoreSource::Editor => SourceModel::Editor,
                IgnoreSource::Sandbox => SourceModel::Sandbox,
                IgnoreSource::Global => SourceModel::Global,
                IgnoreSource::Custom(ref s) => SourceModel::Custom(s@),
            },
            pattern: self.pattern@,
        }
    }
}

impl IgnoreRule {
    pub fn new(source: IgnoreSource, pattern: String) -> (r: IgnoreRule)
        ensures
            r.source == source,
            r.pattern == pattern,
    {
        IgnoreRule { source, pattern }
    }

    pub fn duplicate(&self) -> (r: IgnoreRule)
        ensures
            r.deep_view() == self.deep_view(),
    {
        let source = match &self.source {
            IgnoreSource::Git => IgnoreSource::Git,
            IgnoreSource::Editor => IgnoreSource::Editor,
            IgnoreSource::Sandbox => IgnoreSource::Sandbox,
            IgnoreSource::Global => IgnoreSource::Global,
            IgnoreSource::Custom(s) => IgnoreSource::Custom(s.clone()),
        };
        IgnoreRule { source, pattern: self.pattern.clone() }
    }
}

/// One observed filesystem event with its latency.
#[derive(Debug)]
pub struct LatencyEvent {
    pub path: String,
    pub action: String,
    pub latency_ms: u64,
}

impl LatencyEvent {
    pub fn duplicate(&self) -> (r: LatencyEvent)
        ensures
            r.path@ == self.path@,
            r.action@ == self.action@,
            r.latency_ms == self.latency_ms,
    {
        LatencyEvent {
            path: self.path.clone(),
            action: self.action.clone(),
            latency_ms: self.latency_ms,
        }
    }
}

/// A watcher latency window; zero observed counts and maxima are backfilled
/// from the events.
#[derive(Debug)]
pub struct LatencyWindow {
    pub window_ms: u64,
    pub debounce_ms: u64,
    pub queue_depth: u32,
    pub events: Vec<LatencyEvent>,
    pub events_observed: u32,
    pub max_latency_ms: u64,
}

/// An archive's declared measurements.
#[derive(Debug)]
pub struct ArchiveDescriptor {
    pub name: String,
    pub bytes: u64,
    pub entries: u64,
    pub nesting_depth: u32,
    pub expected_status: String,
    pub max_latency_ms: u64,
    pub scenario: String,
}

impl ArchiveDescriptor {
    pub fn duplicate(&self) -> (r: ArchiveDescriptor)
        ensures
            r.bytes == self.bytes,
            r.entries == self.entries,
            r.nesting_depth == self.nesting_depth,
            r.max_latency_ms == self.max_latency_ms,
            r.name@ == self.name@,
            r.expected_status@ == self.expected_status@,
            r.scenario@ == self.scenario@,
    {
        ArchiveDescriptor {
            name: self.name.clone(),
            bytes: self.bytes,
            entries: self.entries,
            nesting_depth: self.nesting_depth,
            expected_status: self.expected_status.clone(),
            max_latency_ms: self.max_latency_ms,
            scenario: self.scenario.clone(),
        }
    }
}

/// One file of a workspace.
#[derive(Debug)]
pub struct WorkspaceFile {
    pub path: String,
    pub content: String,
}

impl WorkspaceFile {
    pub fn new(path: String, content: String) -> (r: WorkspaceFile)
        ensures
            r.path == path,
            r.content == content,
    {
        WorkspaceFile { path, content }
    }

    pub fn duplicate(&self) -> (r: WorkspaceFile)
        ensures
            r.path@ == self.path@,
            r.content@ == self.content@,
    {
        WorkspaceFile { path: self.path.clone(), content: self.content.clone() }
    }
}

/// A registered workspace as recorded.
pub struct WorkspaceRecord {
    pub repo_id: String,
    pub root_path: String,
    pub repo_type: RepoType,
    pub manifest_cursor: Option<String>,
    pub ignore_rules: Vec<IgnoreRule>,
    pub archives: Vec<ArchiveDescriptor>,
    pub latency_windows: Vec<LatencyWindow>,
    pub files: Vec<WorkspaceFile>,
}

/// The enumerated, ignore-merged, latency-normalized view of a workspace.
pub struct WorkspaceDescriptor {
    pub repo_id: String,
    pub root_path: String,
    pub repo_type: RepoType,
    pub manifest_cursor: Option<String>,
    pub ignore_stack: Vec<IgnoreRule>,
    pub archives: Vec<ArchiveDescriptor>,
    pub latency_windows: Vec<LatencyWindow>,
    pub files: Vec<WorkspaceFile>,
}

impl WorkspaceDescriptor {
    pub fn latency_windows(&self) -> (r: &Vec<LatencyWindow>)
        ensures
            r == &self.latency_windows,
    {
        &self.latency_windows
    }

    pub fn ignore_stack(&self) -> (r: &Vec<IgnoreRule>)
        ensures
            r == &self.ignore_stack,
    {
        &self.ignore_stack
    }

    pub fn files(&self) -> (r: &Vec<WorkspaceFile>)
        ensures
            r == &self.files,
    {
        &self.files
    }
}

#[derive(Debug)]
pub enum WorkspaceError {
    Enumeration { detail: String },
}

/// Registered workspaces handed to a scan.
pub struct RegistrySnapshot {
    pub workspaces: Vec<WorkspaceRecord>,
}

impl RegistrySnapshot {
    pub fn new(workspaces: Vec<WorkspaceRecord>) -> (r: RegistrySnapshot)
        ensures
            r.workspaces == workspaces,
    {
        RegistrySnapshot { workspaces }
    }
}

/// Global and sandbox ignore layers applied below each repo's own rules.
pub struct EnumeratorConfig {
    pub global_ignores: Vec<IgnoreRule>,
    pub sandbox_ignores: Vec<IgnoreRule>,
}

/// Whether a pattern already occurs in a stack.
pub open spec fn has_pattern(stack: Seq<RuleModel>, pattern: Seq<char>) -> bool {
    exists|k: int| 0 <= k < stack.len() && (#[trigger] stack[k]).pattern == pattern
}

/// Add a base-layer rule: first occurrence of a pattern wins.
pub open spec fn add_base_rule(stack: Seq<RuleModel>, rule: RuleModel) -> Seq<RuleModel> {
    if has_pattern(stack, rule.pattern) {
        stack
    } else {
        stack.push(rule)
    }
}

/// The stack without any rule carrying the given pattern.
pub open spec fn drop_pattern(stack: Seq<RuleModel>, pattern: Seq<char>) -> Seq<RuleModel>
    decreases stack.len(),
{
    if stack.len() == 0 {
        Seq::<RuleModel>::empty()
    } else {
        let rest = drop_pattern(stack.drop_first(), pattern);
        if stack[0].pattern == pattern {
            rest
        } else {
            seq![stack[0]] + rest
        }
    }
}

/// Add a per-repo rule: a colliding pattern moves to the end of the stack.
pub open spec fn add_repo_rule(stack: Seq<RuleModel>, rule: RuleModel) -> Seq<RuleModel> {
    drop_pattern(stack, rule.pattern).push(rule)
}

/// Fold base-layer rules left to right.
pub open spec fn fold_base(stack: Seq<RuleModel>, rules: Seq<RuleModel>) -> Seq<RuleModel>
    decreases rules.len(),
{
    if rules.len() == 0 {
        stack
    } else {
        fold_base(add_base_rule(stack, rules[0]), rules.drop_first())
    }
}

/// Fold per-repo rules left to right.
pub open spec fn fold_repo(stack: Seq<RuleModel>, rules: Seq<RuleModel>) -> Seq<RuleModel>
    decreases rules.len(),
{
    if rules.len() == 0 {
        stack
    } else {
        fold_repo(add_repo_rule(stack, rules[0]), rules.drop_first())
    }
}

/// The merged ignore stack: global, then sandbox, then repo rules.
pub open spec fn merged_stack(
    globals: Seq<RuleModel>,
    sandbox: Seq<RuleModel>,
    repo: Seq<RuleModel>,
) -> Seq<RuleModel> {
    fold_repo(fold_base(fold_base(Seq::<RuleModel>::empty(), globals), sandbox), repo)
}

/// Largest event latency in a window, zero when there are none.
pub open spec fn max_event_latency(events: Seq<int>) -> int
    decreases events.len(),
{
    if events.len() == 0 {
        0
    } else {
        let rest = max_event_latency(events.drop_first());
        if events[0] >= rest {
            events[0]
        } else {
            rest
        }
    }
}

/// Records whose window event counts fit the observed counter.
pub open spec fn wf_record(r: WorkspaceRecord) -> bool {
    forall|k: int|
        0 <= k < r.latency_windows@.len() ==> (#[trigger] r.latency_windows@[k]).events@.len()
            <= u32::MAX
}

/// Merges layered ignore stacks and normalizes latency windows.
pub struct WorkspaceEnumerator {
    pub config: EnumeratorConfig,
}

impl WorkspaceEnumerator {
    pub fn new(config: EnumeratorConfig) -> (r: WorkspaceEnumerator)
        ensures
            r.config == config,
    {
        WorkspaceEnumerator { config }
    }

    /// Merge the configured layers with one record's rules.
    #[verifier::loop_isolation(false)]
    #[verifier::rlimit(100)]
    fn merge_ignore_stack(&self, repo_rules: &Vec<IgnoreRule>) -> (r: Vec<IgnoreRule>)
        ensures
            r.deep_view() == merged_stack(
                self.config.global_ignores.deep_view(),
                self.config.sandbox_ignores.deep_view(),
                repo_rules.deep_view(),
            ),
    {
        let mut stack: Vec<IgnoreRule> = Vec::new();
        proof {
            assert(stack.deep_view() =~= Seq::<RuleModel>::empty());
        }
        let ghost globals = self.config.global_ignores.deep_view();
        let mut i: usize = 0;
        while i < self.config.global_ignores.len()
            invariant
                0 <= i <= globals.len(),
                globals.len() == self.config.global_ignores@.len(),
                stack.deep_view() == fold_base(Seq::<RuleModel>::empty(), globals.take(i as int)),
            decreases globals.len() - i,
        {
            proof {
                lemma_fold_base_snoc(Seq::<RuleModel>::empty(), globals, i as int);
            }
            self.push_base(&mut stack, &self.config.global_ignores[i]);
            i = i + 1;
        }
        proof {
            assert(globals.take(globals.len() as int) =~= globals);
        }
        let ghost after_globals = stack.deep_view();
        let ghost sandbox = self.config.sandbox_ignores.deep_view();
        let mut j: usize = 0;
        while j < self.config.sandbox_ignores.len()
            invariant
                0 <= j <= sandbox.len(),
                sandbox.len() == self.config.sandbox_ignores@.len(),
                stack.deep_view() == fold_base(after_globals, sandbox.take(j as int)),
            decreases sandbox.len() - j,
        {
            proof {
                lemma_fold_base_snoc(after_globals, sandbox, j as int);
            }
            self.push_base(&mut stack, &self.config.sandbox_ignores[j]);
            j = j + 1;
        }
        proof {
            assert(sandbox.take(sandbox.len() as int) =~= sandbox);
        }
        let ghost after_sandbox = stack.deep_view();
        let ghost repo = repo_rules.deep_view();
        let mut k: usize = 0;
        while k < repo_rules.len()
            invariant
                0 <= k <= repo.len(),
                repo.len() == repo_rules@.len(),
                stack.deep_view() == fold_repo(after_sandbox, repo.take(k as int)),
            decreases repo.len() - k,
        {
            proof {
                lemma_fold_repo_snoc(after_sandbox, repo, k as int);
            }
            self.push_repo(&mut stack, &repo_rules[k]);
            k = k + 1;
        }
        proof {
            assert(repo.take(repo.len() as int) =~= repo);
        }
        stack
    }

    /// Append a rule unless its pattern is already present.
    fn push_base(&self, stack: &mut Vec<IgnoreRule>, rule: &IgnoreRule)
        ensures
            final(stack).deep_view() == add_base_rule(old(stack).deep_view(), rule.deep_view()),
    {
        let mut seen = false;
        let mut i: usize = 0;
        while i < stack.len()
            invariant
                0 <= i <= stack@.len(),
                stack.deep_view() == old(stack).deep_view(),
                seen == exists|k: int|
                    0 <= k < i && (#[trigger] stack.deep_view()[k]).pattern == rule.pattern@,
            decreases stack@.len() - i,
        {
            let hit = crate::strutil::str_eq(stack[i].pattern.as_str(), rule.pattern.as_str());
            proof {
                assert(stack.deep_view()[i as int].pattern == stack@[i as int].pattern@);
            }
            if hit {
                seen = true;
            }
            i = i + 1;
        }
        if !seen {
            let ghost pre = stack.deep_view();
            stack.push(rule.duplicate());
            proof {
                assert(stack.deep_view() =~= pre.push(rule.deep_view()));
            }
        }
    }

    /// Remove any rule with the same pattern, then append this one.
    fn push_repo(&self, stack: &mut Vec<IgnoreRule>, rule: &IgnoreRule)
        ensures
            final(stack).deep_view() == add_repo_rule(old(stack).deep_view(), rule.deep_view()),
    {
        let ghost pre = stack.deep_view();
        let mut kept: Vec<IgnoreRule> = Vec::new();
        let mut i: usize = 0;
        while i < stack.len()
            invariant
                0 <= i <= stack@.len(),
                stack.deep_view() == pre,
                kept.deep_view() == drop_pattern(pre.take(i as int), rule.pattern@),
            decreases stack@.len() - i,
        {
            let ghost kept_pre = kept.deep_view();
            if !crate::strutil::str_eq(stack[i].pattern.as_str(), rule.pattern.as_str()) {
                kept.push(stack[i].duplicate());
            }
            proof {
                lemma_drop_pattern_snoc(pre, i as int, rule.pattern@);
                if pre[i as int].pattern != rule.pattern@ {
                    assert(kept.deep_view() =~= kept_pre.push(pre[i as int]));
                }
                assert(kept.deep_view() =~= drop_pattern(pre.take(i + 1), rule.pattern@));
            }
            i = i + 1;
        }
        proof {
            assert(pre.take(pre.len() as int) =~= pre);
        }
        kept.push(rule.duplicate());
        let ghost target = add_repo_rule(pre, rule.deep_view());
        proof {
            assert(kept.deep_view() =~= target);
        }
        *stack = kept;
    }

    /// Backfill a window's observed count and maximum latency from its
    /// events when they are zero.
    fn normalize_window(window: &LatencyWindow) -> (r: LatencyWindow)
        requires
            window.events@.len() <= u32::MAX,
        ensures
            r.window_ms == window.window_ms,
            r.debounce_ms == window.debounce_ms,
            r.queue_depth == window.queue_depth,
            r.events@.len() == window.events@.len(),
            forall|k: int|
                0 <= k < r.events@.len() ==> (#[trigger] r.events@[k]).latency_ms
                    == window.events@[k].latency_ms && r.events@[k].path@
                    == window.events@[k].path@ && r.events@[k].action@
                    == window.events@[k].action@,
            r.events_observed == (if window.events_observed == 0 {
                window.events@.len() as u32
            } else {
                window.events_observed
            }),
            r.max_latency_ms as int == (if window.max_latency_ms == 0 {
                max_event_latency(
                    window.events@.map_values(|e: LatencyEvent| e.latency_ms as int),
                )
            } else {
                window.max_latency_ms as int
            }),
    {
        let mut events: Vec<LatencyEvent> = Vec::new();
        let mut max_seen: u64 = 0;
        let ghost lats = window.events@.map_values(|e: LatencyEvent| e.latency_ms as int);
        let mut i: usize = 0;
        while i < window.events.len()
            invariant
                0 <= i <= window.events@.len(),
                events@.len() == i,
                forall|k: int|
                    0 <= k < i ==> (#[trigger] events@[k]).latency_ms
                        == window.events@[k].latency_ms && events@[k].path@
                        == window.events@[k].path@ && events@[k].action@
                        == window.events@[k].action@,
                lats == window.events@.map_values(|e: LatencyEvent| e.latency_ms as int),
                max_seen as int == max_event_latency(lats.take(i as int)),
            decreases window.events@.len() - i,
        {
            proof {
                lemma_max_latency_snoc(lats, i as int);
            }
            let ev = window.events[i].duplicate();
            if ev.latency_ms > max_seen {
                max_seen = ev.latency_ms;
            }
            events.push(ev);
            i = i + 1;
        }
        proof {
            assert(lats.take(lats.len() as int) =~= lats);
        }
        let events_observed = if window.events_observed == 0 {
            events.len() as u32
        } else {
            window.events_observed
        };
        let max_latency_ms = if window.max_latency_ms == 0 {
            max_seen
        } else {
            window.max_latency_ms
        };
        LatencyWindow {
            window_ms: window.window_ms,
            debounce_ms: window.debounce_ms,
            queue_depth: window.queue_depth,
            events,
            events_observed,
            max_latency_ms,
        }
    }

    /// Enumerate the snapshot: each record becomes a descriptor with the
    /// merged ignore stack and normalized latency windows, in order.
    #[verifier::loop_isolation(false)]
    pub fn scan(&self, snapshot: &RegistrySnapshot) -> (r: Result<
        Vec<WorkspaceDescriptor>,
        WorkspaceError,
    >)
        requires
            forall|w: int|
                0 <= w < snapshot.workspaces@.len() ==> wf_record(
                    #[trigger] snapshot.workspaces@[w],
                ),
        ensures
            r matches Ok(ds) ==> {
                &&& ds@.len() == snapshot.workspaces@.len()
                &&& forall|w: int|
                    0 <= w < ds@.len() ==> {
                        let rec = #[trigger] snapshot.workspaces@[w];
                        &&& ds@[w].repo_id@ == rec.repo_id@
                        &&& ds@[w].root_path@ == rec.root_path@
                        &&& ds@[w].ignore_stack.deep_view() == merged_stack(
                            self.config.global_ignores.deep_view(),
                            self.config.sandbox_ignores.deep_view(),
                            rec.ignore_rules.deep_view(),
                        )
                        &&& ds@[w].latency_windows@.len() == rec.latency_windows@.len()
                        &&& ds@[w].files@.len() == rec.files@.len()
                        &&& forall|k: int|
                            0 <= k < rec.files@.len() ==> (#[trigger] ds@[w].files@[k]).path@
                                == rec.files@[k].path@ && ds@[w].files@[k].content@
                                == rec.files@[k].content@
                        &&& forall|k: int|
                            0 <= k < rec.latency_windows@.len() ==> {
                                let win = #[trigger] ds@[w].latency_windows@[k];
                                let orig = rec.latency_windows@[k];
                                &&& win.window_ms == orig.window_ms
                                &&& win.events_observed == (if orig.events_observed == 0 {
                                    orig.events@.len() as u32
                                } else {
                                    orig.events_observed
                                })
                                &&& win.max_latency_ms as int == (if orig.max_latency_ms == 0 {
                                    max_event_latency(
                                        orig.events@.map_values(
                                            |e: LatencyEvent| e.latency_ms as int,
                                        ),
                                    )
                                } else {
                                    orig.max_latency_ms as int
                                })
                                &&& win.queue_depth == orig.queue_depth
                                &&& win.debounce_ms == orig.debounce_ms
                            }
                    }
            },
            r is Ok,
    {
        let mut descriptors: Vec<WorkspaceDescriptor> = Vec::new();
        let mut w: usize = 0;
        while w < snapshot.workspaces.len()
            invariant
                0 <= w <= snapshot.workspaces@.len(),
                descriptors@.len() == w,
                forall|x: int|
                    0 <= x < w ==> {
                        let rec = #[trigger] snapshot.workspaces@[x];
                        &&& descriptors@[x].repo_id@ == rec.repo_id@
                        &&& descriptors@[x].root_path@ == rec.root_path@
                        &&& descriptors@[x].ignore_stack.deep_view() == merged_stack(
                            self.config.global_ignores.deep_view(),
                            self.config.sandbox_ignores.deep_view(),
                            rec.ignore_rules.deep_view(),
                        )
                        &&& descriptors@[x].latency_windows@.len() == rec.latency_windows@.len()
                        &&& descriptors@[x].files@.len() == rec.files@.len()
                        &&& forall|k: int|
                            0 <= k < rec.files@.len() ==> (
                            #[trigger] descriptors@[x].files@[k]).path@ == rec.files@[k].path@
                                && descriptors@[x].files@[k].content@ == rec.files@[k].content@
                        &&& forall|k: int|
                            0 <= k < rec.latency_windows@.len() ==> {
                                let win = #[trigger] descriptors@[x].latency_windows@[k];
                                let orig = rec.latency_windows@[k];
                                &&& win.window_ms == orig.window_ms
                                &&& win.events_observed == (if orig.events_observed == 0 {
                                    orig.events@.len() as u32
                                } else {
                                    orig.events_observed
                                })
                                &&& win.max_latency_ms as int == (if orig.max_latency_ms == 0 {
                                    max_event_latency(
                                        orig.events@.map_values(
                                            |e: LatencyEvent| e.latency_ms as int,
                                        ),
                                    )
                                } else {
                                    orig.max_latency_ms as int
                                })
                                &&& win.queue_depth == orig.queue_depth
                                &&& win.debounce_ms == orig.debounce_ms
                            }
                    },
            decreases snapshot.workspaces@.len() - w,
        {
            let record = &snapshot.workspaces[w];
            let ignore_stack = self.merge_ignore_stack(&record.ignore_rules);
            let mut latency_windows: Vec<LatencyWindow> = Vec::new();
            let mut k: usize = 0;
            while k < record.latency_windows.len()
                invariant
                    0 <= k <= record.latency_windows@.len(),
                    latency_windows@.len() == k,
                    record == &snapshot.workspaces@[w as int],
                    0 <= w < snapshot.workspaces@.len(),
                    forall|t: int|
                        0 <= t < k ==> {
                            let win = #[trigger] latency_windows@[t];
                            let orig = record.latency_windows@[t];
                            &&& win.window_ms == orig.window_ms
                            &&& win.events_observed == (if orig.events_observed == 0 {
                                orig.events@.len() as u32
                            } else {
                                orig.events_observed
                            })
                            &&& win.max_latency_ms as int == (if orig.max_latency_ms == 0 {
                                max_event_latency(
                                    orig.events@.map_values(|e: LatencyEvent| e.latency_ms as int),
                                )
                            } else {
                                orig.max_latency_ms as int
                            })
                            &&& win.queue_depth == orig.queue_depth
                            &&& win.debounce_ms == orig.debounce_ms
                        },
                decreases record.latency_windows@.len() - k,
            {
                let win = Self::normalize_window(&record.latency_windows[k]);
                latency_windows.push(win);
                k = k + 1;
            }
            let mut files: Vec<WorkspaceFile> = Vec::new();
            let mut f: usize = 0;
            while f < record.files.len()
                invariant
                    0 <= f <= record.files@.len(),
                    files@.len() == f,
                    record == &snapshot.workspaces@[w as int],
                    0 <= w < snapshot.workspaces@.len(),
                    forall|t: int|
                        0 <= t < f ==> (#[trigger] files@[t]).path@ == record.files@[t].path@
                            && files@[t].content@ == record.files@[t].content@,
                decreases record.files@.len() - f,
            {
                files.push(record.files[f].duplicate());
                f = f + 1;
            }
            let mut archives: Vec<ArchiveDescriptor> = Vec::new();
            let mut a: usize = 0;
            while a < record.archives.len()
                invariant
                    0 <= a <= record.archives@.len(),
                    record == &snapshot.workspaces@[w as int],
                    0 <= w < snapshot.workspaces@.len(),
                decreases record.archives@.len() - a,
            {
                archives.push(record.archives[a].duplicate());
                a = a + 1;
            }
            let descriptor = WorkspaceDescriptor {
                repo_id: record.repo_id.clone(),
                root_path: record.root_path.clone(),
                repo_type: match record.repo_type {
                    RepoType::Git => RepoType::Git,
                    RepoType::Archive => RepoType::Archive,
                },
                manifest_cursor: match &record.manifest_cursor {
                    Some(c) => Some(c.clone()),
                    None => None,
                },
                ignore_stack,
                archives,
                latency_windows,
                files,
            };
            descriptors.push(descriptor);
            w = w + 1;
        }
        Ok(descriptors)
    }
}

proof fn lemma_fold_base_snoc(start: Seq<RuleModel>, rules: Seq<RuleModel>, i: int)
    requires
        0 <= i < rules.len(),
    ensures
        fold_base(start, rules.take(i + 1)) == add_base_rule(
            fold_base(start, rules.take(i)),
            rules[i],
        ),
    decreases i,
{
    if i == 0 {
        assert(rules.take(1).drop_first() =~= Seq::<RuleModel>::empty());
        assert(rules.take(0) =~= Seq::<RuleModel>::empty());
        assert(rules.take(1)[0] == rules[0]);
        assert(fold_base(start, rules.take(1)) == fold_base(add_base_rule(start, rules[0]), rules.take(1).drop_first()));
        assert(fold_base(start, Seq::<RuleModel>::empty()) == start);
        assert(fold_base(add_base_rule(start, rules[0]), Seq::<RuleModel>::empty()) == add_base_rule(start, rules[0]));
    } else {
        lemma_fold_base_snoc(add_base_rule(start, rules[0]), rules.drop_first(), i - 1);
        assert(rules.take(i + 1).drop_first() =~= rules.drop_first().take(i));
        assert(rules.take(i).drop_first() =~= rules.drop_first().take(i - 1));
        assert(rules.take(i + 1)[0] == rules[0]);
        assert(rules.take(i)[0] == rules[0]);
        assert(rules.drop_first()[i - 1] == rules[i]);
        assert(fold_base(start, rules.take(i + 1)) == fold_base(add_base_rule(start, rules[0]), rules.drop_first().take(i)));
        assert(fold_base(start, rules.take(i)) == fold_base(add_base_rule(start, rules[0]), rules.drop_first().take(i - 1)));
    }
}

proof fn lemma_fold_repo_snoc(start: Seq<RuleModel>, rules: Seq<RuleModel>, i: int)
    requires
        0 <= i < rules.len(),
    ensures
        fold_repo(start, rules.take(i + 1)) == add_repo_rule(
            fold_repo(start, rules.take(i)),
            rules[i],
        ),
    decreases i,
{
    if i == 0 {
        assert(rules.take(1).drop_first() =~= Seq::<RuleModel>::empty());
        assert(rules.take(0) =~= Seq::<RuleModel>::empty());
        assert(rules.take(1)[0] == rules[0]);
        assert(fold_repo(start, rules.take(1)) == fold_repo(add_repo_rule(start, rules[0]), rules.take(1).drop_first()));
        assert(fold_repo(start, Seq::<RuleModel>::empty()) == start);
        assert(fold_repo(add_repo_rule(start, rules[0]), Seq::<RuleModel>::empty()) == add_repo_rule(start, rules[0]));
    } else {
        lemma_fold_repo_snoc(add_repo_rule(start, rules[0]), rules.drop_first(), i - 1);
        assert(rules.take(i + 1).drop_first() =~= rules.drop_first().take(i));
        assert(rules.take(i).drop_first() =~= rules.drop_first().take(i - 1));
        assert(rules.take(i + 1)[0] == rules[0]);
        assert(rules.take(i)[0] == rules[0]);
        assert(rules.drop_first()[i - 1] == rules[i]);
        assert(fold_repo(start, rules.take(i + 1)) == fold_repo(add_repo_rule(start, rules[0]), rules.drop_first().take(i)));
        assert(fold_repo(start, rules.take(i)) == fold_repo(add_repo_rule(start, rules[0]), rules.drop_first().take(i - 1)));
    }
}

proof fn lemma_drop_pattern_snoc(s: Seq<RuleModel>, i: int, pattern: Seq<char>)
    requires
        0 <= i < s.len(),
    ensures
        drop_pattern(s.take(i + 1), pattern) == drop_pattern(s.take(i), pattern) + (
        if s[i].pattern == pattern {
            Seq::<RuleModel>::empty()
        } else {
            seq![s[i]]
        }),
    decreases i,
{
    if i == 0 {
        assert(s.take(1).drop_first() =~= Seq::<RuleModel>::empty());
        assert(s.take(0) =~= Seq::<RuleModel>::empty());
        assert(s.take(1)[0] == s[0]);
        assert(drop_pattern(s.take(i + 1), pattern) =~= drop_pattern(s.take(i), pattern) + (
        if s[i].pattern == pattern {
            Seq::<RuleModel>::empty()
        } else {
            seq![s[i]]
        }));
    } else {
        lemma_drop_pattern_snoc(s.drop_first(), i - 1, pattern);
        assert(s.take(i + 1).drop_first() =~= s.drop_first().take(i));
        assert(s.take(i).drop_first() =~= s.drop_first().take(i - 1));
        assert(s.take(i + 1)[0] == s[0]);
        assert(s.take(i)[0] == s[0]);
        assert(s.drop_first()[i - 1] == s[i]);
        assert(drop_pattern(s.take(i + 1), pattern) =~= drop_pattern(s.take(i), pattern) + (
        if s[i].pattern == pattern {
            Seq::<RuleModel>::empty()
        } else {
            seq![s[i]]
        }));
    }
}

proof fn lemma_max_latency_snoc(lats: Seq<int>, i: int)
    requires
        0 <= i < lats.len(),
    ensures
        max_event_latency(lats.take(i + 1)) == (if lats[i] >= max_event_latency(lats.take(i)) {
            lats[i]
        } else {
            max_event_latency(lats.take(i))
        }),
    decreases i,
{
    if i == 0 {
        assert(lats.take(1).drop_first() =~= Seq::<int>::empty());
        assert(lats.take(0) =~= Seq::<int>::empty());
        assert(lats.take(1)[0] == lats[0]);
    } else {
        lemma_max_latency_snoc(lats.drop_first(), i - 1);
        assert(lats.take(i + 1).drop_first() =~= lats.drop_first().take(i));
        assert(lats.take(i).drop_first() =~= lats.drop_first().take(i - 1));
        assert(lats.take(i + 1)[0] == lats[0]);
        assert(lats.take(i)[0] == lats[0]);
        assert(lats.drop_first()[i - 1] == lats[i]);
    }
}

} // verus!
