//! Deterministic workspace-to-chunk planning, gated by archive quotas.
//!
//! Files are walked in sorted path order; each file is split into byte
//! slices of the configured size and every slice becomes one plan whose
//! identifier carries a global index that is monotone across the sorted
//! file list. Empty files yield a single zero-span plan.

use vstd::prelude::*;
use crate::crypto::{b3, blake3_hash};
use crate::numfmt::{dec_of, hex_of, push_dec, push_hex};
use crate::quota::{
    ArchiveQuotaTracker, ArchiveSample, QuotaError, QuotaLimits, QuotaDiagnostics, QuotaObservation,
    quota_exceeded, observe_spec, diagnostics_of, merged_diagnostics,
};
use crate::strutil::{chars_to_string, push_str_chars, str_to_chars, string_to_bytes, bytes_subrange};
use crate::workspace::{ArchiveDescriptor, WorkspaceDescriptor};
use vstd::utf8::encode_utf8;

verus! {

/// Planner configuration: chunk size, batch cap and optional quotas.
pub struct PlannerConfig {
    pub target_chunk_bytes: usize,
    pub max_chunks_per_batch: usize,
    pub quota_bytes_max: Option<u64>,
    pub quota_entries_max: Option<u64>,
    pub quota_nesting_max: Option<u32>,
    pub quota_latency_budget_ms: Option<u64>,
}

impl PlannerConfig {
    pub fn new(target_chunk_bytes: usize, max_chunks_per_batch: usize) -> (r: PlannerConfig)
        ensures
            r.target_chunk_bytes == target_chunk_bytes,
            r.max_chunks_per_batch == max_chunks_per_batch,
            r.quota_bytes_max is None,
            r.quota_entries_max is None,
            r.quota_nesting_max is None,
            r.quota_latency_budget_ms is None,
    {
        PlannerConfig {
            target_chunk_bytes,
            max_chunks_per_batch,
            quota_bytes_max: None,
            quota_entries_max: None,
            quota_nesting_max: None,
            quota_latency_budget_ms: None,
        }
    }
}

/// Retry budget attached to every plan.
#[derive(Debug)]
pub struct RetryPolicy {
    pub max_attempts: u32,
    pub backoff_ms: u64,
}

impl std::default::Default for RetryPolicy {
    /// Three attempts, one second apart.
    fn default() -> (r: RetryPolicy)
        ensures
            r.max_attempts == 3,
            r.backoff_ms == 1000,
    {
        RetryPolicy { max_attempts: 3, backoff_ms: 1000 }
    }
}

/// One planned slice of source content.
#[derive(Debug)]
pub struct ChunkPlan {
    pub plan_id: String,
    pub repo_id: String,
    pub chunker_config: String,
    pub source_span: String,
    pub hash: String,
    pub retry_policy: RetryPolicy,
}

/// Mathematical content of a chunk plan.
pub struct PlanModel {
    pub plan_id: Seq<char>,
    pub repo_id: Seq<char>,
    pub chunker_config: Seq<char>,
    pub source_span: Seq<char>,
    pub hash: Seq<char>,
    pub max_attempts: int,
    pub backoff_ms: int,
}

impl DeepView for ChunkPlan {
    type V = PlanModel;

    open spec fn deep_view(&self) -> PlanModel {
        PlanModel {
            plan_id: self.plan_id@,
            repo_id: self.repo_id@,
            chunker_config: self.chunker_config@,
            source_span: self.source_span@,
            hash: self.hash@,
            max_attempts: self.retry_policy.max_attempts as int,
            backoff_ms: self.retry_policy.backoff_ms as int,
        }
    }
}

/// A plan together with the payload text of its slice.
#[derive(Debug)]
pub struct PlannedChunk {
    pub plan: ChunkPlan,
    pub payload: String,
}

impl PlannedChunk {
    pub fn new(plan: ChunkPlan, payload: String) -> (r: PlannedChunk)
        ensures
            r.plan == plan,
            r.payload == payload,
    {
        PlannedChunk { plan, payload }
    }

    pub fn plan(&self) -> (r: &ChunkPlan)
        ensures
            r == &self.plan,
    {
        &self.plan
    }

    pub fn payload(&self) -> (r: &String)
        ensures
            r == &self.payload,
    {
        &self.payload
    }
}

#[derive(Debug)]
pub enum PlanningError {
    QuotaExceeded { diagnostics: QuotaDiagnostics },
}

/// A file reduced to its path and content bytes.
pub struct FileModel {
    pub path: Seq<char>,
    pub content: Seq<u8>,
}

/// Strict lexicographic order on paths.
pub open spec fn lex_lt(a: Seq<char>, b: Seq<char>) -> bool
    decreases a.len(),
{
    if b.len() == 0 {
        false
    } else if a.len() == 0 {
        true
    } else if a[0] != b[0] {
        (a[0] as u32) < (b[0] as u32)
    } else {
        lex_lt(a.drop_first(), b.drop_first())
    }
}

/// Insert a file before the first strictly larger path (stable for equal
/// paths).
pub open spec fn insert_sorted(f: FileModel, s: Seq<FileModel>) -> Seq<FileModel>
    decreases s.len(),
{
    if s.len() == 0 {
        seq![f]
    } else if lex_lt(f.path, s[0].path) {
        seq![f] + s
    } else {
        seq![s[0]] + insert_sorted(f, s.drop_first())
    }
}

/// The files sorted by path via repeated insertion.
pub open spec fn sort_files(files: Seq<FileModel>) -> Seq<FileModel>
    decreases files.len(),
{
    if files.len() == 0 {
        Seq::<FileModel>::empty()
    } else {
        insert_sorted(files.last(), sort_files(files.drop_last()))
    }
}

/// The sorted file list is ordered by path and keeps every file.
pub proof fn lemma_sort_files_sorted(files: Seq<FileModel>)
    ensures
        sort_files(files).len() == files.len(),
        forall|a: int, b: int|
            0 <= a < b < sort_files(files).len() ==> !lex_lt(
                (#[trigger] sort_files(files)[b]).path,
                (#[trigger] sort_files(files)[a]).path,
            ),
    decreases files.len(),
{
    if files.len() > 0 {
        lemma_sort_files_sorted(files.drop_last());
        lemma_insert_sorted_ordered(files.last(), sort_files(files.drop_last()));
    }
}

/// Insertion keeps a path-ordered list ordered and grows it by one.
proof fn lemma_insert_sorted_ordered(f: FileModel, s: Seq<FileModel>)
    requires
        forall|a: int, b: int|
            0 <= a < b < s.len() ==> !lex_lt((#[trigger] s[b]).path, (#[trigger] s[a]).path),
    ensures
        insert_sorted(f, s).len() == s.len() + 1,
        forall|a: int, b: int|
            0 <= a < b < insert_sorted(f, s).len() ==> !lex_lt(
                (#[trigger] insert_sorted(f, s)[b]).path,
                (#[trigger] insert_sorted(f, s)[a]).path,
            ),
    decreases s.len(),
{
    let out = insert_sorted(f, s);
    if s.len() == 0 {
    } else if lex_lt(f.path, s[0].path) {
        assert(out == seq![f] + s);
        assert forall|a: int, b: int|
            0 <= a < b < out.len() implies !lex_lt((#[trigger] out[b]).path, (
        #[trigger] out[a]).path) by {
            if a == 0 {
                assert(out[b] == s[b - 1]);
                if lex_lt(s[b - 1].path, f.path) {
                    lemma_lex_lt_trans(s[b - 1].path, f.path, s[0].path);
                    if b - 1 == 0 {
                        lemma_lex_lt_asym(f.path, s[0].path);
                    } else {
                        assert(!lex_lt(s[b - 1].path, s[0].path));
                    }
                }
            } else {
                assert(out[a] == s[a - 1] && out[b] == s[b - 1]);
            }
        }
    } else {
        assert forall|a: int, b: int|
            0 <= a < b < s.drop_first().len() implies !lex_lt(
            (#[trigger] s.drop_first()[b]).path,
            (#[trigger] s.drop_first()[a]).path,
        ) by {
            assert(s.drop_first()[a] == s[a + 1] && s.drop_first()[b] == s[b + 1]);
        }
        lemma_insert_sorted_ordered(f, s.drop_first());
        assert(out == seq![s[0]] + insert_sorted(f, s.drop_first()));
        let rest = insert_sorted(f, s.drop_first());
        assert forall|a: int, b: int|
            0 <= a < b < out.len() implies !lex_lt((#[trigger] out[b]).path, (
        #[trigger] out[a]).path) by {
            if a == 0 {
                assert(out[b] == rest[b - 1]);
                lemma_insert_member(f, s.drop_first(), b - 1);
                if !lex_lt(out[b].path, s[0].path) {
                } else {
                    // the element below s[0] is either f (not less, by the
                    // branch) or an original element (not less, by order)
                    if out[b] == f {
                        assert(!lex_lt(f.path, s[0].path));
                    } else {
                        let k = choose|k: int|
                            0 <= k < s.drop_first().len() && s.drop_first()[k] == out[b];
                        assert(s.drop_first()[k] == s[k + 1]);
                        assert(!lex_lt(s[k + 1].path, s[0].path));
                    }
                }
            } else {
                assert(out[a] == rest[a - 1] && out[b] == rest[b - 1]);
            }
        }
    }
}

/// Everything in an insertion result is the inserted file or an original.
proof fn lemma_insert_member(f: FileModel, s: Seq<FileModel>, i: int)
    requires
        0 <= i < insert_sorted(f, s).len(),
    ensures
        insert_sorted(f, s)[i] == f || exists|k: int| 0 <= k < s.len() && s[k] == insert_sorted(
            f,
            s,
        )[i],
    decreases s.len(),
{
    let out = insert_sorted(f, s);
    if s.len() == 0 {
    } else if lex_lt(f.path, s[0].path) {
        if i > 0 {
            assert(out[i] == s[i - 1]);
        }
    } else {
        if i == 0 {
            assert(out[0] == s[0]);
        } else {
            lemma_insert_member(f, s.drop_first(), i - 1);
            assert(out[i] == insert_sorted(f, s.drop_first())[i - 1]);
            if insert_sorted(f, s.drop_first())[i - 1] != f {
                let k = choose|k: int|
                    0 <= k < s.drop_first().len() && s.drop_first()[k] == insert_sorted(
                        f,
                        s.drop_first(),
                    )[i - 1];
                assert(s[k + 1] == out[i]);
            }
        }
    }
}

/// The path order is transitive.
proof fn lemma_lex_lt_trans(a: Seq<char>, b: Seq<char>, c: Seq<char>)
    requires
        lex_lt(a, b),
        lex_lt(b, c),
    ensures
        lex_lt(a, c),
    decreases a.len(),
{
    if a.len() == 0 {
    } else {
        if a[0] == b[0] && b[0] == c[0] {
            lemma_lex_lt_trans(a.drop_first(), b.drop_first(), c.drop_first());
        }
    }
}

/// The path order is asymmetric.
proof fn lemma_lex_lt_asym(a: Seq<char>, b: Seq<char>)
    requires
        lex_lt(a, b),
    ensures
        !lex_lt(b, a),
    decreases a.len(),
{
    if a.len() > 0 && b.len() > 0 && a[0] == b[0] {
        lemma_lex_lt_asym(a.drop_first(), b.drop_first());
    }
}

/// The plan for one slice.
pub open spec fn plan_model(
    repo: Seq<char>,
    chunk_size: int,
    max_batch: int,
    path: Seq<char>,
    off: int,
    end: int,
    slice: Seq<u8>,
    idx: int,
) -> PlanModel {
    PlanModel {
        plan_id: repo + "::"@ + path + "::"@ + dec_of(idx as nat),
        repo_id: repo,
        chunker_config: "bytes="@ + dec_of(chunk_size as nat) + ";max="@ + dec_of(
            max_batch as nat,
        ),
        source_span: path + ":"@ + dec_of(off as nat) + "-"@ + dec_of(end as nat),
        hash: hex_of(b3(slice)),
        max_attempts: 3,
        backoff_ms: 1000,
    }
}

/// The plans of one non-empty file from a byte offset on.
pub open spec fn file_plans(
    repo: Seq<char>,
    chunk_size: int,
    max_batch: int,
    path: Seq<char>,
    content: Seq<u8>,
    off: int,
    idx: int,
) -> Seq<PlanModel>
    decreases content.len() - off,
{
    if off < 0 || off >= content.len() || chunk_size < 1 {
        Seq::<PlanModel>::empty()
    } else {
        let end = if off + chunk_size <= content.len() {
            off + chunk_size
        } else {
            content.len() as int
        };
        seq![
            plan_model(repo, chunk_size, max_batch, path, off, end, content.subrange(off, end), idx),
        ] + file_plans(repo, chunk_size, max_batch, path, content, end, idx + 1)
    }
}

/// All plans over a file list, threading the global index.
pub open spec fn all_plans(
    repo: Seq<char>,
    chunk_size: int,
    max_batch: int,
    files: Seq<FileModel>,
    idx: int,
) -> Seq<PlanModel>
    decreases files.len(),
{
    if files.len() == 0 {
        Seq::<PlanModel>::empty()
    } else {
        let fp = if files[0].content.len() == 0 {
            seq![
                plan_model(
                    repo,
                    chunk_size,
                    max_batch,
                    files[0].path,
                    0,
                    0,
                    Seq::<u8>::empty(),
                    idx,
                ),
            ]
        } else {
            file_plans(repo, chunk_size, max_batch, files[0].path, files[0].content, 0, idx)
        };
        fp + all_plans(repo, chunk_size, max_batch, files.drop_first(), idx + fp.len())
    }
}

/// The observations accumulated over the archives of a workspace.
pub open spec fn fold_samples(archives: Seq<(int, int, int, int)>) -> QuotaObservation
    decreases archives.len(),
{
    if archives.len() == 0 {
        QuotaObservation { bytes: 0, entries: 0, max_nesting: 0, max_latency_ms: 0 }
    } else {
        let prev = fold_samples(archives.drop_last());
        let a = archives.last();
        observe_spec(
            prev,
            ArchiveSample {
                bytes: a.0 as u64,
                entries: a.1 as u64,
                nesting_depth: a.2 as u32,
                max_latency_ms: a.3 as u64,
            },
        )
    }
}

/// The archive measurements of a workspace as plain tuples.
pub open spec fn archive_tuples(archives: Seq<ArchiveDescriptor>) -> Seq<(int, int, int, int)> {
    archives.map_values(
        |a: ArchiveDescriptor|
            (a.bytes as int, a.entries as int, a.nesting_depth as int, a.max_latency_ms as int),
    )
}

/// Deterministic workspace-to-chunk planner.
pub struct ChunkPlanner {
    pub config: PlannerConfig,
}

impl ChunkPlanner {
    pub fn new(config: PlannerConfig) -> (r: ChunkPlanner)
        ensures
            r.config == config,
    {
        ChunkPlanner { config }
    }

    /// The quota limits configured for this planner.
    pub open spec fn limits(&self) -> QuotaLimits {
        QuotaLimits {
            bytes_max: self.config.quota_bytes_max,
            entries_max: self.config.quota_entries_max,
            nesting_max: self.config.quota_nesting_max,
            latency_budget_ms: self.config.quota_latency_budget_ms,
        }
    }

    /// Whether a quota check applies to this workspace at all.
    pub open spec fn quota_applies(&self, workspace: &WorkspaceDescriptor) -> bool {
        ||| workspace.archives@.len() > 0
        ||| self.config.quota_bytes_max is Some
        ||| self.config.quota_entries_max is Some
        ||| self.config.quota_nesting_max is Some
    }

    /// Whether this workspace exceeds the configured quotas.
    pub open spec fn quota_blocked(&self, workspace: &WorkspaceDescriptor) -> bool {
        &&& self.quota_applies(workspace)
        &&& quota_exceeded(self.limits(), fold_samples(archive_tuples(workspace.archives@)))
    }

    /// The effective chunk size: at least one byte.
    pub open spec fn chunk_size(&self) -> int {
        if self.config.target_chunk_bytes >= 1 {
            self.config.target_chunk_bytes as int
        } else {
            1
        }
    }

    /// The full plan list of a workspace before the batch cap.
    pub open spec fn plans_model(&self, workspace: &WorkspaceDescriptor) -> Seq<PlanModel> {
        all_plans(
            workspace.repo_id@,
            self.chunk_size(),
            self.config.max_chunks_per_batch as int,
            sort_files(
                workspace.files@.map_values(
                    |f: crate::workspace::WorkspaceFile|
                        FileModel { path: f.path@, content: encode_utf8(f.content@) },
                ),
            ),
            0,
        )
    }

    /// Check archive quotas, then walk the files in sorted path order and
    /// emit one plan per slice, truncated to the batch cap.
    #[verifier::loop_isolation(false)]
    #[verifier::rlimit(100)]
    pub fn plan(&self, workspace: &WorkspaceDescriptor) -> (r: Result<
        Vec<ChunkPlan>,
        PlanningError,
    >)
        ensures
            r is Err <==> self.quota_blocked(workspace),
            r matches Err(e) ==> e == (PlanningError::QuotaExceeded {
                diagnostics: merged_diagnostics(
                    diagnostics_of(
                        self.limits(),
                        fold_samples(archive_tuples(workspace.archives@)),
                    ),
                    self.limits(),
                ),
            }),
            r matches Ok(plans) ==> {
                let full = self.plans_model(workspace);
                &&& plans@.len() <= self.config.max_chunks_per_batch
                &&& plans.deep_view() == (if full.len() <= self.config.max_chunks_per_batch as int {
                    full
                } else {
                    full.take(self.config.max_chunks_per_batch as int)
                })
            },
    {
        match self.check_archive_quotas(workspace) {
            Err(e) => {
                return Err(e);
            },
            Ok(()) => {},
        }
        let chunk_size: usize = if self.config.target_chunk_bytes >= 1 {
            self.config.target_chunk_bytes
        } else {
            1
        };
        let sorted = sort_workspace_files(&workspace.files);
        let ghost fs = sort_files(
            workspace.files@.map_values(
                |f: crate::workspace::WorkspaceFile|
                    FileModel { path: f.path@, content: encode_utf8(f.content@) },
            ),
        );
        let ghost target = self.plans_model(workspace);
        let mut plans: Vec<ChunkPlan> = Vec::new();
        proof {
            assert(fs.skip(0) =~= fs);
            assert(plans.deep_view() =~= Seq::<PlanModel>::empty());
            assert(plans.deep_view() + all_plans(
                workspace.repo_id@,
                self.chunk_size(),
                self.config.max_chunks_per_batch as int,
                fs.skip(0),
                0,
            ) =~= target);
        }
        let mut fi: usize = 0;
        while fi < sorted.len()
            invariant
                0 <= fi <= sorted@.len(),
                fs.len() == sorted@.len(),
                forall|k: int|
                    0 <= k < fs.len() ==> (#[trigger] fs[k]).path == sorted@[k].path@ && fs[k].content
                        == encode_utf8(sorted@[k].content@),
                chunk_size as int == self.chunk_size(),
                plans.deep_view() + all_plans(
                    workspace.repo_id@,
                    self.chunk_size(),
                    self.config.max_chunks_per_batch as int,
                    fs.skip(fi as int),
                    plans@.len() as int,
                ) == target,
            decreases sorted@.len() - fi,
        {
            let file = &sorted[fi];
            let content_bytes = string_to_bytes(&file.content);
            let ghost pre_plans = plans.deep_view();
            let ghost file_model = fs[fi as int];
            proof {
                assert(fs.skip(fi as int)[0] == fs[fi as int]);
                assert(fs.skip(fi as int).drop_first() =~= fs.skip(fi as int + 1));
            }
            if content_bytes.len() == 0 {
                let plan = self.build_plan(
                    &workspace.repo_id,
                    chunk_size,
                    &file.path,
                    0,
                    0,
                    &content_bytes,
                    plans.len(),
                );
                let ghost before = plans.deep_view();
                plans.push(plan);
                proof {
                    assert(plans.deep_view() =~= before.push(
                        plan_model(
                            workspace.repo_id@,
                            self.chunk_size(),
                            self.config.max_chunks_per_batch as int,
                            file_model.path,
                            0,
                            0,
                            Seq::<u8>::empty(),
                            before.len() as int,
                        ),
                    ));
                    assert(content_bytes@.subrange(0, 0) =~= Seq::<u8>::empty());
                    assert(plans.deep_view() + all_plans(
                        workspace.repo_id@,
                        self.chunk_size(),
                        self.config.max_chunks_per_batch as int,
                        fs.skip(fi as int + 1),
                        plans@.len() as int,
                    ) =~= target);
                }
            } else {
                let mut off: usize = 0;
                while off < content_bytes.len()
                    invariant
                        0 <= off <= content_bytes@.len(),
                        content_bytes@ == file_model.content,
                        chunk_size as int == self.chunk_size(),
                        chunk_size >= 1,
                        fi < fs.len(),
                        fs.skip(fi as int)[0] == file_model,
                        fs.skip(fi as int).drop_first() =~= fs.skip(fi as int + 1),
                        plans.deep_view() + file_plans(
                            workspace.repo_id@,
                            self.chunk_size(),
                            self.config.max_chunks_per_batch as int,
                            file_model.path,
                            file_model.content,
                            off as int,
                            plans@.len() as int,
                        ) + all_plans(
                            workspace.repo_id@,
                            self.chunk_size(),
                            self.config.max_chunks_per_batch as int,
                            fs.skip(fi as int + 1),
                            plans@.len() as int + file_plans(
                                workspace.repo_id@,
                                self.chunk_size(),
                                self.config.max_chunks_per_batch as int,
                                file_model.path,
                                file_model.content,
                                off as int,
                                plans@.len() as int,
                            ).len() as int,
                        ) == target,
                    decreases content_bytes@.len() - off,
                {
                    let end: usize = if chunk_size <= content_bytes.len() - off {
                        off + chunk_size
                    } else {
                        content_bytes.len()
                    };
                    let slice = bytes_subrange(&content_bytes, off, end);
                    let plan = self.build_plan(
                        &workspace.repo_id,
                        chunk_size,
                        &file.path,
                        off,
                        end,
                        &slice,
                        plans.len(),
                    );
                    let ghost before = plans.deep_view();
                    plans.push(plan);
                    proof {
                        lemma_file_plans_unfold(
                            workspace.repo_id@,
                            self.chunk_size(),
                            self.config.max_chunks_per_batch as int,
                            file_model.path,
                            file_model.content,
                            off as int,
                            before.len() as int,
                        );
                        assert(plans.deep_view() =~= before.push(
                            plan_model(
                                workspace.repo_id@,
                                self.chunk_size(),
                                self.config.max_chunks_per_batch as int,
                                file_model.path,
                                off as int,
                                end as int,
                                file_model.content.subrange(off as int, end as int),
                                before.len() as int,
                            ),
                        ));
                    }
                    off = end;
                }
            }
            fi = fi + 1;
        }
        proof {
            assert(fs.skip(fs.len() as int) =~= Seq::<FileModel>::empty());
            assert(plans.deep_view() =~= target);
        }
        if plans.len() > self.config.max_chunks_per_batch {
            plans.truncate(self.config.max_chunks_per_batch);
            proof {
                assert(plans.deep_view() =~= target.take(
                    self.config.max_chunks_per_batch as int,
                ));
            }
        }
        Ok(plans)
    }

    /// Build one plan's strings.
    fn build_plan(
        &self,
        repo_id: &String,
        chunk_size: usize,
        path: &String,
        off: usize,
        end: usize,
        slice: &Vec<u8>,
        idx: usize,
    ) -> (r: ChunkPlan)
        ensures
            r.deep_view() == plan_model(
                repo_id@,
                chunk_size as int,
                self.config.max_chunks_per_batch as int,
                path@,
                off as int,
                end as int,
                slice@,
                idx as int,
            ),
    {
        let mut plan_id: Vec<char> = Vec::new();
        push_str_chars(&mut plan_id, repo_id.as_str());
        push_str_chars(&mut plan_id, "::");
        push_str_chars(&mut plan_id, path.as_str());
        push_str_chars(&mut plan_id, "::");
        push_dec(idx as u64, &mut plan_id);
        let mut chunker: Vec<char> = Vec::new();
        push_str_chars(&mut chunker, "bytes=");
        push_dec(chunk_size as u64, &mut chunker);
        push_str_chars(&mut chunker, ";max=");
        push_dec(self.config.max_chunks_per_batch as u64, &mut chunker);
        let mut span: Vec<char> = Vec::new();
        push_str_chars(&mut span, path.as_str());
        push_str_chars(&mut span, ":");
        push_dec(off as u64, &mut span);
        push_str_chars(&mut span, "-");
        push_dec(end as u64, &mut span);
        let digest = blake3_hash(slice);
        let mut hash: Vec<char> = Vec::new();
        push_hex(&digest, &mut hash);
        let r = ChunkPlan {
            plan_id: chars_to_string(&plan_id),
            repo_id: repo_id.clone(),
            chunker_config: chars_to_string(&chunker),
            source_span: chars_to_string(&span),
            hash: chars_to_string(&hash),
            retry_policy: RetryPolicy { max_attempts: 3, backoff_ms: 1000 },
        };
        proof {
            assert(r.plan_id@ =~= repo_id@ + "::"@ + path@ + "::"@ + dec_of(idx as nat));
            assert(r.chunker_config@ =~= "bytes="@ + dec_of(chunk_size as nat) + ";max="@ + dec_of(
                self.config.max_chunks_per_batch as nat,
            ));
            assert(r.source_span@ =~= path@ + ":"@ + dec_of(off as nat) + "-"@ + dec_of(
                end as nat,
            ));
        }
        r
    }

    /// Accumulate the archives and fail when a populated quota is exceeded.
    #[verifier::loop_isolation(false)]
    fn check_archive_quotas(&self, workspace: &WorkspaceDescriptor) -> (r: Result<
        (),
        PlanningError,
    >)
        ensures
            r is Err <==> self.quota_blocked(workspace),
            r matches Err(e) ==> e == (PlanningError::QuotaExceeded {
                diagnostics: merged_diagnostics(
                    diagnostics_of(
                        self.limits(),
                        fold_samples(archive_tuples(workspace.archives@)),
                    ),
                    self.limits(),
                ),
            }),
    {
        let no_limits = match (
            &self.config.quota_bytes_max,
            &self.config.quota_entries_max,
            &self.config.quota_nesting_max,
        ) {
            (None, None, None) => true,
            _ => false,
        };
        if workspace.archives.len() == 0 && no_limits {
            return Ok(());
        }
        let limits = QuotaLimits {
            bytes_max: self.config.quota_bytes_max,
            entries_max: self.config.quota_entries_max,
            nesting_max: self.config.quota_nesting_max,
            latency_budget_ms: self.config.quota_latency_budget_ms,
        };
        let mut tracker = ArchiveQuotaTracker::new(limits);
        let ghost tuples = archive_tuples(workspace.archives@);
        let mut i: usize = 0;
        while i < workspace.archives.len()
            invariant
                0 <= i <= workspace.archives@.len(),
                tracker.limits == self.limits(),
                tracker.observed == fold_samples(tuples.take(i as int)),
            decreases workspace.archives@.len() - i,
        {
            let archive = &workspace.archives[i];
            let sample = ArchiveSample {
                bytes: archive.bytes,
                entries: archive.entries,
                nesting_depth: archive.nesting_depth,
                max_latency_ms: archive.max_latency_ms,
            };
            tracker.observe(&sample);
            proof {
                assert(tuples.take(i + 1).drop_last() =~= tuples.take(i as int));
                assert(tuples.take(i + 1).last() == tuples[i as int]);
            }
            i = i + 1;
        }
        proof {
            assert(tuples.take(tuples.len() as int) =~= tuples);
        }
        match tracker.check() {
            Ok(()) => Ok(()),
            Err(QuotaError::Exceeded { diagnostics }) => {
                Err(
                    PlanningError::QuotaExceeded {
                        diagnostics: diagnostics.merge_with_limits(tracker.limits()),
                    },
                )
            },
        }
    }
}

/// One unfolding of the per-file plan recursion at an in-range offset.
proof fn lemma_file_plans_unfold(
    repo: Seq<char>,
    chunk_size: int,
    max_batch: int,
    path: Seq<char>,
    content: Seq<u8>,
    off: int,
    idx: int,
)
    requires
        0 <= off < content.len(),
        chunk_size >= 1,
    ensures
        file_plans(repo, chunk_size, max_batch, path, content, off, idx) == seq![
            plan_model(
                repo,
                chunk_size,
                max_batch,
                path,
                off,
                if off + chunk_size <= content.len() {
                    off + chunk_size
                } else {
                    content.len() as int
                },
                content.subrange(
                    off,
                    if off + chunk_size <= content.len() {
                        off + chunk_size
                    } else {
                        content.len() as int
                    },
                ),
                idx,
            ),
        ] + file_plans(
            repo,
            chunk_size,
            max_batch,
            path,
            content,
            if off + chunk_size <= content.len() {
                off + chunk_size
            } else {
                content.len() as int
            },
            idx + 1,
        ),
{
}

/// Sort the files by path with a verified insertion sort.
#[verifier::loop_isolation(false)]
fn sort_workspace_files(files: &Vec<crate::workspace::WorkspaceFile>) -> (r: Vec<
    crate::workspace::WorkspaceFile,
>)
    ensures
        ({
            let models = files@.map_values(
                |f: crate::workspace::WorkspaceFile|
                    FileModel { path: f.path@, content: encode_utf8(f.content@) },
            );
            let sorted = sort_files(models);
            &&& r@.len() == sorted.len()
            &&& forall|k: int|
                0 <= k < sorted.len() ==> (#[trigger] sorted[k]).path == r@[k].path@
                    && sorted[k].content == encode_utf8(r@[k].content@)
        }),
{
    let ghost models = files@.map_values(
        |f: crate::workspace::WorkspaceFile|
            FileModel { path: f.path@, content: encode_utf8(f.content@) },
    );
    let mut out: Vec<crate::workspace::WorkspaceFile> = Vec::new();
    let mut i: usize = 0;
    while i < files.len()
        invariant
            0 <= i <= files@.len(),
            models.len() == files@.len(),
            ({
                let sorted_i = sort_files(models.take(i as int));
                &&& out@.len() == sorted_i.len()
                &&& forall|k: int|
                    0 <= k < sorted_i.len() ==> (#[trigger] sorted_i[k]).path == out@[k].path@
                        && sorted_i[k].content == encode_utf8(out@[k].content@)
            }),
        decreases files@.len() - i,
    {
        let f = files[i].duplicate();
        let ghost fm = models[i as int];
        let ghost pre_sorted = sort_files(models.take(i as int));
        // find the insertion point: first entry with a strictly larger path
        let mut j: usize = 0;
        let mut found = false;
        let fpath = str_to_chars(f.path.as_str());
        while j < out.len() && !found
            invariant
                0 <= j <= out@.len(),
                fpath@ == f.path@,
                forall|k: int| 0 <= k < j ==> !lex_lt(f.path@, (#[trigger] out@[k]).path@),
                found ==> j < out@.len() && lex_lt(f.path@, out@[j as int].path@),
            decreases out@.len() - j + (if found {
                0int
            } else {
                1int
            }),
        {
            let jpath = str_to_chars(out[j].path.as_str());
            if chars_lex_lt(&fpath, &jpath) {
                found = true;
            } else {
                j = j + 1;
            }
        }
        proof {
            assert(models.take(i + 1).drop_last() =~= models.take(i as int));
            assert(models.take(i + 1).last() == models[i as int]);
        }
        let ghost out_pre = out@;
        out.insert(j, f);
        proof {
            assert(out@ == out_pre.insert(j as int, out@[j as int]));
            assert(out@[j as int].path@ == fm.path);
            assert(encode_utf8(out@[j as int].content@) == fm.content);
            assert forall|k: int| 0 <= k < j implies out@[k] == out_pre[k] by {}
            assert forall|k: int| j < k < out@.len() implies out@[k] == out_pre[k - 1] by {}
            assert forall|k: int| 0 <= k < j implies !lex_lt(fm.path, (#[trigger] pre_sorted[k]).path) by {}
            lemma_insert_sorted_at(pre_sorted, fm, j as int, out_pre, out@);
        }
        i = i + 1;
    }
    proof {
        assert(models.take(models.len() as int) =~= models);
    }
    out
}

/// Exec comparison matching `lex_lt`.
fn chars_lex_lt(a: &Vec<char>, b: &Vec<char>) -> (r: bool)
    ensures
        r == lex_lt(a@, b@),
{
    let mut i: usize = 0;
    proof {
        assert(a@.skip(0) =~= a@);
        assert(b@.skip(0) =~= b@);
    }
    loop
        invariant
            0 <= i <= a@.len(),
            i <= b@.len(),
            lex_lt(a@, b@) == lex_lt(a@.skip(i as int), b@.skip(i as int)),
        ensures
            lex_lt(a@, b@) == ({
                if i < a@.len() && i < b@.len() {
                    (a@[i as int] as u32) < (b@[i as int] as u32)
                } else {
                    i >= a@.len() && i < b@.len()
                }
            }),
        decreases a@.len() - i,
    {
        if i >= a.len() || i >= b.len() {
            proof {
                if i >= a@.len() && i < b@.len() {
                    assert(a@.skip(i as int).len() == 0);
                    assert(b@.skip(i as int).len() > 0);
                    assert(lex_lt(a@.skip(i as int), b@.skip(i as int)));
                } else {
                    assert(b@.skip(i as int).len() == 0);
                    assert(!lex_lt(a@.skip(i as int), b@.skip(i as int)));
                }
            }
            break;
        }
        let ca = a[i];
        let cb = b[i];
        if ca != cb {
            proof {
                assert(a@.skip(i as int)[0] == a@[i as int]);
                assert(b@.skip(i as int)[0] == b@[i as int]);
                assert(lex_lt(a@.skip(i as int), b@.skip(i as int)) == ((a@[i as int] as u32) < (
                b@[i as int] as u32)));
            }
            break;
        }
        proof {
            assert(a@.skip(i as int)[0] == b@.skip(i as int)[0]);
            assert(a@.skip(i as int).drop_first() =~= a@.skip(i as int + 1));
            assert(b@.skip(i as int).drop_first() =~= b@.skip(i as int + 1));
        }
        i = i + 1;
    }
    if i < a.len() && i < b.len() {
        (a[i] as u32) < (b[i] as u32)
    } else {
        i >= a.len() && i < b.len()
    }
}

/// Inserting at the first strictly-larger position realizes `insert_sorted`.
proof fn lemma_insert_sorted_at(
    sorted: Seq<FileModel>,
    fm: FileModel,
    j: int,
    out_pre: Seq<crate::workspace::WorkspaceFile>,
    out_post: Seq<crate::workspace::WorkspaceFile>,
)
    requires
        out_pre.len() == sorted.len(),
        forall|k: int|
            0 <= k < sorted.len() ==> (#[trigger] sorted[k]).path == out_pre[k].path@
                && sorted[k].content == encode_utf8(out_pre[k].content@),
        0 <= j <= sorted.len(),
        forall|k: int| 0 <= k < j ==> !lex_lt(fm.path, (#[trigger] sorted[k]).path),
        j < sorted.len() ==> lex_lt(fm.path, sorted[j].path),
        out_post.len() == out_pre.len() + 1,
        out_post[j].path@ == fm.path,
        encode_utf8(out_post[j].content@) == fm.content,
        forall|k: int| 0 <= k < j ==> #[trigger] out_post[k] == out_pre[k],
        forall|k: int| j < k < out_post.len() ==> #[trigger] out_post[k] == out_pre[k - 1],
    ensures
        ({
            let target = insert_sorted(fm, sorted);
            &&& out_post.len() == target.len()
            &&& forall|k: int|
                0 <= k < target.len() ==> (#[trigger] target[k]).path == out_post[k].path@
                    && target[k].content == encode_utf8(out_post[k].content@)
        }),
    decreases sorted.len(),
{
    let target = insert_sorted(fm, sorted);
    if sorted.len() == 0 {
        assert(target == seq![fm]);
    } else if lex_lt(fm.path, sorted[0].path) {
        assert(j == 0) by {
            if j > 0 {
                assert(!lex_lt(fm.path, sorted[0].path));
            }
        }
        assert(target == seq![fm] + sorted);
        assert forall|k: int| 0 <= k < target.len() implies (#[trigger] target[k]).path
            == out_post[k].path@ && target[k].content == encode_utf8(out_post[k].content@) by {
            if k > 0 {
                assert(target[k] == sorted[k - 1]);
                assert(out_post[k] == out_pre[k - 1]);
            }
        }
    } else {
        assert(j >= 1) by {
            if j == 0 {
                assert(lex_lt(fm.path, sorted[0].path));
            }
        }
        assert forall|k: int|
            0 <= k < sorted.drop_first().len() implies (#[trigger] sorted.drop_first()[k]).path
            == out_pre.drop_first()[k].path@ && sorted.drop_first()[k].content == encode_utf8(
            out_pre.drop_first()[k].content@,
        ) by {
            assert(sorted.drop_first()[k] == sorted[k + 1]);
            assert(out_pre.drop_first()[k] == out_pre[k + 1]);
        }
        assert forall|k: int| 0 <= k < j - 1 implies !lex_lt(
            fm.path,
            (#[trigger] sorted.drop_first()[k]).path,
        ) by {
            assert(sorted.drop_first()[k] == sorted[k + 1]);
        }
        assert(j - 1 < sorted.drop_first().len() ==> lex_lt(
            fm.path,
            sorted.drop_first()[j - 1].path,
        )) by {
            if j - 1 < sorted.drop_first().len() {
                assert(sorted.drop_first()[j - 1] == sorted[j as int]);
            }
        }
        assert(out_post.drop_first()[j - 1] == out_post[j]);
        assert forall|k: int| 0 <= k < j - 1 implies #[trigger] out_post.drop_first()[k]
            == out_pre.drop_first()[k] by {
            assert(out_post.drop_first()[k] == out_post[k + 1]);
            assert(out_pre.drop_first()[k] == out_pre[k + 1]);
        }
        assert forall|k: int| j - 1 < k < out_post.drop_first().len() implies
            #[trigger] out_post.drop_first()[k] == out_pre.drop_first()[k - 1] by {
            assert(out_post.drop_first()[k] == out_post[k + 1]);
            assert(out_pre.drop_first()[k - 1] == out_pre[k]);
        }
        lemma_insert_sorted_at(
            sorted.drop_first(),
            fm,
            j - 1,
            out_pre.drop_first(),
            out_post.drop_first(),
        );
        assert(target == seq![sorted[0]] + insert_sorted(fm, sorted.drop_first()));
        let target_rest = insert_sorted(fm, sorted.drop_first());
        assert forall|k: int| 0 <= k < target.len() implies (#[trigger] target[k]).path
            == out_post[k].path@ && target[k].content == encode_utf8(out_post[k].content@) by {
            if k == 0 {
                assert(out_post[0] == out_pre[0]);
            } else {
                assert(target[k] == target_rest[k - 1]);
                assert(out_post.drop_first()[k - 1] == out_post[k]);
            }
        }
    }
}

} // verus!
