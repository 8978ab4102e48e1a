//! Transcript discovery: which sources are asked for files, and what the observations of those
//! files amount to.

use vstd::prelude::*;
use crate::files::{FileTask, SourceKind, TaskModel};
use crate::keys::TextSet;
use crate::outside::{decode_lossy, lossy_text};
use crate::projection::IngestOptions;
use crate::state::{FileIdentity, IdentityModel};

verus! {

/// A source that is asked for files.
#[derive(Clone, Copy, Debug, PartialEq, Eq, Structural)]
pub enum DiscoveryStep {
    /// The configured transcript root with this position.
    Claude(usize),
    CodexRollouts,
    CodexHistory,
    Cursor,
    Pi,
    Omp,
    Openclaw,
    Copilot,
    Grok,
    Jcode,
    Muse,
    Antigravity,
}

/// The steps, if they are taken.
pub open spec fn steps_if(included: bool, steps: Seq<DiscoveryStep>) -> Seq<DiscoveryStep> {
    if included {
        steps
    } else {
        Seq::empty()
    }
}

/// A step for each of the configured roots.
pub open spec fn root_steps(count: nat) -> Seq<DiscoveryStep> {
    Seq::new(count, |i: int| DiscoveryStep::Claude(i as usize))
}

/// The sources that a full scan asks, in this order: every configured root, then each source that
/// is included. A scan of selected files asks none.
pub open spec fn planned_steps(options: IngestOptions, full_scan: bool) -> Seq<DiscoveryStep> {
    if !full_scan {
        Seq::empty()
    } else {
        root_steps(options.claude_sources@.len()) + steps_if(
            options.include_codex,
            seq![DiscoveryStep::CodexRollouts, DiscoveryStep::CodexHistory],
        ) + steps_if(options.include_cursor, seq![DiscoveryStep::Cursor]) + steps_if(
            options.include_pi,
            seq![DiscoveryStep::Pi],
        ) + steps_if(options.include_omp, seq![DiscoveryStep::Omp]) + steps_if(
            options.include_openclaw,
            seq![DiscoveryStep::Openclaw],
        ) + steps_if(options.include_copilot, seq![DiscoveryStep::Copilot]) + steps_if(
            options.include_grok,
            seq![DiscoveryStep::Grok],
        ) + steps_if(options.include_jcode, seq![DiscoveryStep::Jcode]) + steps_if(
            options.include_muse,
            seq![DiscoveryStep::Muse],
        ) + steps_if(options.include_antigravity, seq![DiscoveryStep::Antigravity])
    }
}

fn push_if(steps: &mut Vec<DiscoveryStep>, included: bool, step: DiscoveryStep)
    ensures
        final(steps)@ == old(steps)@ + steps_if(included, seq![step]),
{
    if included {
        steps.push(step);
    }
    assert(steps@ =~= old(steps)@ + steps_if(included, seq![step]));
}

/// Plans which sources are asked for files.
pub fn discovery_steps(options: &IngestOptions, full_scan: bool) -> (steps: Vec<DiscoveryStep>)
    ensures
        steps@ == planned_steps(*options, full_scan),
{
    let mut steps: Vec<DiscoveryStep> = Vec::new();
    if !full_scan {
        return steps;
    }
    let ghost roots = root_steps(options.claude_sources@.len());
    let mut i: usize = 0;
    while i < options.claude_sources.len()
        invariant
            i <= options.claude_sources@.len(),
            roots.len() == options.claude_sources@.len(),
            forall|k: int|
                0 <= k < roots.len() ==> #[trigger] roots[k] == DiscoveryStep::Claude(k as usize),
            steps@ == roots.take(i as int),
        decreases options.claude_sources@.len() - i,
    {
        steps.push(DiscoveryStep::Claude(i));
        assert(steps@ =~= roots.take(i + 1));
        i += 1;
    }
    assert(roots.take(i as int) =~= roots);
    let ghost claude = steps@;
    push_if(&mut steps, options.include_codex, DiscoveryStep::CodexRollouts);
    push_if(&mut steps, options.include_codex, DiscoveryStep::CodexHistory);
    assert(steps@ =~= claude + steps_if(
        options.include_codex,
        seq![DiscoveryStep::CodexRollouts, DiscoveryStep::CodexHistory],
    ));
    push_if(&mut steps, options.include_cursor, DiscoveryStep::Cursor);
    push_if(&mut steps, options.include_pi, DiscoveryStep::Pi);
    push_if(&mut steps, options.include_omp, DiscoveryStep::Omp);
    push_if(&mut steps, options.include_openclaw, DiscoveryStep::Openclaw);
    push_if(&mut steps, options.include_copilot, DiscoveryStep::Copilot);
    push_if(&mut steps, options.include_grok, DiscoveryStep::Grok);
    push_if(&mut steps, options.include_jcode, DiscoveryStep::Jcode);
    push_if(&mut steps, options.include_muse, DiscoveryStep::Muse);
    push_if(&mut steps, options.include_antigravity, DiscoveryStep::Antigravity);
    steps
}

/// The path of the file names its session.
pub open spec fn session_in_path(source: SourceKind, is_history: bool) -> bool {
    source == SourceKind::Codex && !is_history
}

/// Whether a file's session has to be taken from its path: a Codex file that is not a history.
pub fn names_session(source: SourceKind, is_history: bool) -> (result: bool)
    ensures
        result == session_in_path(source, is_history),
        result == (source == SourceKind::Codex && !is_history),
{
    source == SourceKind::Codex && !is_history
}

/// One selected or discovered file: its source, and whether it is a Codex history.
#[derive(Clone, Copy, Debug, PartialEq, Eq, Structural)]
pub struct SelectedFile {
    pub source: SourceKind,
    pub is_history: bool,
}

/// Some selected file is a Codex history.
pub open spec fn history_selected(files: Seq<SelectedFile>) -> bool {
    exists|i: int|
        0 <= i < files.len() && (#[trigger] files[i]).source == SourceKind::Codex
            && files[i].is_history
}

/// Whether the sessions of a selection have to be looked up, because a Codex history is among
/// the selected files.
pub fn needs_session_ids(selected: Option<&Vec<SelectedFile>>) -> (result: bool)
    ensures
        result == (selected matches Some(files) && history_selected(files@)),
{
    match selected {
        None => false,
        Some(files) => {
            let mut i: usize = 0;
            while i < files.len()
                invariant
                    i <= files@.len(),
                    selected == Some(files),
                    forall|k: int|
                        0 <= k < i ==> !((#[trigger] files@[k]).source == SourceKind::Codex
                            && files@[k].is_history),
                decreases files@.len() - i,
            {
                if files[i].source == SourceKind::Codex && files[i].is_history {
                    assert(history_selected(files@));
                    return true;
                }
                i += 1;
            }
            false
        },
    }
}

/// What was found where a file was expected.
pub enum Observed {
    Excluded,
    Missing { session_id: Option<String> },
    File { task: FileTask, skip: bool, session_id: Option<String> },
}

/// The model of [`Observed`].
pub enum ObservedModel {
    Excluded,
    Missing { session_id: Option<Seq<char>> },
    File { task: TaskModel, skip: bool, session_id: Option<Seq<char>> },
}

impl DeepView for Observed {
    type V = ObservedModel;

    open spec fn deep_view(&self) -> ObservedModel {
        match self {
            Observed::Excluded => ObservedModel::Excluded,
            Observed::Missing { session_id } => ObservedModel::Missing {
                session_id: session_id.deep_view(),
            },
            Observed::File { task, skip, session_id } => ObservedModel::File {
                task: task.deep_view(),
                skip: *skip,
                session_id: session_id.deep_view(),
            },
        }
    }
}

/// What discovery found.
pub struct TranscriptDiscovery {
    pub tasks: Vec<FileTask>,
    pub unchanged_identities: Vec<(String, FileIdentity)>,
    pub files_scanned: usize,
    pub files_skipped: usize,
    pub total_bytes: u64,
    pub session_ids: TextSet,
}

/// The model of [`TranscriptDiscovery`].
#[verifier::ext_equal]
pub struct DiscoveryModel {
    pub tasks: Seq<TaskModel>,
    pub unchanged_identities: Seq<(Seq<char>, IdentityModel)>,
    pub files_scanned: nat,
    pub files_skipped: nat,
    pub total_bytes: nat,
    pub session_ids: Set<Seq<char>>,
}

impl DeepView for TranscriptDiscovery {
    type V = DiscoveryModel;

    open spec fn deep_view(&self) -> DiscoveryModel {
        DiscoveryModel {
            tasks: self.tasks.deep_view(),
            unchanged_identities: self.unchanged_identities.deep_view(),
            files_scanned: self.files_scanned as nat,
            files_skipped: self.files_skipped as nat,
            total_bytes: self.total_bytes as nat,
            session_ids: self.session_ids.deep_view(),
        }
    }
}

/// The set with one more session, if there is one.
pub open spec fn with_session(
    sessions: Set<Seq<char>>,
    session_id: Option<Seq<char>>,
) -> Set<Seq<char>> {
    match session_id {
        Some(id) => sessions.insert(id),
        None => sessions,
    }
}

/// What one more observation adds.
pub open spec fn observe_one(before: DiscoveryModel, observed: ObservedModel) -> DiscoveryModel {
    match observed {
        ObservedModel::Excluded => DiscoveryModel {
            files_skipped: before.files_skipped + 1,
            ..before
        },
        ObservedModel::Missing { session_id } => DiscoveryModel {
            files_skipped: before.files_skipped + 1,
            session_ids: with_session(before.session_ids, session_id),
            ..before
        },
        ObservedModel::File { task, skip, session_id } => DiscoveryModel {
            tasks: if skip {
                before.tasks
            } else {
                before.tasks.push(task)
            },
            unchanged_identities: if skip {
                before.unchanged_identities.push((lossy_text(task.path), task.identity))
            } else {
                before.unchanged_identities
            },
            files_scanned: before.files_scanned + 1,
            files_skipped: if skip {
                before.files_skipped + 1
            } else {
                before.files_skipped
            },
            total_bytes: before.total_bytes + task.size as nat,
            session_ids: with_session(before.session_ids, session_id),
        },
    }
}

/// What the observations amount to.
pub open spec fn observe_all(
    observations: Seq<ObservedModel>,
    session_ids: Set<Seq<char>>,
) -> DiscoveryModel
    decreases observations.len(),
{
    if observations.len() == 0 {
        DiscoveryModel {
            tasks: Seq::empty(),
            unchanged_identities: Seq::empty(),
            files_scanned: 0,
            files_skipped: 0,
            total_bytes: 0,
            session_ids,
        }
    } else {
        observe_one(observe_all(observations.drop_last(), session_ids), observations.last())
    }
}

proof fn lemma_observed_prefix(
    observations: Seq<ObservedModel>,
    session_ids: Set<Seq<char>>,
    n: int,
)
    requires
        0 <= n <= observations.len(),
    ensures
        observe_all(observations.take(n), session_ids).total_bytes <= observe_all(
            observations,
            session_ids,
        ).total_bytes,
        observe_all(observations, session_ids).files_scanned <= observations.len(),
        observe_all(observations, session_ids).files_skipped <= observations.len(),
    decreases observations.len(),
{
    if observations.len() > 0 {
        let shorter = observations.drop_last();
        if n < observations.len() {
            lemma_observed_prefix(shorter, session_ids, n);
            assert(shorter.take(n) =~= observations.take(n));
        } else {
            lemma_observed_prefix(shorter, session_ids, shorter.len() as int);
            assert(observations.take(n) =~= observations);
        }
    } else {
        assert(observations.take(n) =~= observations);
    }
}

/// Whether the sizes of all observed files together fit into a machine integer.
pub fn sizes_fit(observations: &Vec<Observed>, session_ids: &TextSet) -> (result: bool)
    ensures
        result == (observe_all(observations.deep_view(), session_ids.deep_view()).total_bytes
            <= u64::MAX),
{
    let ghost models = observations.deep_view();
    let ghost initial = session_ids.deep_view();
    let mut total: u64 = 0;
    let mut i: usize = 0;
    assert(models.take(0) =~= Seq::empty());
    while i < observations.len()
        invariant
            i <= observations@.len(),
            models == observations.deep_view(),
            initial == session_ids.deep_view(),
            total == observe_all(models.take(i as int), initial).total_bytes,
        decreases observations@.len() - i,
    {
        let ghost next = models.take(i + 1);
        proof {
            assert(next.drop_last() =~= models.take(i as int));
            assert(next.last() == observations@[i as int].deep_view());
            lemma_observed_prefix(models, initial, i + 1);
        }
        if let Observed::File { task, .. } = &observations[i] {
            match total.checked_add(task.size) {
                Some(sum) => {
                    total = sum;
                },
                None => {
                    return false;
                },
            }
        }
        i += 1;
    }
    assert(models.take(i as int) =~= models);
    true
}

/// Adds the observations up. The sizes of all files together must fit into a machine integer.
pub fn summarize(observations: Vec<Observed>, session_ids: TextSet) -> (found: TranscriptDiscovery)
    requires
        observe_all(observations.deep_view(), session_ids.deep_view()).total_bytes <= u64::MAX,
    ensures
        found.deep_view() == observe_all(observations.deep_view(), session_ids.deep_view()),
{
    let ghost models = observations.deep_view();
    let ghost initial = session_ids.deep_view();
    let count = observations.len();
    let mut tasks: Vec<FileTask> = Vec::new();
    let mut unchanged_identities: Vec<(String, FileIdentity)> = Vec::new();
    let mut files_scanned: usize = 0;
    let mut files_skipped: usize = 0;
    let mut total_bytes: u64 = 0;
    let mut session_ids = session_ids;
    proof {
        assert(models.take(0) =~= Seq::empty());
        assert(tasks.deep_view() =~= Seq::empty());
        assert(unchanged_identities.deep_view() =~= Seq::empty());
    }
    for observation in iter: observations
        invariant
            count == models.len(),
            iter.seq().len() == models.len(),
            forall|k: int|
                0 <= k < models.len() ==> #[trigger] models[k] == iter.seq()[k].deep_view(),
            observe_all(models, initial).total_bytes <= u64::MAX,
            ({
                let so_far = observe_all(models.take(iter.index() as int), initial);
                &&& tasks.deep_view() == so_far.tasks
                &&& unchanged_identities.deep_view() == so_far.unchanged_identities
                &&& files_scanned == so_far.files_scanned
                &&& files_skipped == so_far.files_skipped
                &&& total_bytes == so_far.total_bytes
                &&& session_ids.deep_view() == so_far.session_ids
            }),
    {
        let ghost index = iter.index() as int;
        let ghost so_far = observe_all(models.take(index), initial);
        let ghost next = observe_all(models.take(index + 1), initial);
        proof {
            assert(models[index] == observation.deep_view());
            assert(models.take(index + 1).drop_last() =~= models.take(index));
            assert(models.take(index + 1).last() == models[index]);
            lemma_observed_prefix(models, initial, index + 1);
            lemma_observed_prefix(models.take(index), initial, index);
        }
        match observation {
            Observed::Excluded => {
                files_skipped += 1;
            },
            Observed::Missing { session_id } => {
                if let Some(id) = session_id {
                    session_ids.insert(id);
                }
                files_skipped += 1;
            },
            Observed::File { task, skip, session_id } => {
                if let Some(id) = session_id {
                    session_ids.insert(id);
                }
                files_scanned += 1;
                total_bytes += task.size;
                if skip {
                    files_skipped += 1;
                    let key = decode_lossy(task.path.bytes().as_slice());
                    let ghost entry = (key@, task.identity.deep_view());
                    unchanged_identities.push((key, task.identity));
                    assert(unchanged_identities.deep_view()
                        =~= so_far.unchanged_identities.push(entry));
                } else {
                    let ghost model = task.deep_view();
                    tasks.push(task);
                    assert(tasks.deep_view() =~= so_far.tasks.push(model));
                }
            },
        }
    }
    assert(models.take(models.len() as int) =~= models);
    TranscriptDiscovery {
        tasks,
        unchanged_identities,
        files_scanned,
        files_skipped,
        total_bytes,
        session_ids,
    }
}

/// Every observation is accounted for: a file is scanned or was skipped without being scanned,
/// and every scanned file either becomes a task or keeps its identity.
pub proof fn law_every_observation_counts(
    observations: Seq<ObservedModel>,
    session_ids: Set<Seq<char>>,
)
    ensures
        ({
            let found = observe_all(observations, session_ids);
            &&& found.tasks.len() + found.files_skipped == observations.len()
            &&& found.tasks.len() + found.unchanged_identities.len() == found.files_scanned
            &&& session_ids.subset_of(found.session_ids)
        }),
    decreases observations.len(),
{
    if observations.len() > 0 {
        law_every_observation_counts(observations.drop_last(), session_ids);
    }
}

proof fn lemma_steps_behind(
    before: Seq<DiscoveryStep>,
    included: bool,
    more: Seq<DiscoveryStep>,
    step: DiscoveryStep,
)
    ensures
        (before + steps_if(included, more)).contains(step) == (before.contains(step) || (included
            && more.contains(step))),
{
    let both = before + steps_if(included, more);
    if before.contains(step) {
        let i = choose|i: int| 0 <= i < before.len() && before[i] == step;
        assert(both[i] == step);
    }
    if included && more.contains(step) {
        let i = choose|i: int| 0 <= i < more.len() && more[i] == step;
        assert(both[before.len() + i] == step);
    }
    if both.contains(step) {
        let i = choose|i: int| 0 <= i < both.len() && both[i] == step;
        if i >= before.len() {
            assert(more[i - before.len()] == step);
        }
    }
}

#[verifier::opaque]
spec fn has(steps: Seq<DiscoveryStep>, step: DiscoveryStep) -> bool {
    steps.contains(step)
}

proof fn lemma_has(steps: Seq<DiscoveryStep>, step: DiscoveryStep)
    ensures
        has(steps, step) == steps.contains(step),
{
    reveal(has);
}

proof fn lemma_first_steps(options: IngestOptions, step: DiscoveryStep)
    requires
        options.claude_sources@.len() <= usize::MAX,
    ensures
        has(
            root_steps(options.claude_sources@.len()) + steps_if(
                options.include_codex,
                seq![DiscoveryStep::CodexRollouts, DiscoveryStep::CodexHistory],
            ),
            step,
        ) <==> match step {
            DiscoveryStep::Claude(i) => i < options.claude_sources@.len(),
            DiscoveryStep::CodexRollouts => options.include_codex,
            DiscoveryStep::CodexHistory => options.include_codex,
            _ => false,
        },
{
    let s0 = root_steps(options.claude_sources@.len());
    if let DiscoveryStep::Claude(i) = step {
        if i < options.claude_sources@.len() {
            assert(s0[i as int] == step);
        }
    }
    let codex = seq![DiscoveryStep::CodexRollouts, DiscoveryStep::CodexHistory];
    assert(codex[0] == DiscoveryStep::CodexRollouts && codex[1] == DiscoveryStep::CodexHistory);
    lemma_steps_behind(s0, options.include_codex, codex, step);
    lemma_has(s0 + steps_if(options.include_codex, codex), step);
}

proof fn lemma_planned_steps(options: IngestOptions, step: DiscoveryStep)
    requires
        options.claude_sources@.len() <= usize::MAX,
    ensures
        has(planned_steps(options, true), step) <==> match step {
            DiscoveryStep::Claude(i) => i < options.claude_sources@.len(),
            DiscoveryStep::CodexRollouts => options.include_codex,
            DiscoveryStep::CodexHistory => options.include_codex,
            DiscoveryStep::Cursor => options.include_cursor,
            DiscoveryStep::Pi => options.include_pi,
            DiscoveryStep::Omp => options.include_omp,
            DiscoveryStep::Openclaw => options.include_openclaw,
            DiscoveryStep::Copilot => options.include_copilot,
            DiscoveryStep::Grok => options.include_grok,
            DiscoveryStep::Jcode => options.include_jcode,
            DiscoveryStep::Muse => options.include_muse,
            DiscoveryStep::Antigravity => options.include_antigravity,
        },
{
    lemma_first_steps(options, step);
    let s1 = root_steps(options.claude_sources@.len()) + steps_if(
        options.include_codex,
        seq![DiscoveryStep::CodexRollouts, DiscoveryStep::CodexHistory],
    );
    lemma_one_step_behind(s1, options.include_cursor, DiscoveryStep::Cursor, step);
    let s2 = s1 + steps_if(options.include_cursor, seq![DiscoveryStep::Cursor]);
    lemma_one_step_behind(s2, options.include_pi, DiscoveryStep::Pi, step);
    let s3 = s2 + steps_if(options.include_pi, seq![DiscoveryStep::Pi]);
    lemma_one_step_behind(s3, options.include_omp, DiscoveryStep::Omp, step);
    let s4 = s3 + steps_if(options.include_omp, seq![DiscoveryStep::Omp]);
    lemma_one_step_behind(s4, options.include_openclaw, DiscoveryStep::Openclaw, step);
    let s5 = s4 + steps_if(options.include_openclaw, seq![DiscoveryStep::Openclaw]);
    lemma_one_step_behind(s5, options.include_copilot, DiscoveryStep::Copilot, step);
    let s6 = s5 + steps_if(options.include_copilot, seq![DiscoveryStep::Copilot]);
    lemma_one_step_behind(s6, options.include_grok, DiscoveryStep::Grok, step);
    let s7 = s6 + steps_if(options.include_grok, seq![DiscoveryStep::Grok]);
    lemma_one_step_behind(s7, options.include_jcode, DiscoveryStep::Jcode, step);
    let s8 = s7 + steps_if(options.include_jcode, seq![DiscoveryStep::Jcode]);
    lemma_one_step_behind(s8, options.include_muse, DiscoveryStep::Muse, step);
    let s9 = s8 + steps_if(options.include_muse, seq![DiscoveryStep::Muse]);
    lemma_one_step_behind(s9, options.include_antigravity, DiscoveryStep::Antigravity, step);
}

proof fn lemma_one_step_behind(
    before: Seq<DiscoveryStep>,
    included: bool,
    last: DiscoveryStep,
    step: DiscoveryStep,
)
    ensures
        has(before + steps_if(included, seq![last]), step) == (has(before, step) || (included
            && step == last)),
{
    lemma_steps_behind(before, included, seq![last], step);
    assert(seq![last][0] == last);
    lemma_has(before, step);
    lemma_has(before + steps_if(included, seq![last]), step);
}

/// A full scan looks for the transcripts of a source exactly if the option of that source is
/// set, and those of the configured roots in each of them. Codex has rollouts and a history. A
/// scan of reported changes looks for nothing.
pub proof fn law_enabled_sources_are_discovered(options: IngestOptions, i: usize, step: DiscoveryStep)
    requires
        options.claude_sources@.len() <= usize::MAX,
    ensures
        ({
            let steps = planned_steps(options, true);
            &&& steps.contains(DiscoveryStep::Claude(i)) <==> i < options.claude_sources@.len()
            &&& steps.contains(DiscoveryStep::CodexRollouts) <==> options.include_codex
            &&& steps.contains(DiscoveryStep::CodexHistory) <==> options.include_codex
            &&& steps.contains(DiscoveryStep::Cursor) <==> options.include_cursor
            &&& steps.contains(DiscoveryStep::Pi) <==> options.include_pi
            &&& steps.contains(DiscoveryStep::Omp) <==> options.include_omp
            &&& steps.contains(DiscoveryStep::Openclaw) <==> options.include_openclaw
            &&& steps.contains(DiscoveryStep::Copilot) <==> options.include_copilot
            &&& steps.contains(DiscoveryStep::Grok) <==> options.include_grok
            &&& steps.contains(DiscoveryStep::Jcode) <==> options.include_jcode
            &&& steps.contains(DiscoveryStep::Muse) <==> options.include_muse
            &&& steps.contains(DiscoveryStep::Antigravity) <==> options.include_antigravity
            &&& !planned_steps(options, false).contains(step)
        }),
{
    lemma_planned_steps(options, DiscoveryStep::Claude(i));
    lemma_has(planned_steps(options, true), DiscoveryStep::Claude(i));
    lemma_planned_steps(options, DiscoveryStep::CodexRollouts);
    lemma_has(planned_steps(options, true), DiscoveryStep::CodexRollouts);
    lemma_planned_steps(options, DiscoveryStep::CodexHistory);
    lemma_has(planned_steps(options, true), DiscoveryStep::CodexHistory);
    lemma_planned_steps(options, DiscoveryStep::Cursor);
    lemma_has(planned_steps(options, true), DiscoveryStep::Cursor);
    lemma_planned_steps(options, DiscoveryStep::Pi);
    lemma_has(planned_steps(options, true), DiscoveryStep::Pi);
    lemma_planned_steps(options, DiscoveryStep::Omp);
    lemma_has(planned_steps(options, true), DiscoveryStep::Omp);
    lemma_planned_steps(options, DiscoveryStep::Openclaw);
    lemma_has(planned_steps(options, true), DiscoveryStep::Openclaw);
    lemma_planned_steps(options, DiscoveryStep::Copilot);
    lemma_has(planned_steps(options, true), DiscoveryStep::Copilot);
    lemma_planned_steps(options, DiscoveryStep::Grok);
    lemma_has(planned_steps(options, true), DiscoveryStep::Grok);
    lemma_planned_steps(options, DiscoveryStep::Jcode);
    lemma_has(planned_steps(options, true), DiscoveryStep::Jcode);
    lemma_planned_steps(options, DiscoveryStep::Muse);
    lemma_has(planned_steps(options, true), DiscoveryStep::Muse);
    lemma_planned_steps(options, DiscoveryStep::Antigravity);
    lemma_has(planned_steps(options, true), DiscoveryStep::Antigravity);
}

/// Where a step stands among all, behind the given number of configured roots.
pub open spec fn turn(step: DiscoveryStep, directories: int) -> int {
    match step {
        DiscoveryStep::Claude(i) => i as int,
        DiscoveryStep::CodexRollouts => directories,
        DiscoveryStep::CodexHistory => directories + 1,
        DiscoveryStep::Cursor => directories + 2,
        DiscoveryStep::Pi => directories + 3,
        DiscoveryStep::Omp => directories + 4,
        DiscoveryStep::Openclaw => directories + 5,
        DiscoveryStep::Copilot => directories + 6,
        DiscoveryStep::Grok => directories + 7,
        DiscoveryStep::Jcode => directories + 8,
        DiscoveryStep::Muse => directories + 9,
        DiscoveryStep::Antigravity => directories + 10,
    }
}

#[verifier::opaque]
spec fn in_turn(steps: Seq<DiscoveryStep>, directories: int, bound: int) -> bool {
    &&& forall|i: int, j: int|
        0 <= i < j < steps.len() ==> turn(#[trigger] steps[i], directories) < turn(
            #[trigger] steps[j],
            directories,
        )
    &&& forall|i: int| 0 <= i < steps.len() ==> turn(#[trigger] steps[i], directories) < bound
}

proof fn lemma_next_turn(
    before: Seq<DiscoveryStep>,
    included: bool,
    last: DiscoveryStep,
    directories: int,
)
    requires
        in_turn(before, directories, turn(last, directories)),
    ensures
        in_turn(before + steps_if(included, seq![last]), directories, turn(last, directories) + 1),
{
    reveal(in_turn);
}

proof fn lemma_first_turns(options: IngestOptions)
    requires
        options.claude_sources@.len() <= usize::MAX,
    ensures
        in_turn(
            root_steps(options.claude_sources@.len()) + steps_if(
                options.include_codex,
                seq![DiscoveryStep::CodexRollouts, DiscoveryStep::CodexHistory],
            ),
            options.claude_sources@.len() as int,
            options.claude_sources@.len() as int + 2,
        ),
{
    reveal(in_turn);
}

proof fn lemma_turns(steps: Seq<DiscoveryStep>, directories: int, bound: int, i: int, j: int)
    requires
        in_turn(steps, directories, bound),
        0 <= i < j < steps.len(),
    ensures
        turn(steps[i], directories) < turn(steps[j], directories),
{
    reveal(in_turn);
}

proof fn lemma_planned_turns(options: IngestOptions)
    requires
        options.claude_sources@.len() <= usize::MAX,
    ensures
        in_turn(
            planned_steps(options, true),
            options.claude_sources@.len() as int,
            options.claude_sources@.len() as int + 11,
        ),
{
    let n = options.claude_sources@.len() as int;
    let s1 = root_steps(options.claude_sources@.len()) + steps_if(
        options.include_codex,
        seq![DiscoveryStep::CodexRollouts, DiscoveryStep::CodexHistory],
    );
    lemma_first_turns(options);
    lemma_next_turn(s1, options.include_cursor, DiscoveryStep::Cursor, n);
    let s2 = s1 + steps_if(options.include_cursor, seq![DiscoveryStep::Cursor]);
    lemma_next_turn(s2, options.include_pi, DiscoveryStep::Pi, n);
    let s3 = s2 + steps_if(options.include_pi, seq![DiscoveryStep::Pi]);
    lemma_next_turn(s3, options.include_omp, DiscoveryStep::Omp, n);
    let s4 = s3 + steps_if(options.include_omp, seq![DiscoveryStep::Omp]);
    lemma_next_turn(s4, options.include_openclaw, DiscoveryStep::Openclaw, n);
    let s5 = s4 + steps_if(options.include_openclaw, seq![DiscoveryStep::Openclaw]);
    lemma_next_turn(s5, options.include_copilot, DiscoveryStep::Copilot, n);
    let s6 = s5 + steps_if(options.include_copilot, seq![DiscoveryStep::Copilot]);
    lemma_next_turn(s6, options.include_grok, DiscoveryStep::Grok, n);
    let s7 = s6 + steps_if(options.include_grok, seq![DiscoveryStep::Grok]);
    lemma_next_turn(s7, options.include_jcode, DiscoveryStep::Jcode, n);
    let s8 = s7 + steps_if(options.include_jcode, seq![DiscoveryStep::Jcode]);
    lemma_next_turn(s8, options.include_muse, DiscoveryStep::Muse, n);
    let s9 = s8 + steps_if(options.include_muse, seq![DiscoveryStep::Muse]);
    lemma_next_turn(s9, options.include_antigravity, DiscoveryStep::Antigravity, n);
}

/// Each step is taken in its turn, and none twice: the configured roots in their order,
/// then the rollouts and the history of Codex, then the other sources.
pub proof fn law_sources_are_discovered_in_turn(options: IngestOptions, i: int, j: int)
    requires
        options.claude_sources@.len() <= usize::MAX,
        0 <= i < j < planned_steps(options, true).len(),
    ensures
        turn(planned_steps(options, true)[i], options.claude_sources@.len() as int) < turn(
            planned_steps(options, true)[j],
            options.claude_sources@.len() as int,
        ),
{
    let n = options.claude_sources@.len() as int;
    lemma_planned_turns(options);
    lemma_turns(planned_steps(options, true), n, n + 11, i, j);
}

/// What is kept of the observations: the tasks of the files that have something to do, the
/// identities of those that have not, the number and the bytes of all files, how many
/// observations led to no task, and every session that was named, all in their order.
pub proof fn law_observations_are_summed_up(
    observations: Seq<ObservedModel>,
    session_ids: Set<Seq<char>>,
    id: Seq<char>,
)
    ensures
        ({
            let found = observe_all(observations, session_ids);
            &&& found.tasks == observations.filter(
                |o: ObservedModel| o is File && !o->skip,
            ).map_values(|o: ObservedModel| o->task)
            &&& found.unchanged_identities == observations.filter(
                |o: ObservedModel| o is File && o->skip,
            ).map_values(|o: ObservedModel| (lossy_text(o->task.path), o->task.identity))
            &&& found.files_scanned == observations.filter(|o: ObservedModel| o is File).len()
            &&& found.files_skipped == observations.filter(
                |o: ObservedModel| !(o is File) || o->skip,
            ).len()
            &&& found.total_bytes == observations.fold_left(
                0int,
                |total: int, o: ObservedModel|
                    if o is File {
                        total + o->task.size
                    } else {
                        total
                    },
            )
            &&& found.session_ids.contains(id) <==> session_ids.contains(id) || exists|i: int|
                0 <= i < observations.len() && match #[trigger] observations[i] {
                    ObservedModel::Excluded => false,
                    ObservedModel::Missing { session_id } => session_id == Some(id),
                    ObservedModel::File { task: _, skip: _, session_id } => session_id == Some(id),
                }
        }),
    decreases observations.len(),
{
    reveal(Seq::filter);
    reveal(Seq::fold_left);
    let changed = |o: ObservedModel| o is File && !o->skip;
    let same = |o: ObservedModel| o is File && o->skip;
    let task_of = |o: ObservedModel| o->task;
    let identity_of = |o: ObservedModel| (lossy_text(o->task.path), o->task.identity);
    let found = observe_all(observations, session_ids);
    if observations.len() > 0 {
        let rest = observations.drop_last();
        let last = observations.last();
        law_observations_are_summed_up(rest, session_ids, id);
        let before = observe_all(rest, session_ids);
        assert(rest.filter(changed).push(last).map_values(task_of) =~= rest.filter(
            changed,
        ).map_values(task_of).push(task_of(last)));
        assert(rest.filter(same).push(last).map_values(identity_of) =~= rest.filter(
            same,
        ).map_values(identity_of).push(identity_of(last)));
        assert(observations[observations.len() - 1] == last);
        assert(forall|i: int| 0 <= i < rest.len() ==> rest[i] == observations[i]);
        if before.session_ids.contains(id) && !session_ids.contains(id) {
            let i = choose|i: int|
                0 <= i < rest.len() && match #[trigger] rest[i] {
                    ObservedModel::Excluded => false,
                    ObservedModel::Missing { session_id } => session_id == Some(id),
                    ObservedModel::File { task: _, skip: _, session_id } => session_id == Some(id),
                };
            assert(observations[i] == rest[i]);
        }
    } else {
        assert(found.tasks =~= observations.filter(changed).map_values(task_of));
        assert(found.unchanged_identities =~= observations.filter(same).map_values(identity_of));
    }
}

/// The session ids on record are needed exactly if some selected file is a history of Codex.
pub proof fn law_histories_need_session_ids(files: Seq<SelectedFile>, i: int)
    ensures
        0 <= i < files.len() && files[i].source == SourceKind::Codex && files[i].is_history
            ==> history_selected(files),
        (forall|k: int|
            0 <= k < files.len() ==> (#[trigger] files[k]).source != SourceKind::Codex
                || !files[k].is_history) ==> !history_selected(files),
{
}

/// Only a rollout of Codex names its session in its path, not a history and no other source.
pub proof fn law_rollouts_name_their_session(source: SourceKind, is_history: bool)
    ensures
        session_in_path(source, is_history) ==> source == SourceKind::Codex && !is_history,
        session_in_path(SourceKind::Codex, false),
{
}

} // verus!
