//! The mathematical model of the dispatcher: which contexts are active, which
//! lock scopes are open, and at what priority the processor runs.
//!
//! A *context* is the idle task or one invocation of an interrupt task.
//! Contexts nest: the idle task is context `0`, and context `c > 0` is the
//! task invocation that preempted context `c - 1`. The running context is
//! the innermost one. Lock scopes nest in the same way, and every scope
//! belongs to the context that opened it.
//!
//! The invariant [`Model::inv`] holds in every state that the dispatcher can
//! reach. The laws at the end of the file follow from it: a cell that a
//! preempted context holds is out of reach of every context that runs above
//! it, so no context ever meets shared state in the middle of another's
//! update.

use vstd::prelude::*;

verus! {

/// What the model knows of an interrupt task: its priority and the cells it
/// may claim.
pub struct TaskModel {
    pub priority: u8,
    pub resources: Seq<usize>,
}

/// The static part of a system: the ceiling of every resource cell and the
/// table of interrupt tasks, indexed by interrupt source.
pub struct Config {
    pub ceilings: Seq<u8>,
    pub tasks: Seq<TaskModel>,
}

/// A mistake in the configuration of a system.
#[derive(Clone, Copy, Debug, PartialEq, Eq, Structural)]
pub enum ConfigError {
    /// The task names a resource cell that was not declared.
    UnknownResource { task: usize, resource: usize },
    /// The task has a higher priority than the ceiling of a cell it names.
    CeilingTooLow { task: usize, resource: usize },
}

impl Config {
    /// Whether entry `k` of the resource list of task `t` breaks a rule: it
    /// names no declared cell, or a cell whose ceiling lies below the
    /// priority of the task.
    pub open spec fn offends(self, t: int, k: int) -> bool {
        &&& 0 <= t < self.tasks.len()
        &&& 0 <= k < self.tasks[t].resources.len()
        &&& {
            let r = self.tasks[t].resources[k];
            r >= self.ceilings.len() || self.ceilings[r as int] < self.tasks[t].priority
        }
    }

    /// The ceiling rule: every cell that a task names is declared, and its
    /// ceiling is at least the priority of the task.
    pub open spec fn valid(self) -> bool {
        forall|t: int, k: int| !self.offends(t, k)
    }

    /// Whether `(t, k)` is the first offending entry, going through the
    /// tasks in table order and through each resource list from its start.
    pub open spec fn first_offence(self, t: int, k: int) -> bool {
        &&& self.offends(t, k)
        &&& forall|u: int, j: int| (u < t || (u == t && j < k)) ==> !self.offends(u, j)
    }

    /// The error that an offending entry stands for.
    pub open spec fn error_at(self, t: int, k: int) -> ConfigError {
        let r = self.tasks[t].resources[k];
        if r >= self.ceilings.len() {
            ConfigError::UnknownResource { task: t as usize, resource: r }
        } else {
            ConfigError::CeilingTooLow { task: t as usize, resource: r }
        }
    }
}

/// One active invocation of an interrupt task.
#[derive(Clone, Copy, Debug, PartialEq, Eq, Structural)]
pub struct Frame {
    /// The interrupt source whose task runs.
    pub task: usize,
    /// The priority at which the preempted context ran, to which the
    /// processor returns when the task completes.
    pub resume: u8,
    /// How many lock scopes were open when the task started. They belong to
    /// the contexts below.
    pub mark: usize,
}

/// One open lock scope.
pub struct ScopeModel {
    /// The cells that the scope holds.
    pub resources: Seq<usize>,
    /// The priority before the claim, restored when the scope closes.
    pub prior: u8,
    /// The priority inside the scope.
    pub level: u8,
}

/// The priority reached from `from` by raising it to the ceiling of each of
/// the cells `ids` in turn.
pub open spec fn raised(ceilings: Seq<u8>, ids: Seq<usize>, from: u8) -> u8
    decreases ids.len(),
{
    if ids.len() == 0 {
        from
    } else {
        let below = raised(ceilings, ids.drop_last(), from);
        let ceiling = ceilings[ids.last() as int];
        if ceiling > below {
            ceiling
        } else {
            below
        }
    }
}

/// Whether `ids` names some cell twice.
pub open spec fn repeats(ids: Seq<usize>) -> bool {
    exists|i: int, k: int| 0 <= i < k < ids.len() && ids[i] == ids[k]
}

/// The state of the dispatcher.
pub struct Model {
    pub config: Config,
    /// For every interrupt source, whether an event waits to be served.
    pub pending: Seq<bool>,
    /// The active task invocations, outermost first.
    pub frames: Seq<Frame>,
    /// The open lock scopes, oldest first.
    pub scopes: Seq<ScopeModel>,
    /// The priority at which the processor runs: tasks at or below it are
    /// masked.
    pub threshold: u8,
    /// Whether interrupts are enabled at all.
    pub enabled: bool,
}

impl Model {
    /// The state in which a system with `config` comes up: interrupts
    /// disabled, nothing pending, the idle task running at priority zero.
    pub open spec fn boot(config: Config) -> Model {
        Model {
            config,
            pending: Seq::new(config.tasks.len(), |t: int| false),
            frames: Seq::empty(),
            scopes: Seq::empty(),
            threshold: 0,
            enabled: false,
        }
    }

    /// The number of the running context: `0` while the idle task runs.
    pub open spec fn depth(self) -> int {
        self.frames.len() as int
    }

    /// The interrupt source whose task runs, or `None` while the idle task
    /// runs.
    pub open spec fn running(self) -> Option<usize> {
        if self.frames.len() == 0 {
            None
        } else {
            Some(self.frames.last().task)
        }
    }

    /// The priority of a task.
    pub open spec fn priority(self, t: int) -> u8 {
        self.config.tasks[t].priority
    }

    /// The priority that context `c` was started with: zero for the idle
    /// task.
    pub open spec fn base(self, c: int) -> u8 {
        if c <= 0 {
            0
        } else {
            self.priority(self.frames[c - 1].task as int)
        }
    }

    /// Whether context `c` may claim cell `r`: the idle task may claim every
    /// declared cell, a task the cells of its resource list.
    pub open spec fn declares(self, c: int, r: usize) -> bool {
        if c <= 0 {
            r < self.config.ceilings.len()
        } else {
            self.config.tasks[self.frames[c - 1].task as int].resources.contains(r)
        }
    }

    /// The index of the first lock scope that context `c` or a context above
    /// it opened.
    pub open spec fn first_scope(self, c: int) -> int {
        if c <= 0 {
            0
        } else {
            self.frames[c - 1].mark as int
        }
    }

    /// The index behind the last lock scope of context `c`.
    pub open spec fn end_scope(self, c: int) -> int {
        if c >= self.depth() {
            self.scopes.len() as int
        } else {
            self.frames[c].mark as int
        }
    }

    /// Whether some open lock scope holds cell `r`.
    pub open spec fn held(self, r: usize) -> bool {
        exists|j: int| 0 <= j < self.scopes.len() && #[trigger] self.scopes[j].resources.contains(r)
    }

    /// Whether a lock scope of context `c` holds cell `r`.
    pub open spec fn holds(self, c: int, r: usize) -> bool {
        exists|j: int|
            self.first_scope(c) <= j < self.end_scope(c) && 0 <= j < self.scopes.len()
                && #[trigger] self.scopes[j].resources.contains(r)
    }

    /// Whether the running context has a lock scope open.
    pub open spec fn has_open_scope(self) -> bool {
        self.scopes.len() > self.first_scope(self.depth())
    }

    /// Whether the task of interrupt source `t` is active: running, or
    /// preempted by a task of higher priority.
    pub open spec fn active(self, t: usize) -> bool {
        exists|f: int| 0 <= f < self.frames.len() && #[trigger] self.frames[f].task == t
    }

    /// Whether a claim of `ids` is refused: one of the cells is held
    /// already, or the claim names a cell twice.
    pub open spec fn blocked(self, ids: Seq<usize>) -> bool {
        ||| exists|i: int| 0 <= i < ids.len() && self.held(#[trigger] ids[i])
        ||| repeats(ids)
    }

    /// Whether `t` is the pending task that the interrupt controller serves
    /// first: none that is pending has a higher priority, and among those
    /// of its priority it has the lowest source number.
    pub open spec fn is_next(self, t: int) -> bool {
        &&& 0 <= t < self.pending.len()
        &&& self.pending[t]
        &&& forall|u: int|
            0 <= u < self.pending.len() && #[trigger] self.pending[u] ==> {
                ||| self.priority(u) < self.priority(t)
                ||| self.priority(u) == self.priority(t) && t <= u
            }
    }

    /// Whether a task can preempt the running context now.
    pub open spec fn can_preempt(self) -> bool {
        self.enabled && exists|t: int| self.is_next(t) && self.priority(t) > self.threshold
    }

    /// The state after interrupts were enabled.
    pub open spec fn unmasked(self) -> Model {
        Model { enabled: true, ..self }
    }

    /// The state after an event of interrupt source `source` arrived. The
    /// event is latched; an event of a source without a task is dropped.
    pub open spec fn fired(self, source: usize) -> Model {
        if source < self.pending.len() {
            Model { pending: self.pending.update(source as int, true), ..self }
        } else {
            self
        }
    }

    /// The state after the task of source `t` preempted the running
    /// context.
    pub open spec fn started(self, t: usize) -> Model {
        Model {
            pending: self.pending.update(t as int, false),
            frames: self.frames.push(
                Frame { task: t, resume: self.threshold, mark: self.scopes.len() as usize },
            ),
            threshold: self.priority(t as int),
            ..self
        }
    }

    /// The state after the running task completed: its lock scopes are
    /// closed and the preempted context resumes at its priority.
    pub open spec fn completed(self) -> Model {
        let top = self.frames.last();
        Model {
            frames: self.frames.drop_last(),
            scopes: self.scopes.take(top.mark as int),
            threshold: top.resume,
            ..self
        }
    }

    /// The lock scope that a claim of `ids` opens.
    pub open spec fn scope_for(self, ids: Seq<usize>) -> ScopeModel {
        ScopeModel {
            resources: ids,
            prior: self.threshold,
            level: raised(self.config.ceilings, ids, self.threshold),
        }
    }

    /// The state after the running context claimed `ids`.
    pub open spec fn claimed(self, ids: Seq<usize>) -> Model {
        Model {
            scopes: self.scopes.push(self.scope_for(ids)),
            threshold: self.scope_for(ids).level,
            ..self
        }
    }

    /// The state after the running context closed its innermost lock scope.
    pub open spec fn released(self) -> Model {
        Model { scopes: self.scopes.drop_last(), threshold: self.scopes.last().prior, ..self }
    }

    /// The frames are well formed: each names a task and lies above the
    /// scopes that were open when it started, each task preempted a context
    /// of lower priority, and priorities grow strictly from frame to frame.
    /// No task is active while interrupts are disabled.
    pub open spec fn frames_inv(self) -> bool {
        &&& forall|f: int|
            0 <= f < self.frames.len() ==> {
                &&& (#[trigger] self.frames[f]).task < self.config.tasks.len()
                &&& self.frames[f].mark <= self.scopes.len()
                &&& self.frames[f].resume < self.priority(self.frames[f].task as int)
            }
        &&& forall|f: int, g: int|
            0 <= f < g < self.frames.len() ==> {
                &&& (#[trigger] self.frames[f]).mark <= (#[trigger] self.frames[g]).mark
                &&& self.priority(self.frames[f].task as int) <= self.frames[g].resume
            }
        &&& self.base(self.depth()) <= self.threshold
        &&& self.frames.len() > 0 ==> self.enabled
    }

    /// The scopes are well formed: each holds declared cells and runs at or
    /// above their ceilings, and priorities never fall from a scope to a
    /// later scope, to a frame above it, or to the running priority, nor
    /// from a frame to a scope opened inside it.
    pub open spec fn scopes_inv(self) -> bool {
        &&& forall|j: int, k: int|
            0 <= j < self.scopes.len() && 0 <= k < self.scopes[j].resources.len() ==> {
                &&& (#[trigger] self.scopes[j].resources[k]) < self.config.ceilings.len()
                &&& self.config.ceilings[self.scopes[j].resources[k] as int]
                    <= self.scopes[j].level
            }
        &&& forall|j: int|
            0 <= j < self.scopes.len() ==> (#[trigger] self.scopes[j]).level <= self.threshold
        &&& forall|i: int, j: int|
            0 <= i < j < self.scopes.len() ==> (#[trigger] self.scopes[i]).level <= (
            #[trigger] self.scopes[j]).prior
        &&& forall|j: int, f: int|
            0 <= j < self.scopes.len() && 0 <= f < self.frames.len() && j < self.frames[f].mark
                ==> (#[trigger] self.scopes[j]).level <= (#[trigger] self.frames[f]).resume
        &&& forall|j: int, f: int|
            0 <= j < self.scopes.len() && 0 <= f < self.frames.len() && self.frames[f].mark <= j
                ==> self.priority((#[trigger] self.frames[f]).task as int) <= (
            #[trigger] self.scopes[j]).prior
    }

    /// No cell is held twice, neither by two scopes nor by one.
    pub open spec fn exclusive(self) -> bool {
        forall|i: int, k: int, j: int, l: int|
            #![trigger self.scopes[i].resources[k], self.scopes[j].resources[l]]
            0 <= i < self.scopes.len() && 0 <= k < self.scopes[i].resources.len() && 0 <= j
                < self.scopes.len() && 0 <= l < self.scopes[j].resources.len() && (i != j || k
                != l) ==> self.scopes[i].resources[k] != self.scopes[j].resources[l]
    }

    /// Whether lock scope `j` belongs to context `c`.
    pub open spec fn owns(self, c: int, j: int) -> bool {
        &&& 0 <= c <= self.depth()
        &&& 0 <= j < self.scopes.len()
        &&& self.first_scope(c) <= j < self.end_scope(c)
    }

    /// The priority at which context `c` runs, or ran when it was
    /// preempted: the priority inside its innermost lock scope, and the
    /// priority it was started with if it has no lock scope open.
    pub open spec fn level_of(self, c: int) -> u8 {
        if self.end_scope(c) > self.first_scope(c) {
            self.scopes[self.end_scope(c) - 1].level
        } else {
            self.base(c)
        }
    }

    /// Every priority on record is the one that the rules give: a scope
    /// starts from the priority its context ran at and raises it to the
    /// ceilings of its cells, a preempted context resumes at the priority it
    /// ran at, and the running priority is that of the running context.
    pub open spec fn levels_inv(self) -> bool {
        &&& forall|c: int, j: int| #[trigger]
            self.owns(c, j) ==> {
                &&& self.scopes[j].prior == if j > self.first_scope(c) {
                    self.scopes[j - 1].level
                } else {
                    self.base(c)
                }
                &&& self.scopes[j].level == raised(
                    self.config.ceilings,
                    self.scopes[j].resources,
                    self.scopes[j].prior,
                )
            }
        &&& forall|f: int|
            0 <= f < self.frames.len() ==> self.frames[f].resume == #[trigger] self.level_of(f)
        &&& self.threshold == self.level_of(self.depth())
    }

    /// The invariant of the dispatcher.
    pub open spec fn inv(self) -> bool {
        &&& self.config.valid()
        &&& self.pending.len() == self.config.tasks.len()
        &&& self.frames_inv()
        &&& self.scopes_inv()
        &&& self.exclusive()
        &&& self.levels_inv()
    }
}

/// Raising never lowers the priority, reaches the ceiling of every cell
/// named, and ends at the starting priority or at one of those ceilings: the
/// result is the maximum of them all.
pub proof fn lemma_raised_is_max(ceilings: Seq<u8>, ids: Seq<usize>, from: u8)
    ensures
        from <= raised(ceilings, ids, from),
        forall|i: int| 0 <= i < ids.len() ==> ceilings[#[trigger] ids[i] as int] <= raised(
            ceilings,
            ids,
            from,
        ),
        raised(ceilings, ids, from) == from || exists|i: int|
            0 <= i < ids.len() && raised(ceilings, ids, from) == ceilings[#[trigger] ids[i] as int],
    decreases ids.len(),
{
    if ids.len() > 0 {
        let front = ids.drop_last();
        lemma_raised_is_max(ceilings, front, from);
        let below = raised(ceilings, front, from);
        assert forall|i: int| 0 <= i < ids.len() implies ceilings[#[trigger] ids[i] as int]
            <= raised(ceilings, ids, from) by {
            if i < front.len() {
                assert(ids[i] == front[i]);
            }
        }
        if raised(ceilings, ids, from) != from {
            if raised(ceilings, ids, from) == below {
                let i = choose|i: int|
                    0 <= i < front.len() && below == ceilings[#[trigger] front[i] as int];
                assert(ids[i] == front[i]);
            } else {
                assert(raised(ceilings, ids, from) == ceilings[ids[ids.len() - 1] as int]);
            }
        }
    }
}

/// The priorities on record depend on the frames, the scopes and the
/// configuration alone.
proof fn lemma_same_levels(m: Model, n: Model)
    requires
        m.levels_inv(),
        n.config == m.config,
        n.frames == m.frames,
        n.scopes == m.scopes,
        n.threshold == m.threshold,
    ensures
        n.levels_inv(),
{
    assert forall|c: int, j: int| #[trigger] n.owns(c, j) implies {
        &&& n.scopes[j].prior == if j > n.first_scope(c) {
            n.scopes[j - 1].level
        } else {
            n.base(c)
        }
        &&& n.scopes[j].level == raised(
            n.config.ceilings,
            n.scopes[j].resources,
            n.scopes[j].prior,
        )
    } by {
        assert(m.owns(c, j));
    }
    assert forall|f: int| 0 <= f < n.frames.len() implies n.frames[f].resume
        == #[trigger] n.level_of(f) by {
        assert(m.frames[f].resume == m.level_of(f));
    }
}

/// The state in which a valid system comes up satisfies the invariant.
pub proof fn lemma_boot_inv(config: Config)
    requires
        config.valid(),
    ensures
        Model::boot(config).inv(),
{
}

/// Enabling interrupts keeps the invariant.
pub proof fn lemma_unmask_keeps_inv(m: Model)
    requires
        m.inv(),
    ensures
        m.unmasked().inv(),
{
    lemma_same_levels(m, m.unmasked());
}

/// Latching an event keeps the invariant.
pub proof fn lemma_fire_keeps_inv(m: Model, source: usize)
    requires
        m.inv(),
    ensures
        m.fired(source).inv(),
{
    lemma_same_levels(m, m.fired(source));
}

/// A task that preempts at a priority above the running one keeps the
/// invariant.
pub proof fn lemma_start_keeps_inv(m: Model, t: usize)
    requires
        m.inv(),
        m.enabled,
        t < m.config.tasks.len(),
        m.priority(t as int) > m.threshold,
        m.scopes.len() <= usize::MAX,
    ensures
        m.started(t).inv(),
{
    let n = m.started(t);
    let top = m.frames.len() as int;
    assert(n.frames[top].task == t);
    assert forall|f: int| 0 <= f < n.frames.len() implies {
        &&& (#[trigger] n.frames[f]).task < n.config.tasks.len()
        &&& n.frames[f].mark <= n.scopes.len()
        &&& n.frames[f].resume < n.priority(n.frames[f].task as int)
    } by {
        if f < top {
            assert(n.frames[f] == m.frames[f]);
        }
    }
    assert forall|f: int, g: int| 0 <= f < g < n.frames.len() implies {
        &&& (#[trigger] n.frames[f]).mark <= (#[trigger] n.frames[g]).mark
        &&& n.priority(n.frames[f].task as int) <= n.frames[g].resume
    } by {
        assert(n.frames[f] == m.frames[f]);
        if g < top {
            assert(n.frames[g] == m.frames[g]);
        } else {
            lemma_priorities_grow(m, f, top - 1);
        }
    }
    assert forall|j: int, f: int|
        0 <= j < n.scopes.len() && 0 <= f < n.frames.len() && j < n.frames[f].mark implies (
    #[trigger] n.scopes[j]).level <= (#[trigger] n.frames[f]).resume by {
        if f < top {
            assert(n.frames[f] == m.frames[f]);
        }
    }
    assert forall|c: int, j: int| #[trigger] n.owns(c, j) implies {
        &&& n.scopes[j].prior == if j > n.first_scope(c) {
            n.scopes[j - 1].level
        } else {
            n.base(c)
        }
        &&& n.scopes[j].level == raised(
            n.config.ceilings,
            n.scopes[j].resources,
            n.scopes[j].prior,
        )
    } by {
        if c <= top {
            if c > 0 {
                assert(n.frames[c - 1] == m.frames[c - 1]);
            }
            if c < top {
                assert(n.frames[c] == m.frames[c]);
            }
            assert(m.owns(c, j));
        }
    }
    assert forall|f: int| 0 <= f < n.frames.len() implies n.frames[f].resume
        == #[trigger] n.level_of(f) by {
        if f < top {
            assert(n.frames[f] == m.frames[f]);
            if f > 0 {
                assert(n.frames[f - 1] == m.frames[f - 1]);
            }
            assert(m.frames[f].resume == m.level_of(f));
        } else {
            if f > 0 {
                assert(n.frames[f - 1] == m.frames[f - 1]);
            }
            assert(n.level_of(f) == m.level_of(f));
        }
    }
}

/// Priorities grow from frame to frame, up to the running priority.
pub proof fn lemma_priorities_grow(m: Model, f: int, g: int)
    requires
        m.inv(),
        0 <= f <= g < m.frames.len(),
    ensures
        m.priority(m.frames[f].task as int) <= m.priority(m.frames[g].task as int),
        f < g ==> m.priority(m.frames[f].task as int) < m.priority(m.frames[g].task as int),
        m.priority(m.frames[g].task as int) <= m.threshold,
    decreases m.frames.len() - g,
{
    if g + 1 < m.frames.len() {
        lemma_priorities_grow(m, g + 1, g + 1);
        assert(m.priority(m.frames[g].task as int) <= m.frames[g + 1].resume);
    } else {
        assert(m.base(m.depth()) == m.priority(m.frames[g].task as int));
    }
    if f < g {
        assert(m.priority(m.frames[f].task as int) <= m.frames[g].resume);
    }
}

/// The completion of the running task keeps the invariant.
pub proof fn lemma_complete_keeps_inv(m: Model)
    requires
        m.inv(),
        m.frames.len() > 0,
    ensures
        m.completed().inv(),
{
    let n = m.completed();
    let top = m.frames.len() - 1;
    let mark = m.frames[top].mark as int;
    assert forall|f: int| 0 <= f < n.frames.len() implies {
        &&& (#[trigger] n.frames[f]).task < n.config.tasks.len()
        &&& n.frames[f].mark <= n.scopes.len()
        &&& n.frames[f].resume < n.priority(n.frames[f].task as int)
    } by {
        assert(n.frames[f] == m.frames[f]);
        assert(m.frames[f].mark <= m.frames[top].mark);
    }
    assert forall|f: int, g: int| 0 <= f < g < n.frames.len() implies {
        &&& (#[trigger] n.frames[f]).mark <= (#[trigger] n.frames[g]).mark
        &&& n.priority(n.frames[f].task as int) <= n.frames[g].resume
    } by {
        assert(n.frames[f] == m.frames[f]);
        assert(n.frames[g] == m.frames[g]);
    }
    if n.frames.len() > 0 {
        assert(n.frames[top - 1] == m.frames[top - 1]);
        assert(m.priority(m.frames[top - 1].task as int) <= m.frames[top].resume);
    }
    assert forall|j: int| 0 <= j < n.scopes.len() implies (#[trigger] n.scopes[j]).level
        <= n.threshold by {
        assert(n.scopes[j] == m.scopes[j]);
        assert(m.scopes[j].level <= m.frames[top].resume);
    }
    assert forall|j: int, k: int|
        0 <= j < n.scopes.len() && 0 <= k < n.scopes[j].resources.len() implies {
        &&& (#[trigger] n.scopes[j].resources[k]) < n.config.ceilings.len()
        &&& n.config.ceilings[n.scopes[j].resources[k] as int] <= n.scopes[j].level
    } by {
        assert(n.scopes[j] == m.scopes[j]);
        assert(m.scopes[j].resources[k] < m.config.ceilings.len());
    }
    assert forall|i: int, j: int| 0 <= i < j < n.scopes.len() implies (
    #[trigger] n.scopes[i]).level <= (#[trigger] n.scopes[j]).prior by {
        assert(n.scopes[i] == m.scopes[i]);
        assert(n.scopes[j] == m.scopes[j]);
    }
    assert forall|j: int, f: int|
        0 <= j < n.scopes.len() && 0 <= f < n.frames.len() && j < n.frames[f].mark implies (
    #[trigger] n.scopes[j]).level <= (#[trigger] n.frames[f]).resume by {
        assert(n.scopes[j] == m.scopes[j]);
        assert(n.frames[f] == m.frames[f]);
    }
    assert forall|i: int, k: int, j: int, l: int|
        #![trigger n.scopes[i].resources[k], n.scopes[j].resources[l]]
        0 <= i < n.scopes.len() && 0 <= k < n.scopes[i].resources.len() && 0 <= j
            < n.scopes.len() && 0 <= l < n.scopes[j].resources.len() && (i != j || k
            != l) implies n.scopes[i].resources[k] != n.scopes[j].resources[l] by {
        assert(n.scopes[i] == m.scopes[i]);
        assert(n.scopes[j] == m.scopes[j]);
        assert(m.scopes[i].resources[k] != m.scopes[j].resources[l]);
    }
    assert forall|c: int, j: int| #[trigger] n.owns(c, j) implies {
        &&& n.scopes[j].prior == if j > n.first_scope(c) {
            n.scopes[j - 1].level
        } else {
            n.base(c)
        }
        &&& n.scopes[j].level == raised(
            n.config.ceilings,
            n.scopes[j].resources,
            n.scopes[j].prior,
        )
    } by {
        if c > 0 {
            assert(n.frames[c - 1] == m.frames[c - 1]);
        }
        if c < top - 1 {
            assert(n.frames[c] == m.frames[c]);
        }
        assert(m.frames[c].mark <= m.frames[top].mark);
        assert(m.owns(c, j));
        assert(n.scopes[j] == m.scopes[j]);
        if j > 0 {
            assert(n.scopes[j - 1] == m.scopes[j - 1]);
        }
    }
    assert forall|f: int| 0 <= f < n.frames.len() implies n.frames[f].resume
        == #[trigger] n.level_of(f) by {
        assert(n.frames[f] == m.frames[f]);
        if f > 0 {
            assert(n.frames[f - 1] == m.frames[f - 1]);
        }
        assert(m.frames[f].mark <= m.frames[top].mark);
        assert(m.frames[f].resume == m.level_of(f));
        if m.end_scope(f) > m.first_scope(f) {
            assert(n.scopes[m.end_scope(f) - 1] == m.scopes[m.end_scope(f) - 1]);
        }
    }
    assert(n.threshold == n.level_of(n.depth())) by {
        assert(m.frames[top].resume == m.level_of(top));
        if top > 0 {
            assert(n.frames[top - 1] == m.frames[top - 1]);
            assert(m.frames[top - 1].mark <= m.frames[top].mark);
        }
        if m.end_scope(top) > m.first_scope(top) {
            assert(n.scopes[mark - 1] == m.scopes[mark - 1]);
        }
    }
}

/// A claim of declared cells that is not refused keeps the invariant.
pub proof fn lemma_claim_keeps_inv(m: Model, ids: Seq<usize>)
    requires
        m.inv(),
        forall|i: int| 0 <= i < ids.len() ==> #[trigger] ids[i] < m.config.ceilings.len(),
        !m.blocked(ids),
    ensures
        m.claimed(ids).inv(),
{
    let n = m.claimed(ids);
    let last = m.scopes.len() as int;
    lemma_raised_is_max(m.config.ceilings, ids, m.threshold);
    assert(n.scopes[last] == m.scope_for(ids));
    assert forall|f: int| 0 <= f < n.frames.len() implies {
        &&& (#[trigger] n.frames[f]).task < n.config.tasks.len()
        &&& n.frames[f].mark <= n.scopes.len()
        &&& n.frames[f].resume < n.priority(n.frames[f].task as int)
    } by {
        assert(m.frames[f].mark <= m.scopes.len());
    }
    assert forall|j: int, k: int|
        0 <= j < n.scopes.len() && 0 <= k < n.scopes[j].resources.len() implies {
        &&& (#[trigger] n.scopes[j].resources[k]) < n.config.ceilings.len()
        &&& n.config.ceilings[n.scopes[j].resources[k] as int] <= n.scopes[j].level
    } by {
        if j < last {
            assert(n.scopes[j] == m.scopes[j]);
            assert(m.scopes[j].resources[k] < m.config.ceilings.len());
        } else {
            assert(n.scopes[j].resources[k] == ids[k]);
        }
    }
    assert forall|j: int| 0 <= j < n.scopes.len() implies (#[trigger] n.scopes[j]).level
        <= n.threshold by {
        if j < last {
            assert(n.scopes[j] == m.scopes[j]);
        }
    }
    assert forall|i: int, j: int| 0 <= i < j < n.scopes.len() implies (
    #[trigger] n.scopes[i]).level <= (#[trigger] n.scopes[j]).prior by {
        assert(n.scopes[i] == m.scopes[i]);
        if j < last {
            assert(n.scopes[j] == m.scopes[j]);
        }
    }
    assert forall|j: int, f: int|
        0 <= j < n.scopes.len() && 0 <= f < n.frames.len() && j < n.frames[f].mark implies (
    #[trigger] n.scopes[j]).level <= (#[trigger] n.frames[f]).resume by {
        assert(m.frames[f].mark <= m.scopes.len());
        assert(n.scopes[j] == m.scopes[j]);
    }
    assert forall|i: int, k: int, j: int, l: int|
        #![trigger n.scopes[i].resources[k], n.scopes[j].resources[l]]
        0 <= i < n.scopes.len() && 0 <= k < n.scopes[i].resources.len() && 0 <= j
            < n.scopes.len() && 0 <= l < n.scopes[j].resources.len() && (i != j || k
            != l) implies n.scopes[i].resources[k] != n.scopes[j].resources[l] by {
        if i < last && j < last {
            assert(n.scopes[i] == m.scopes[i]);
            assert(n.scopes[j] == m.scopes[j]);
            assert(m.scopes[i].resources[k] != m.scopes[j].resources[l]);
        } else if i == last && j == last {
            if ids[k] == ids[l] {
                if k < l {
                    assert(repeats(ids));
                } else {
                    assert(0 <= l < k < ids.len() && ids[l] == ids[k]);
                    assert(repeats(ids));
                }
            }
        } else if i == last {
            assert(n.scopes[j] == m.scopes[j]);
            if ids[k] == m.scopes[j].resources[l] {
                assert(m.scopes[j].resources.contains(ids[k]));
                assert(m.held(ids[k]));
            }
        } else {
            assert(n.scopes[i] == m.scopes[i]);
            if ids[l] == m.scopes[i].resources[k] {
                assert(m.scopes[i].resources.contains(ids[l]));
                assert(m.held(ids[l]));
            }
        }
    }
    assert forall|c: int, j: int| #[trigger] n.owns(c, j) implies {
        &&& n.scopes[j].prior == if j > n.first_scope(c) {
            n.scopes[j - 1].level
        } else {
            n.base(c)
        }
        &&& n.scopes[j].level == raised(
            n.config.ceilings,
            n.scopes[j].resources,
            n.scopes[j].prior,
        )
    } by {
        if j < last {
            assert(m.owns(c, j));
            assert(n.scopes[j] == m.scopes[j]);
            if j > 0 {
                assert(n.scopes[j - 1] == m.scopes[j - 1]);
            }
        } else {
            if c < m.depth() {
                assert(m.frames[c].mark <= m.scopes.len());
            }
            if last > 0 {
                assert(n.scopes[last - 1] == m.scopes[last - 1]);
            }
        }
    }
    assert forall|f: int| 0 <= f < n.frames.len() implies n.frames[f].resume
        == #[trigger] n.level_of(f) by {
        assert(m.frames[f].mark <= m.scopes.len());
        assert(m.frames[f].resume == m.level_of(f));
        if m.end_scope(f) > m.first_scope(f) {
            assert(n.scopes[m.end_scope(f) - 1] == m.scopes[m.end_scope(f) - 1]);
        }
    }
}

/// Closing the innermost lock scope of the running context keeps the
/// invariant.
pub proof fn lemma_release_keeps_inv(m: Model)
    requires
        m.inv(),
        m.has_open_scope(),
    ensures
        m.released().inv(),
{
    let n = m.released();
    let last = m.scopes.len() - 1;
    assert forall|f: int| 0 <= f < n.frames.len() implies {
        &&& (#[trigger] n.frames[f]).task < n.config.tasks.len()
        &&& n.frames[f].mark <= n.scopes.len()
        &&& n.frames[f].resume < n.priority(n.frames[f].task as int)
    } by {
        let top = m.frames.len() - 1;
        if f < top {
            assert(m.frames[f].mark <= m.frames[top].mark);
        }
    }
    if m.frames.len() > 0 {
        let top = m.frames.len() - 1;
        assert(m.priority(m.frames[top].task as int) <= m.scopes[last].prior);
    }
    assert forall|j: int| 0 <= j < n.scopes.len() implies (#[trigger] n.scopes[j]).level
        <= n.threshold by {
        assert(n.scopes[j] == m.scopes[j]);
        assert(m.scopes[j].level <= m.scopes[last].prior);
    }
    assert forall|j: int, k: int|
        0 <= j < n.scopes.len() && 0 <= k < n.scopes[j].resources.len() implies {
        &&& (#[trigger] n.scopes[j].resources[k]) < n.config.ceilings.len()
        &&& n.config.ceilings[n.scopes[j].resources[k] as int] <= n.scopes[j].level
    } by {
        assert(n.scopes[j] == m.scopes[j]);
        assert(m.scopes[j].resources[k] < m.config.ceilings.len());
    }
    assert forall|i: int, j: int| 0 <= i < j < n.scopes.len() implies (
    #[trigger] n.scopes[i]).level <= (#[trigger] n.scopes[j]).prior by {
        assert(n.scopes[i] == m.scopes[i]);
        assert(n.scopes[j] == m.scopes[j]);
    }
    assert forall|j: int, f: int|
        0 <= j < n.scopes.len() && 0 <= f < n.frames.len() && j < n.frames[f].mark implies (
    #[trigger] n.scopes[j]).level <= (#[trigger] n.frames[f]).resume by {
        assert(n.scopes[j] == m.scopes[j]);
    }
    assert forall|i: int, k: int, j: int, l: int|
        #![trigger n.scopes[i].resources[k], n.scopes[j].resources[l]]
        0 <= i < n.scopes.len() && 0 <= k < n.scopes[i].resources.len() && 0 <= j
            < n.scopes.len() && 0 <= l < n.scopes[j].resources.len() && (i != j || k
            != l) implies n.scopes[i].resources[k] != n.scopes[j].resources[l] by {
        assert(n.scopes[i] == m.scopes[i]);
        assert(n.scopes[j] == m.scopes[j]);
        assert(m.scopes[i].resources[k] != m.scopes[j].resources[l]);
    }
    assert forall|c: int, j: int| #[trigger] n.owns(c, j) implies {
        &&& n.scopes[j].prior == if j > n.first_scope(c) {
            n.scopes[j - 1].level
        } else {
            n.base(c)
        }
        &&& n.scopes[j].level == raised(
            n.config.ceilings,
            n.scopes[j].resources,
            n.scopes[j].prior,
        )
    } by {
        assert(m.owns(c, j));
        assert(n.scopes[j] == m.scopes[j]);
        if j > 0 {
            assert(n.scopes[j - 1] == m.scopes[j - 1]);
        }
    }
    assert forall|f: int| 0 <= f < n.frames.len() implies n.frames[f].resume
        == #[trigger] n.level_of(f) by {
        assert(m.frames[f].resume == m.level_of(f));
        if f + 1 < m.frames.len() {
            assert(m.frames[f].mark <= m.frames[m.frames.len() - 1].mark);
        }
        if m.end_scope(f) > m.first_scope(f) {
            assert(n.scopes[m.end_scope(f) - 1] == m.scopes[m.end_scope(f) - 1]);
        }
    }
    assert(n.threshold == n.level_of(n.depth())) by {
        assert(m.owns(m.depth(), last));
        if last > m.first_scope(m.depth()) {
            assert(n.scopes[last - 1] == m.scopes[last - 1]);
        }
    }
}

/// After a claim the held cells are those held before and those claimed.
pub proof fn lemma_claim_holds(m: Model, ids: Seq<usize>, r: usize)
    ensures
        m.claimed(ids).held(r) <==> m.held(r) || ids.contains(r),
{
    let n = m.claimed(ids);
    let last = m.scopes.len() as int;
    if m.held(r) {
        let j = choose|j: int|
            0 <= j < m.scopes.len() && #[trigger] m.scopes[j].resources.contains(r);
        assert(n.scopes[j].resources.contains(r));
    }
    if ids.contains(r) {
        assert(n.scopes[last].resources.contains(r));
    }
    if n.held(r) {
        let j = choose|j: int|
            0 <= j < n.scopes.len() && #[trigger] n.scopes[j].resources.contains(r);
        if j < last {
            assert(m.scopes[j].resources.contains(r));
        }
    }
}

/// After the innermost lock scope closed the held cells are those held
/// before, without the cells of that scope.
pub proof fn lemma_release_holds(m: Model, r: usize)
    requires
        m.exclusive(),
        m.scopes.len() > 0,
    ensures
        m.released().held(r) <==> m.held(r) && !m.scopes.last().resources.contains(r),
{
    let n = m.released();
    let last = m.scopes.len() - 1;
    if n.held(r) {
        let j = choose|j: int|
            0 <= j < n.scopes.len() && #[trigger] n.scopes[j].resources.contains(r);
        assert(m.scopes[j].resources.contains(r));
        if m.scopes[last].resources.contains(r) {
            let k = choose|k: int|
                0 <= k < m.scopes[j].resources.len() && m.scopes[j].resources[k] == r;
            let l = choose|l: int|
                0 <= l < m.scopes[last].resources.len() && m.scopes[last].resources[l] == r;
            assert(m.scopes[j].resources[k] != m.scopes[last].resources[l]);
        }
    }
    if m.held(r) && !m.scopes.last().resources.contains(r) {
        let j = choose|j: int|
            0 <= j < m.scopes.len() && #[trigger] m.scopes[j].resources.contains(r);
        assert(n.scopes[j].resources.contains(r));
    }
}

/// Exclusion. While a context holds a cell, no context that runs above it may
/// claim that cell: two tasks that share a cell are never both inside it, so
/// neither sees the cell in the middle of the other's update.
pub proof fn lemma_shared_cell_is_exclusive(m: Model, a: int, b: int, c: usize)
    requires
        m.inv(),
        0 <= a < b <= m.depth(),
        m.holds(a, c),
    ensures
        !m.declares(b, c),
{
    let j = choose|j: int|
        m.first_scope(a) <= j < m.end_scope(a) && 0 <= j < m.scopes.len()
            && #[trigger] m.scopes[j].resources.contains(c);
    let above = m.frames[b - 1];
    assert(m.frames[a].mark <= above.mark);
    assert(m.scopes[j].level <= above.resume);
    let k = choose|k: int| 0 <= k < m.scopes[j].resources.len() && m.scopes[j].resources[k] == c;
    assert(m.config.ceilings[m.scopes[j].resources[k] as int] <= m.scopes[j].level);
    if m.declares(b, c) {
        let listed = m.config.tasks[above.task as int].resources;
        let l = choose|l: int| 0 <= l < listed.len() && listed[l] == c;
        assert(!m.config.offends(above.task as int, l));
    }
}

/// One holder. A cell is held by one context at a time: whoever reaches its
/// contents is alone with them from its claim until it leaves the scope.
pub proof fn lemma_single_holder(m: Model, a: int, b: int, c: usize)
    requires
        m.inv(),
        0 <= a <= m.depth(),
        0 <= b <= m.depth(),
        m.holds(a, c),
        m.holds(b, c),
    ensures
        a == b,
{
    let i = choose|i: int|
        m.first_scope(a) <= i < m.end_scope(a) && 0 <= i < m.scopes.len()
            && #[trigger] m.scopes[i].resources.contains(c);
    let j = choose|j: int|
        m.first_scope(b) <= j < m.end_scope(b) && 0 <= j < m.scopes.len()
            && #[trigger] m.scopes[j].resources.contains(c);
    let k = choose|k: int| 0 <= k < m.scopes[i].resources.len() && m.scopes[i].resources[k] == c;
    let l = choose|l: int| 0 <= l < m.scopes[j].resources.len() && m.scopes[j].resources[l] == c;
    if i != j {
        assert(m.scopes[i].resources[k] != m.scopes[j].resources[l]);
    }
    if a < b {
        if a < b - 1 {
            assert(m.frames[a].mark <= m.frames[b - 1].mark);
        }
    } else if b < a {
        if b < a - 1 {
            assert(m.frames[b].mark <= m.frames[a - 1].mark);
        }
    }
}

/// No blocking. A cell that the running context may claim is held, if at
/// all, by the running context itself. So a claim is refused only where a
/// context claims again what it holds, never because another context is in
/// the way, and no context ever waits for another.
pub proof fn lemma_held_by_claimant(m: Model, r: usize)
    requires
        m.inv(),
        m.declares(m.depth(), r),
        m.held(r),
    ensures
        m.holds(m.depth(), r),
{
    let j = choose|j: int| 0 <= j < m.scopes.len() && #[trigger] m.scopes[j].resources.contains(r);
    if j < m.first_scope(m.depth()) {
        let top = m.frames.last();
        assert(m.frames[m.depth() - 1] == top);
        assert(m.scopes[j].level <= top.resume);
        let k = choose|k: int|
            0 <= k < m.scopes[j].resources.len() && m.scopes[j].resources[k] == r;
        assert(m.config.ceilings[m.scopes[j].resources[k] as int] <= m.scopes[j].level);
        let listed = m.config.tasks[top.task as int].resources;
        let l = choose|l: int| 0 <= l < listed.len() && listed[l] == r;
        assert(!m.config.offends(top.task as int, l));
    }
}

/// Masking. While a cell is held the processor runs at or above the ceiling
/// of the cell, so every task that may claim the cell is masked: its
/// priority does not exceed the running priority.
pub proof fn lemma_held_cell_masks_claimants(m: Model, r: usize, t: int)
    requires
        m.inv(),
        m.held(r),
        0 <= t < m.config.tasks.len(),
        m.config.tasks[t].resources.contains(r),
    ensures
        r < m.config.ceilings.len(),
        m.priority(t) <= m.config.ceilings[r as int] <= m.threshold,
{
    let j = choose|j: int| 0 <= j < m.scopes.len() && #[trigger] m.scopes[j].resources.contains(r);
    let k = choose|k: int| 0 <= k < m.scopes[j].resources.len() && m.scopes[j].resources[k] == r;
    assert(m.config.ceilings[m.scopes[j].resources[k] as int] <= m.scopes[j].level);
    assert(m.scopes[j].level <= m.threshold);
    let listed = m.config.tasks[t].resources;
    let l = choose|l: int| 0 <= l < listed.len() && listed[l] == r;
    assert(!m.config.offends(t, l));
}

/// Run to completion. An active task is masked, so it is not started again
/// before it completes, and no task is active twice.
pub proof fn lemma_active_task_is_masked(m: Model, f: int, g: int)
    requires
        m.inv(),
        0 <= f < m.frames.len(),
        0 <= g < m.frames.len(),
    ensures
        m.priority(m.frames[f].task as int) <= m.threshold,
        f != g ==> m.frames[f].task != m.frames[g].task,
{
    lemma_priorities_grow(m, f, f);
    if f < g {
        lemma_priorities_grow(m, f, g);
    } else if g < f {
        lemma_priorities_grow(m, g, f);
    }
}

/// The priority inside a lock scope is the priority its context was
/// started with, or the ceiling of a cell that the context holds.
proof fn lemma_level_is_reached(m: Model, c: int, j: int)
    requires
        m.inv(),
        m.owns(c, j),
    ensures
        m.scopes[j].level == m.base(c) || exists|r: usize|
            m.holds(c, r) && r < m.config.ceilings.len() && m.scopes[j].level
                == m.config.ceilings[r as int],
    decreases j - m.first_scope(c),
{
    let scope = m.scopes[j];
    lemma_raised_is_max(m.config.ceilings, scope.resources, scope.prior);
    if scope.level == scope.prior {
        if j > m.first_scope(c) {
            assert(m.owns(c, j - 1));
            lemma_level_is_reached(m, c, j - 1);
        }
    } else {
        let i = choose|i: int|
            0 <= i < scope.resources.len() && scope.level == m.config.ceilings[
                #[trigger] scope.resources[i] as int];
        let r = scope.resources[i];
        assert(m.scopes[j].resources[i] < m.config.ceilings.len());
        assert(m.scopes[j].resources.contains(r));
        assert(m.holds(c, r));
    }
}

/// The running priority. The processor runs at the highest of the priority
/// that the running context was started with (zero for the idle task) and
/// the ceilings of the cells that the running context holds: no lower, so
/// that every held cell is protected, and no higher, so that no task is
/// masked without need.
pub proof fn lemma_running_priority(m: Model)
    requires
        m.inv(),
    ensures
        m.base(m.depth()) <= m.threshold,
        forall|r: usize|
            m.holds(m.depth(), r) ==> r < m.config.ceilings.len() && m.config.ceilings[r as int]
                <= m.threshold,
        m.threshold == m.base(m.depth()) || exists|r: usize|
            m.holds(m.depth(), r) && r < m.config.ceilings.len() && m.threshold
                == m.config.ceilings[r as int],
{
    assert forall|r: usize| m.holds(m.depth(), r) implies r < m.config.ceilings.len()
        && m.config.ceilings[r as int] <= m.threshold by {
        let j = choose|j: int|
            m.first_scope(m.depth()) <= j < m.end_scope(m.depth()) && 0 <= j < m.scopes.len()
                && #[trigger] m.scopes[j].resources.contains(r);
        let k = choose|k: int| 0 <= k < m.scopes[j].resources.len() && m.scopes[j].resources[k] == r;
        assert(m.scopes[j].resources[k] < m.config.ceilings.len());
        assert(m.scopes[j].level <= m.threshold);
    }
    if m.end_scope(m.depth()) > m.first_scope(m.depth()) {
        let last = m.scopes.len() - 1;
        assert(m.owns(m.depth(), last));
        lemma_level_is_reached(m, m.depth(), last);
    }
}

/// Among the pending tasks of the first `k` sources there is one that comes
/// first.
proof fn lemma_first_of_prefix(m: Model, k: int, t: int) -> (b: int)
    requires
        0 <= t < k <= m.pending.len(),
        m.pending[t],
    ensures
        0 <= b < k,
        m.pending[b],
        m.priority(t) <= m.priority(b),
        forall|u: int|
            0 <= u < k && #[trigger] m.pending[u] ==> {
                ||| m.priority(u) < m.priority(b)
                ||| m.priority(u) == m.priority(b) && b <= u
            },
    decreases k,
{
    if t < k - 1 {
        let below = lemma_first_of_prefix(m, k - 1, t);
        if m.pending[k - 1] && m.priority(k - 1) > m.priority(below) {
            k - 1
        } else {
            below
        }
    } else if exists|e: int| 0 <= e < t && m.pending[e] {
        let e = choose|e: int| 0 <= e < t && m.pending[e];
        let below = lemma_first_of_prefix(m, k - 1, e);
        if m.priority(t) > m.priority(below) {
            t
        } else {
            below
        }
    } else {
        t
    }
}

/// Whenever an event is pending, some pending task comes first, and its
/// priority is at least that of any other pending task.
pub proof fn lemma_pending_has_next(m: Model, t: int)
    requires
        0 <= t < m.pending.len(),
        m.pending[t],
    ensures
        exists|b: int| m.is_next(b) && m.priority(t) <= m.priority(b),
{
    let b = lemma_first_of_prefix(m, m.pending.len() as int, t);
    assert(m.is_next(b));
}

/// Eligibility. A pending task whose priority lies above the running
/// priority is not masked: the dispatcher starts a task at once, that one or
/// one that comes before it. So a task that was masked by a lock scope is
/// served as soon as the scope is left and the priority restored.
pub proof fn lemma_unmasked_task_preempts(m: Model, t: int)
    requires
        m.enabled,
        0 <= t < m.pending.len(),
        m.pending[t],
        m.priority(t) > m.threshold,
    ensures
        m.can_preempt(),
{
    lemma_pending_has_next(m, t);
    let b = choose|b: int| m.is_next(b) && m.priority(t) <= m.priority(b);
    assert(m.is_next(b) && m.priority(b) > m.threshold);
}

/// Unconsumed events. If the event of the running task is still asserted
/// when its handler returns, because the handler did not acknowledge it, the
/// event is latched again at once and is not masked: a task is started
/// again right away, and as long as the handler goes on like that the idle
/// task never runs.
pub proof fn lemma_unserved_event_returns(m: Model)
    requires
        m.inv(),
        m.frames.len() > 0,
    ensures
        ({
            let t = m.frames.last().task;
            let n = m.completed().fired(t);
            &&& n.pending[t as int]
            &&& n.priority(t as int) > n.threshold
            &&& n.can_preempt()
        }),
{
    let t = m.frames.last().task;
    let n = m.completed().fired(t);
    assert(m.frames[m.frames.len() - 1].task < m.config.tasks.len());
    lemma_pending_has_next(n, t as int);
    let b = choose|b: int| n.is_next(b) && n.priority(t as int) <= n.priority(b);
    assert(n.is_next(b) && n.priority(b) > n.threshold);
}

/// A task whose priority exceeds the ceiling of a cell it names makes the
/// configuration invalid.
pub proof fn lemma_priority_above_ceiling_is_invalid(config: Config, t: int, k: int)
    requires
        0 <= t < config.tasks.len(),
        0 <= k < config.tasks[t].resources.len(),
        config.tasks[t].resources[k] < config.ceilings.len(),
        config.tasks[t].priority > config.ceilings[config.tasks[t].resources[k] as int],
    ensures
        !config.valid(),
{
    assert(config.offends(t, k));
}

/// A configuration in which every ceiling is at least the priority of every
/// task that names the cell is valid.
pub proof fn lemma_sufficient_ceilings_are_valid(config: Config)
    requires
        forall|t: int, k: int|
            0 <= t < config.tasks.len() && 0 <= k < config.tasks[t].resources.len() ==> {
                &&& #[trigger] config.tasks[t].resources[k] < config.ceilings.len()
                &&& config.ceilings[config.tasks[t].resources[k] as int]
                    >= config.tasks[t].priority
            },
    ensures
        config.valid(),
{
    assert forall|t: int, k: int| !config.offends(t, k) by {
        if 0 <= t < config.tasks.len() && 0 <= k < config.tasks[t].resources.len() {
            assert(config.tasks[t].resources[k] < config.ceilings.len());
        }
    }
}

/// An invalid configuration has exactly one first offence.
pub proof fn lemma_first_offence_is_unique(config: Config, t: int, k: int, u: int, j: int)
    requires
        config.first_offence(t, k),
        config.first_offence(u, j),
    ensures
        t == u,
        k == j,
{
}

} // verus!
