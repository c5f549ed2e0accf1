//! The dispatcher: interrupt tasks, lock scopes and the running priority.
//!
//! The dispatcher owns the resource cells and the task table. It is told of
//! every event (an interrupt fires, a handler claims cells or leaves a lock
//! scope, a handler returns) and answers what happens next. It performs no
//! hardware operation and runs no handler itself: the firmware does both, in
//! the order the dispatcher gives.
//!
//! Exclusion comes from priorities alone. A claim raises the running
//! priority to the ceiling of the cells claimed, which masks every task that
//! may claim one of them, and leaving the scope restores the priority. There
//! is no lock to wait for.

use crate::model::lemma_boot_inv;
use crate::model::lemma_claim_holds;
use crate::model::lemma_claim_keeps_inv;
use crate::model::lemma_complete_keeps_inv;
use crate::model::lemma_fire_keeps_inv;
use crate::model::lemma_held_by_claimant;
use crate::model::lemma_held_cell_masks_claimants;
use crate::model::lemma_release_holds;
use crate::model::lemma_release_keeps_inv;
use crate::model::lemma_start_keeps_inv;
use crate::model::lemma_unmask_keeps_inv;
use crate::model::raised;
use crate::model::repeats;
use crate::model::Config;
use crate::model::ConfigError;
use crate::model::Frame;
use crate::model::Model;
use crate::model::ScopeModel;
use crate::model::TaskModel;
use crate::resource::ResourceCell;
use crate::task::TaskDescriptor;
use crate::task::TaskState;
use vstd::prelude::*;

verus! {

/// The record of one lock scope: the cells it holds, the priority before the
/// claim and the priority inside the scope.
#[derive(Debug)]
pub struct LockScope {
    pub resources: Vec<usize>,
    pub prior: u8,
    pub level: u8,
}

impl View for LockScope {
    type V = ScopeModel;

    open spec fn view(&self) -> ScopeModel {
        ScopeModel { resources: self.resources@, prior: self.prior, level: self.level }
    }
}

/// Why a claim was refused.
#[derive(Clone, Copy, Debug, PartialEq, Eq, Structural)]
pub enum ClaimError {
    /// A cell of the claim is held already, or the claim names a cell twice.
    AlreadyHeld,
}

/// The ceilings of a row of cells.
pub open spec fn ceilings_of<T>(cells: Seq<ResourceCell<T>>) -> Seq<u8> {
    Seq::new(cells.len(), |r: int| cells[r]@.ceiling)
}

/// The contents of a row of cells.
pub open spec fn contents_of<T>(cells: Seq<ResourceCell<T>>) -> Seq<T> {
    Seq::new(cells.len(), |r: int| cells[r]@.contents)
}

/// What the model knows of a task table.
pub open spec fn task_models<H>(tasks: Seq<TaskDescriptor<H>>) -> Seq<TaskModel> {
    Seq::new(tasks.len(), |t: int| tasks[t]@)
}

/// The handlers of a task table.
pub open spec fn handlers_of<H>(tasks: Seq<TaskDescriptor<H>>) -> Seq<H> {
    Seq::new(tasks.len(), |t: int| tasks[t].handler)
}

/// The configuration that a row of cells and a task table make.
pub open spec fn config_of<T, H>(
    cells: Seq<ResourceCell<T>>,
    tasks: Seq<TaskDescriptor<H>>,
) -> Config {
    Config { ceilings: ceilings_of(cells), tasks: task_models(tasks) }
}

/// The models of a row of lock scopes.
pub open spec fn scope_models(scopes: Seq<LockScope>) -> Seq<ScopeModel> {
    Seq::new(scopes.len(), |j: int| scopes[j]@)
}

/// The dispatcher of a system with cells of type `T` and handlers of type
/// `H`.
pub struct Dispatcher<T, H> {
    cells: Vec<ResourceCell<T>>,
    tasks: Vec<TaskDescriptor<H>>,
    held: Vec<bool>,
    pending: Vec<bool>,
    frames: Vec<Frame>,
    scopes: Vec<LockScope>,
    threshold: u8,
    enabled: bool,
}

impl<T, H> View for Dispatcher<T, H> {
    type V = Model;

    closed spec fn view(&self) -> Model {
        Model {
            config: config_of(self.cells@, self.tasks@),
            pending: self.pending@,
            frames: self.frames@,
            scopes: scope_models(self.scopes@),
            threshold: self.threshold,
            enabled: self.enabled,
        }
    }
}

impl<T, H> Dispatcher<T, H> {
    /// The contents of the cells, by index.
    pub closed spec fn contents(&self) -> Seq<T> {
        contents_of(self.cells@)
    }

    /// The handlers of the tasks, by interrupt source.
    pub closed spec fn handlers(&self) -> Seq<H> {
        handlers_of(self.tasks@)
    }

    /// The flags that the dispatcher keeps agree with its lock scopes.
    pub closed spec fn coherent(&self) -> bool {
        &&& self.held@.len() == self.cells@.len()
        &&& forall|r: usize|
            r < self.held@.len() ==> #[trigger] self.held@[r as int] == self@.held(r)
    }

    /// The dispatcher is well formed: its state satisfies the invariant of
    /// the model. Every dispatcher that `new` returns is well formed, and
    /// every operation keeps it so.
    pub open spec fn wf(&self) -> bool {
        &&& self@.inv()
        &&& self.coherent()
        &&& self.contents().len() == self@.config.ceilings.len()
        &&& self.handlers().len() == self@.config.tasks.len()
    }

    /// Builds the dispatcher of a system from its resource cells and its
    /// task table, and checks the ceiling rule: every cell that a task names
    /// must be declared, with a ceiling at least the priority of the task.
    /// The check is made once, here, before any task can run; a
    /// configuration that fails it yields no dispatcher, and the error names
    /// the first offending entry.
    ///
    /// The dispatcher comes up with interrupts disabled: events are latched
    /// but no task starts before [`Dispatcher::start`].
    pub fn new(cells: Vec<ResourceCell<T>>, tasks: Vec<TaskDescriptor<H>>) -> (made: Result<
        Dispatcher<T, H>,
        ConfigError,
    >)
        ensures
            made is Ok <==> config_of(cells@, tasks@).valid(),
            match made {
                Ok(dispatcher) => {
                    &&& dispatcher.wf()
                    &&& dispatcher@ == Model::boot(config_of(cells@, tasks@))
                    &&& dispatcher.contents() == contents_of(cells@)
                    &&& dispatcher.handlers() == handlers_of(tasks@)
                },
                Err(error) => exists|t: int, k: int|
                    config_of(cells@, tasks@).first_offence(t, k) && error == config_of(
                        cells@,
                        tasks@,
                    ).error_at(t, k),
            },
    {
        let ghost config = config_of(cells@, tasks@);
        let mut t: usize = 0;
        while t < tasks.len()
            invariant
                t <= tasks.len(),
                config == config_of(cells@, tasks@),
                forall|u: int, j: int| u < t ==> !config.offends(u, j),
            decreases tasks.len() - t,
        {
            let task = &tasks[t];
            let mut k: usize = 0;
            while k < task.resources.len()
                invariant
                    t < tasks.len(),
                    task == &tasks[t as int],
                    k <= task.resources.len(),
                    config == config_of(cells@, tasks@),
                    forall|u: int, j: int| u < t ==> !config.offends(u, j),
                    forall|j: int| j < k ==> !config.offends(t as int, j),
                decreases task.resources.len() - k,
            {
                let resource = task.resources[k];
                if resource >= cells.len() {
                    proof {
                        assert(config.offends(t as int, k as int));
                        assert(config.first_offence(t as int, k as int));
                    }
                    return Err(ConfigError::UnknownResource { task: t, resource });
                }
                if cells[resource].ceiling() < task.priority {
                    proof {
                        assert(config.offends(t as int, k as int));
                        assert(config.first_offence(t as int, k as int));
                    }
                    return Err(ConfigError::CeilingTooLow { task: t, resource });
                }
                k = k + 1;
            }
            t = t + 1;
        }
        let held = all_false(cells.len());
        let pending = all_false(tasks.len());
        let dispatcher = Dispatcher {
            cells,
            tasks,
            held,
            pending,
            frames: Vec::new(),
            scopes: Vec::new(),
            threshold: 0,
            enabled: false,
        };
        proof {
            assert(config.valid());
            assert(dispatcher@.pending =~= Model::boot(config).pending);
            assert(dispatcher@.frames =~= Model::boot(config).frames);
            assert(dispatcher@.scopes =~= Model::boot(config).scopes);
            lemma_boot_inv(config);
        }
        Ok(dispatcher)
    }

    /// Ends initialisation: enables interrupts and leaves the processor to
    /// the idle task. Events latched so far are served by the next
    /// [`Dispatcher::dispatch`].
    pub fn start(&mut self)
        requires
            old(self).wf(),
        ensures
            final(self).wf(),
            final(self)@ == old(self)@.unmasked(),
            final(self).contents() == old(self).contents(),
            final(self).handlers() == old(self).handlers(),
    {
        proof {
            lemma_unmask_keeps_inv(self@);
        }
        self.enabled = true;
    }

    /// An event of interrupt source `source` arrives. The interrupt
    /// controller latches it until the task is started; an event that
    /// arrives while one is latched already is merged with it. Returns
    /// whether a task is bound to the source: an event of a source without a
    /// task is dropped.
    pub fn fire(&mut self, source: usize) -> (latched: bool)
        requires
            old(self).wf(),
        ensures
            final(self).wf(),
            final(self)@ == old(self)@.fired(source),
            latched == (source < old(self)@.config.tasks.len()),
            final(self).contents() == old(self).contents(),
            final(self).handlers() == old(self).handlers(),
    {
        proof {
            lemma_fire_keeps_inv(self@, source);
        }
        if source < self.pending.len() {
            self.pending.set(source, true);
            true
        } else {
            false
        }
    }

    /// Lets the interrupt controller act: if interrupts are enabled and the
    /// pending task that comes first (highest priority, then lowest source
    /// number) has a priority above the running one, that task preempts the
    /// running context. Its event is consumed, the processor runs at its
    /// priority, and its source is returned: the firmware runs its handler
    /// now. Otherwise nothing changes and the running context goes on.
    ///
    /// A task that is started shares no cell with a lock scope that is open:
    /// while a cell is held, every task that may claim it is masked.
    pub fn dispatch(&mut self) -> (started: Option<usize>)
        requires
            old(self).wf(),
        ensures
            final(self).wf(),
            final(self).contents() == old(self).contents(),
            final(self).handlers() == old(self).handlers(),
            match started {
                Some(t) => {
                    &&& old(self)@.enabled
                    &&& old(self)@.is_next(t as int)
                    &&& old(self)@.priority(t as int) > old(self)@.threshold
                    &&& final(self)@ == old(self)@.started(t)
                    &&& forall|r: usize|
                        old(self)@.held(r) ==> !old(self)@.config.tasks[t as int].resources.contains(
                            r,
                        )
                },
                None => !old(self)@.can_preempt() && final(self)@ == old(self)@,
            },
    {
        if !self.enabled {
            return None;
        }
        let mut best: Option<usize> = None;
        let mut t: usize = 0;
        while t < self.tasks.len()
            invariant
                self.wf(),
                t <= self.tasks.len(),
                match best {
                    None => forall|u: int| 0 <= u < t ==> !#[trigger] self@.pending[u],
                    Some(b) => {
                        &&& b < t
                        &&& self@.pending[b as int]
                        &&& forall|u: int|
                            0 <= u < t && #[trigger] self@.pending[u] ==> {
                                ||| self@.priority(u) < self@.priority(b as int)
                                ||| self@.priority(u) == self@.priority(b as int) && b <= u
                            }
                    },
                },
            decreases self.tasks.len() - t,
        {
            if self.pending[t] {
                match best {
                    None => {
                        best = Some(t);
                    },
                    Some(b) => {
                        if self.tasks[t].priority > self.tasks[b].priority {
                            best = Some(t);
                        }
                    },
                }
            }
            t = t + 1;
        }
        match best {
            None => None,
            Some(b) => {
                let priority = self.tasks[b].priority;
                if priority > self.threshold {
                    proof {
                        assert(self@.is_next(b as int));
                        assert(self@.scopes.len() == self.scopes.len());
                        lemma_start_keeps_inv(self@, b);
                        assert forall|r: usize| self@.held(r) implies !self@.config.tasks[b as int].resources.contains(
                            r,
                        ) by {
                            if self@.config.tasks[b as int].resources.contains(r) {
                                lemma_held_cell_masks_claimants(self@, r, b as int);
                            }
                        }
                    }
                    self.frames.push(
                        Frame { task: b, resume: self.threshold, mark: self.scopes.len() },
                    );
                    self.pending.set(b, false);
                    self.threshold = priority;
                    proof {
                        assert(self@.frames =~= old(self)@.started(b).frames);
                        assert(self@ == old(self)@.started(b));
                    }
                    Some(b)
                } else {
                    proof {
                        assert(self@.is_next(b as int));
                    }
                    None
                }
            },
        }
    }

    /// The running context claims the cells `ids` and enters a lock scope.
    ///
    /// The priority is raised to the highest ceiling among the cells, unless
    /// it is that high already; this masks every task that may claim one of
    /// them. The scope lasts until [`Dispatcher::release`], or until the
    /// handler returns. Returns the record of the scope.
    ///
    /// The claim is refused, and nothing changes, if one of the cells is
    /// held already or the claim names a cell twice. Claims never wait, and
    /// a cell that the running context may claim is never held by another
    /// context: a claim is refused only where the running context claims
    /// again what it holds itself.
    ///
    /// A context may claim only what it declared: a task the cells of its
    /// resource list, the idle task any declared cell. A claim of anything
    /// else is a programming error, ruled out here and not handled at run
    /// time.
    pub fn claim(&mut self, ids: &[usize]) -> (claimed: Result<LockScope, ClaimError>)
        requires
            old(self).wf(),
            forall|i: int|
                0 <= i < ids@.len() ==> old(self)@.declares(old(self)@.depth(), #[trigger] ids@[i]),
        ensures
            final(self).wf(),
            final(self).contents() == old(self).contents(),
            final(self).handlers() == old(self).handlers(),
            claimed is Err <==> old(self)@.blocked(ids@),
            claimed is Err ==> repeats(ids@) || exists|i: int|
                0 <= i < ids@.len() && old(self)@.holds(old(self)@.depth(), #[trigger] ids@[i]),
            match claimed {
                Ok(scope) => {
                    &&& scope@ == old(self)@.scope_for(ids@)
                    &&& final(self)@ == old(self)@.claimed(ids@)
                },
                Err(_) => final(self)@ == old(self)@,
            },
    {
        proof {
            assert forall|i: int| 0 <= i < ids@.len() implies #[trigger] ids@[i]
                < self@.config.ceilings.len() by {
                self.lemma_declared_is_known(ids@[i]);
            }
        }
        let mut marks = copy_flags(&self.held);
        let mut level = self.threshold;
        let mut i: usize = 0;
        while i < ids.len()
            invariant
                i <= ids.len(),
                self.wf(),
                *self == *old(self),
                marks@.len() == self.held@.len(),
                self.held@.len() == self@.config.ceilings.len(),
                forall|k: int| 0 <= k < ids@.len() ==> #[trigger] ids@[k] < self.cells@.len(),
                forall|k: int|
                    0 <= k < ids@.len() ==> self@.declares(self@.depth(), #[trigger] ids@[k]),
                forall|r: usize|
                    r < marks@.len() ==> #[trigger] marks@[r as int] == (self@.held(r)
                        || ids@.take(i as int).contains(r)),
                forall|k: int| 0 <= k < i ==> !self@.held(#[trigger] ids@[k]),
                forall|k: int, l: int| 0 <= k < l < i ==> ids@[k] != ids@[l],
                level == raised(
                    self@.config.ceilings,
                    ids@.take(i as int),
                    self@.threshold,
                ),
            decreases ids.len() - i,
        {
            let resource = ids[i];
            if marks[resource] {
                proof {
                    if self@.held(resource) {
                        assert(self@.held(ids@[i as int]));
                        lemma_held_by_claimant(self@, ids@[i as int]);
                    } else {
                        let before = ids@.take(i as int);
                        let k = choose|k: int| 0 <= k < before.len() && before[k] == resource;
                        assert(ids@[k] == ids@[i as int] && 0 <= k < i < ids@.len());
                        assert(repeats(ids@));
                    }
                }
                return Err(ClaimError::AlreadyHeld);
            }
            proof {
                let before = ids@.take(i as int);
                let after = ids@.take(i + 1);
                assert(after.drop_last() =~= before);
                assert(after.last() == resource);
                assert forall|r: usize| after.contains(r) <==> before.contains(r) || r
                    == resource by {
                    if before.contains(r) {
                        let k = choose|k: int| 0 <= k < before.len() && before[k] == r;
                        assert(after[k] == r);
                    }
                    if r == resource {
                        assert(after[i as int] == r);
                    }
                    if after.contains(r) {
                        let k = choose|k: int| 0 <= k < after.len() && after[k] == r;
                        if k < i {
                            assert(before[k] == r);
                        }
                    }
                }
                assert forall|k: int| 0 <= k < i implies ids@[k] != resource by {
                    if ids@[k] == resource {
                        assert(before[k] == resource);
                        assert(before.contains(resource));
                    }
                }
            }
            marks.set(resource, true);
            let ceiling = self.cells[resource].ceiling();
            if ceiling > level {
                level = ceiling;
            }
            i = i + 1;
        }
        proof {
            assert(ids@.take(i as int) =~= ids@);
            assert(!old(self)@.blocked(ids@)) by {
                if repeats(ids@) {
                    let (k, l) = choose|k: int, l: int|
                        0 <= k < l < ids@.len() && ids@[k] == ids@[l];
                    assert(ids@[k] != ids@[l]);
                }
            }
            lemma_claim_keeps_inv(old(self)@, ids@);
        }
        let record = LockScope { resources: copy_ids(ids), prior: self.threshold, level };
        let scope = LockScope { resources: copy_ids(ids), prior: self.threshold, level };
        self.held = marks;
        self.scopes.push(record);
        self.threshold = level;
        proof {
            assert(scope@ == old(self)@.scope_for(ids@));
            assert(self@.scopes =~= old(self)@.claimed(ids@).scopes);
            assert(self@ == old(self)@.claimed(ids@));
            assert forall|r: usize| r < self.held@.len() implies #[trigger] self.held@[r as int]
                == self@.held(r) by {
                lemma_claim_holds(old(self)@, ids@, r);
            }
        }
        Ok(scope)
    }

    /// A cell that a context may claim is a declared cell.
    proof fn lemma_declared_is_known(&self, r: usize)
        requires
            self.wf(),
            self@.declares(self@.depth(), r),
        ensures
            r < self@.config.ceilings.len(),
    {
        let m = self@;
        if m.depth() > 0 {
            let task = m.frames[m.depth() - 1].task as int;
            let listed = m.config.tasks[task].resources;
            let l = choose|l: int| 0 <= l < listed.len() && listed[l] == r;
            assert(!m.config.offends(task, l));
        }
    }

    /// The running context leaves its innermost lock scope: the cells of the
    /// scope are free again and the priority from before the claim is
    /// restored. Returns the record of the scope, or `None`, with nothing
    /// changed, if the running context has no lock scope open.
    pub fn release(&mut self) -> (closed: Option<LockScope>)
        requires
            old(self).wf(),
        ensures
            final(self).wf(),
            final(self).contents() == old(self).contents(),
            final(self).handlers() == old(self).handlers(),
            match closed {
                Some(scope) => {
                    &&& old(self)@.has_open_scope()
                    &&& scope@ == old(self)@.scopes.last()
                    &&& final(self)@ == old(self)@.released()
                },
                None => !old(self)@.has_open_scope() && final(self)@ == old(self)@,
            },
    {
        let first = if self.frames.len() == 0 {
            0
        } else {
            self.frames[self.frames.len() - 1].mark
        };
        if self.scopes.len() <= first {
            return None;
        }
        let scope = self.scopes.pop().unwrap();
        self.threshold = scope.prior;
        proof {
            lemma_release_keeps_inv(old(self)@);
            assert(self@.scopes =~= old(self)@.released().scopes);
            assert(self@ == old(self)@.released());
            assert(scope@ == old(self)@.scopes.last());
        }
        let mut k: usize = 0;
        while k < scope.resources.len()
            invariant
                k <= scope.resources.len(),
                old(self)@.inv(),
                scope@ == old(self)@.scopes.last(),
                old(self)@.scopes.len() > 0,
                self@ == old(self)@.released(),
                self.contents() == old(self).contents(),
                self.handlers() == old(self).handlers(),
                self.held@.len() == self.cells@.len(),
                self.cells@.len() == old(self)@.config.ceilings.len(),
                forall|r: usize|
                    r < self.held@.len() ==> #[trigger] self.held@[r as int] == (old(
                        self,
                    )@.held(r) && !scope.resources@.take(k as int).contains(r)),
            decreases scope.resources.len() - k,
        {
            let resource = scope.resources[k];
            proof {
                let last = old(self)@.scopes.len() - 1;
                assert(old(self)@.scopes[last].resources[k as int] < old(
                    self,
                )@.config.ceilings.len());
                let before = scope.resources@.take(k as int);
                let after = scope.resources@.take(k + 1);
                assert forall|r: usize| after.contains(r) <==> before.contains(r) || r
                    == resource by {
                    if before.contains(r) {
                        let i = choose|i: int| 0 <= i < before.len() && before[i] == r;
                        assert(after[i] == r);
                    }
                    if r == resource {
                        assert(after[k as int] == r);
                    }
                    if after.contains(r) {
                        let i = choose|i: int| 0 <= i < after.len() && after[i] == r;
                        if i < k {
                            assert(before[i] == r);
                        }
                    }
                }
            }
            self.held.set(resource, false);
            k = k + 1;
        }
        proof {
            assert(scope.resources@.take(k as int) =~= scope.resources@);
            assert forall|r: usize| r < self.held@.len() implies #[trigger] self.held@[r as int]
                == self@.held(r) by {
                lemma_release_holds(old(self)@, r);
            }
        }
        Some(scope)
    }

    /// The handler of the running task returns: the lock scopes it left open
    /// are closed, the task is idle again, and the context it preempted
    /// resumes at the priority it ran at. Returns the source of the task, or
    /// `None`, with nothing changed, while the idle task runs: the idle task
    /// never returns.
    pub fn complete(&mut self) -> (done: Option<usize>)
        requires
            old(self).wf(),
        ensures
            final(self).wf(),
            final(self).contents() == old(self).contents(),
            final(self).handlers() == old(self).handlers(),
            done == old(self)@.running(),
            final(self)@ == if done is Some {
                old(self)@.completed()
            } else {
                old(self)@
            },
    {
        if self.frames.len() == 0 {
            return None;
        }
        let top = self.frames[self.frames.len() - 1];
        while self.scopes.len() > top.mark
            invariant
                self.wf(),
                old(self).wf(),
                self.frames@ == old(self).frames@,
                self.frames@.len() > 0,
                top == self.frames@.last(),
                self.contents() == old(self).contents(),
                self.handlers() == old(self).handlers(),
                self@.config == old(self)@.config,
                self@.pending == old(self)@.pending,
                self@.enabled == old(self)@.enabled,
                top.mark <= self@.scopes.len() <= old(self)@.scopes.len(),
                self@.scopes == old(self)@.scopes.take(self@.scopes.len() as int),
            decreases self.scopes.len(),
        {
            let ghost before = self@;
            proof {
                assert(before.frames[before.depth() - 1] == top);
                assert(before.has_open_scope());
            }
            let closed = self.release();
            proof {
                assert(closed is Some);
                assert(self@.scopes == before.scopes.drop_last());
                assert(self@.scopes =~= old(self)@.scopes.take(self@.scopes.len() as int));
            }
        }
        proof {
            lemma_complete_keeps_inv(old(self)@);
        }
        let _ = self.frames.pop();
        self.threshold = top.resume;
        proof {
            assert(self@.frames =~= old(self)@.completed().frames);
            assert(self@ == old(self)@.completed());
            assert forall|r: usize| r < self.held@.len() implies #[trigger] self.held@[r as int]
                == self@.held(r) by {}
        }
        Some(top.task)
    }

    /// Tells whether the running context holds cell `resource`, that is,
    /// whether one of its open lock scopes does.
    pub fn holds(&self, resource: usize) -> (held: bool)
        requires
            self.wf(),
        ensures
            held == self@.holds(self@.depth(), resource),
    {
        let first = if self.frames.len() == 0 {
            0
        } else {
            self.frames[self.frames.len() - 1].mark
        };
        let mut j: usize = first;
        while j < self.scopes.len()
            invariant
                self.wf(),
                first == self@.first_scope(self@.depth()),
                first <= j <= self.scopes@.len(),
                forall|i: int|
                    first <= i < j ==> !(#[trigger] self@.scopes[i]).resources.contains(resource),
            decreases self.scopes.len() - j,
        {
            let scope = &self.scopes[j];
            let mut k: usize = 0;
            while k < scope.resources.len()
                invariant
                    self.wf(),
                    j < self.scopes@.len(),
                    first == self@.first_scope(self@.depth()),
                    first <= j,
                    scope@ == self@.scopes[j as int],
                    k <= scope.resources@.len(),
                    forall|l: int| 0 <= l < k ==> scope.resources@[l] != resource,
                decreases scope.resources.len() - k,
            {
                if scope.resources[k] == resource {
                    proof {
                        assert(self@.scopes[j as int].resources[k as int] == resource);
                        assert(self@.scopes[j as int].resources.contains(resource));
                    }
                    return true;
                }
                k = k + 1;
            }
            j = j + 1;
        }
        false
    }

    /// Lends out the contents of cell `resource` for reading. The contents
    /// are reached only inside a lock scope of the running context that
    /// holds the cell; anywhere else the answer is `None`.
    pub fn read(&self, resource: usize) -> (contents: Option<&T>)
        requires
            self.wf(),
        ensures
            contents is Some <==> self@.holds(self@.depth(), resource),
            contents matches Some(value) ==> resource < self.contents().len() && *value
                == self.contents()[resource as int],
    {
        if self.holds(resource) {
            proof {
                self.lemma_held_is_known(resource);
            }
            Some(self.cells[resource].get())
        } else {
            None
        }
    }

    /// Puts `value` into cell `resource` and returns what the cell held.
    /// The contents are changed only inside a lock scope of the running
    /// context that holds the cell; anywhere else the cell is left alone and
    /// `value` comes back as the error.
    pub fn replace(&mut self, resource: usize, value: T) -> (previous: Result<T, T>)
        requires
            old(self).wf(),
        ensures
            final(self).wf(),
            final(self)@ == old(self)@,
            final(self).handlers() == old(self).handlers(),
            previous is Ok <==> old(self)@.holds(old(self)@.depth(), resource),
            match previous {
                Ok(before) => {
                    &&& resource < old(self).contents().len()
                    &&& before == old(self).contents()[resource as int]
                    &&& final(self).contents() == old(self).contents().update(
                        resource as int,
                        value,
                    )
                },
                Err(refused) => refused == value && final(self).contents() == old(self).contents(),
            },
    {
        if !self.holds(resource) {
            return Err(value);
        }
        proof {
            self.lemma_held_is_known(resource);
        }
        let ceiling = self.cells[resource].ceiling();
        let mut cell = ResourceCell::new(ceiling, value);
        self.cells.set_and_swap(resource, &mut cell);
        proof {
            assert(self@.config.ceilings =~= old(self)@.config.ceilings);
            assert(self@ == old(self)@);
            assert(self.contents() =~= old(self).contents().update(resource as int, value));
        }
        Ok(cell.into_contents())
    }

    /// Lends out the contents of cell `resource` for change. The contents
    /// are reached only inside a lock scope of the running context that
    /// holds the cell; anywhere else the answer is `None`.
    pub fn borrow_mut(&mut self, resource: usize) -> (contents: Option<&mut T>)
        requires
            old(self).wf(),
        ensures
            contents is Some <==> old(self)@.holds(old(self)@.depth(), resource),
            final(self).wf(),
            final(self)@ == old(self)@,
            final(self).handlers() == old(self).handlers(),
            match contents {
                Some(value) => {
                    &&& resource < old(self).contents().len()
                    &&& *value == old(self).contents()[resource as int]
                    &&& final(self).contents() == old(self).contents().update(
                        resource as int,
                        *final(value),
                    )
                },
                None => final(self).contents() == old(self).contents(),
            },
    {
        if !self.holds(resource) {
            return None;
        }
        proof {
            self.lemma_held_is_known(resource);
        }
        proof {
            let cells = self.cells@;
            assert forall|cell: ResourceCell<T>|
                cell@.ceiling == cells[resource as int]@.ceiling implies {
                &&& #[trigger] ceilings_of(cells.update(resource as int, cell)) == ceilings_of(
                    cells,
                )
                &&& contents_of(cells.update(resource as int, cell)) == contents_of(cells).update(
                    resource as int,
                    cell@.contents,
                )
            } by {
                assert(ceilings_of(cells.update(resource as int, cell)) =~= ceilings_of(cells));
                assert(contents_of(cells.update(resource as int, cell)) =~= contents_of(
                    cells,
                ).update(resource as int, cell@.contents));
            }
        }
        let cell = &mut self.cells[resource];
        let contents = cell.get_mut();
        Some(contents)
    }

    /// A cell that the running context holds is a declared cell.
    proof fn lemma_held_is_known(&self, r: usize)
        requires
            self.wf(),
            self@.holds(self@.depth(), r),
        ensures
            r < self.cells@.len(),
    {
        let m = self@;
        let j = choose|j: int|
            m.first_scope(m.depth()) <= j < m.end_scope(m.depth()) && 0 <= j < m.scopes.len()
                && #[trigger] m.scopes[j].resources.contains(r);
        let k = choose|k: int| 0 <= k < m.scopes[j].resources.len() && m.scopes[j].resources[k] == r;
        assert(m.scopes[j].resources[k] < m.config.ceilings.len());
    }

    /// Tells whether the running context may claim cell `resource`.
    pub fn declares(&self, resource: usize) -> (declared: bool)
        requires
            self.wf(),
        ensures
            declared == self@.declares(self@.depth(), resource),
    {
        if self.frames.len() == 0 {
            return resource < self.cells.len();
        }
        let task = &self.tasks[self.frames[self.frames.len() - 1].task];
        let ghost listed = self@.config.tasks[self@.frames[self@.depth() - 1].task as int].resources;
        let mut k: usize = 0;
        while k < task.resources.len()
            invariant
                k <= task.resources@.len(),
                task.resources@ == listed,
                self@.depth() > 0,
                listed == self@.config.tasks[self@.frames[self@.depth() - 1].task as int].resources,
                forall|l: int| 0 <= l < k ==> listed[l] != resource,
            decreases task.resources.len() - k,
        {
            if task.resources[k] == resource {
                proof {
                    assert(listed[k as int] == resource);
                }
                return true;
            }
            k = k + 1;
        }
        false
    }

    /// Tells whether some lock scope holds cell `resource`.
    pub fn is_held(&self, resource: usize) -> (held: bool)
        requires
            self.wf(),
        ensures
            held == self@.held(resource),
    {
        if resource < self.held.len() {
            self.held[resource]
        } else {
            proof {
                let m = self@;
                if m.held(resource) {
                    let j = choose|j: int|
                        0 <= j < m.scopes.len() && #[trigger] m.scopes[j].resources.contains(
                            resource,
                        );
                    let k = choose|k: int|
                        0 <= k < m.scopes[j].resources.len() && m.scopes[j].resources[k]
                            == resource;
                    assert(m.scopes[j].resources[k] < m.config.ceilings.len());
                }
            }
            false
        }
    }

    /// Tells whether an event of interrupt source `source` waits to be
    /// served.
    pub fn is_pending(&self, source: usize) -> (pending: bool)
        ensures
            pending == (source < self@.pending.len() && self@.pending[source as int]),
    {
        source < self.pending.len() && self.pending[source]
    }

    /// Tells what the task of interrupt source `source` is doing: it is
    /// `Running` from the moment it is started until its handler returns,
    /// also while a task of higher priority has preempted it.
    pub fn state_of(&self, source: usize) -> (state: TaskState)
        ensures
            state == if self@.active(source) {
                TaskState::Running
            } else {
                TaskState::Idle
            },
    {
        let mut f: usize = 0;
        while f < self.frames.len()
            invariant
                f <= self.frames@.len(),
                forall|g: int| 0 <= g < f ==> (#[trigger] self@.frames[g]).task != source,
            decreases self.frames.len() - f,
        {
            if self.frames[f].task == source {
                proof {
                    assert(self@.frames[f as int].task == source);
                }
                return TaskState::Running;
            }
            f = f + 1;
        }
        TaskState::Idle
    }

    /// Returns the ceiling of cell `resource`, or `None` if no such cell is
    /// declared.
    pub fn ceiling_of(&self, resource: usize) -> (ceiling: Option<u8>)
        ensures
            ceiling == if resource < self@.config.ceilings.len() {
                Some(self@.config.ceilings[resource as int])
            } else {
                None
            },
    {
        if resource < self.cells.len() {
            Some(self.cells[resource].ceiling())
        } else {
            None
        }
    }

    /// Returns the priority of the task of interrupt source `source`, or
    /// `None` if no task is bound to the source.
    pub fn priority_of(&self, source: usize) -> (priority: Option<u8>)
        ensures
            priority == if source < self@.config.tasks.len() {
                Some(self@.priority(source as int))
            } else {
                None
            },
    {
        if source < self.tasks.len() {
            Some(self.tasks[source].priority)
        } else {
            None
        }
    }

    /// Returns the handler of the task of interrupt source `source`, or
    /// `None` if no task is bound to the source.
    pub fn handler_of(&self, source: usize) -> (handler: Option<&H>)
        ensures
            handler is Some <==> source < self.handlers().len(),
            handler matches Some(found) ==> *found == self.handlers()[source as int],
    {
        if source < self.tasks.len() {
            Some(&self.tasks[source].handler)
        } else {
            None
        }
    }

    /// Tells whether interrupts are enabled.
    pub fn is_enabled(&self) -> (enabled: bool)
        ensures
            enabled == self@.enabled,
    {
        self.enabled
    }

    /// Returns the priority at which the processor runs.
    pub fn threshold(&self) -> (threshold: u8)
        ensures
            threshold == self@.threshold,
    {
        self.threshold
    }

    /// Returns the number of resource cells.
    pub fn resource_count(&self) -> (count: usize)
        ensures
            count == self@.config.ceilings.len(),
    {
        self.cells.len()
    }

    /// Returns the number of interrupt tasks.
    pub fn task_count(&self) -> (count: usize)
        ensures
            count == self@.config.tasks.len(),
    {
        self.tasks.len()
    }

    /// Returns how many task invocations are active: `0` while the idle task
    /// runs.
    pub fn depth(&self) -> (depth: usize)
        ensures
            depth == self@.depth(),
    {
        self.frames.len()
    }

    /// Returns the interrupt source whose task runs, or `None` while the
    /// idle task runs.
    pub fn running(&self) -> (task: Option<usize>)
        ensures
            task == self@.running(),
    {
        if self.frames.len() == 0 {
            None
        } else {
            Some(self.frames[self.frames.len() - 1].task)
        }
    }
}

/// A copy of a row of flags.
fn copy_flags(flags: &Vec<bool>) -> (copy: Vec<bool>)
    ensures
        copy@ == flags@,
{
    let mut copy: Vec<bool> = Vec::new();
    let mut i: usize = 0;
    while i < flags.len()
        invariant
            i <= flags@.len(),
            copy@ == flags@.take(i as int),
        decreases flags.len() - i,
    {
        copy.push(flags[i]);
        i = i + 1;
        proof {
            assert(copy@ =~= flags@.take(i as int));
        }
    }
    proof {
        assert(flags@.take(i as int) =~= flags@);
    }
    copy
}

/// A copy of a list of cell indices.
fn copy_ids(ids: &[usize]) -> (copy: Vec<usize>)
    ensures
        copy@ == ids@,
{
    let mut copy: Vec<usize> = Vec::new();
    let mut i: usize = 0;
    while i < ids.len()
        invariant
            i <= ids@.len(),
            copy@ == ids@.take(i as int),
        decreases ids.len() - i,
    {
        copy.push(ids[i]);
        i = i + 1;
        proof {
            assert(copy@ =~= ids@.take(i as int));
        }
    }
    proof {
        assert(ids@.take(i as int) =~= ids@);
    }
    copy
}

/// A row of `len` flags, none of them set.
fn all_false(len: usize) -> (flags: Vec<bool>)
    ensures
        flags@.len() == len,
        forall|i: int| 0 <= i < len ==> !#[trigger] flags@[i],
{
    let mut flags: Vec<bool> = Vec::new();
    while flags.len() < len
        invariant
            flags@.len() <= len,
            forall|i: int| 0 <= i < flags@.len() ==> !#[trigger] flags@[i],
        decreases len - flags@.len(),
    {
        flags.push(false);
    }
    flags
}

} // verus!
