//! The stages of a frame and the systems each runs, in an order that
//! respects their `before` / `after` constraints.

use vstd::prelude::*;
use crate::ecs::schedule::{
    constraint_count, dependency_edges, is_permutation, lists_view, names_view, order_result, respects,
    system_order,
};

verus! {
/// The stages of a frame. `Startup` runs once, in the first frame; the
/// others run every frame in the order `Stage::runtime_order` gives.
#[derive(Clone, Copy, Debug, PartialEq, Eq, Hash, Structural)]
pub enum Stage {
    Startup,
    PreUpdate,
    Update,
    PostUpdate,
    Render,
}

/// The stages that run every frame, in order.
pub open spec fn runtime_stages() -> Seq<Stage> {
    seq![Stage::PreUpdate, Stage::Update, Stage::PostUpdate, Stage::Render]
}

/// The stages a frame runs, in order: the startup stage first unless it
/// has already run, then the runtime stages.
pub open spec fn frame_stages(startup_done: bool) -> Seq<Stage> {
    if startup_done {
        runtime_stages()
    } else {
        seq![Stage::Startup] + runtime_stages()
    }
}

/// The startup stage runs in the first frame, first, and in no later
/// frame; every frame runs the runtime stages in the same order.
pub proof fn lemma_startup_once()
    ensures
        frame_stages(false)[0] == Stage::Startup,
        !frame_stages(true).contains(Stage::Startup),
        frame_stages(false).drop_first() == frame_stages(true),
        frame_stages(true) == seq![Stage::PreUpdate, Stage::Update, Stage::PostUpdate, Stage::Render],
{
    assert(frame_stages(false).drop_first() =~= frame_stages(true));
    assert(frame_stages(true)[0] != Stage::Startup);
    assert(frame_stages(true)[1] != Stage::Startup);
    assert(frame_stages(true)[2] != Stage::Startup);
    assert(frame_stages(true)[3] != Stage::Startup);
}

impl Stage {
    /// The stages that run every frame, in order (`Startup` excluded: it
    /// runs only once).
    pub fn runtime_order() -> (r: Vec<Stage>)
        ensures
            r@ == runtime_stages(),
    {
        let mut v: Vec<Stage> = Vec::new();
        v.push(Stage::PreUpdate);
        v.push(Stage::Update);
        v.push(Stage::PostUpdate);
        v.push(Stage::Render);
        proof {
            assert(v@ =~= runtime_stages());
        }
        v
    }
}

/// Constraint counts that differ only at `idx`, by `d`, add up to totals
/// that differ by `d` (or not at all when `idx` lies beyond `k`).
proof fn lemma_count_shift(
    b: Seq<Seq<Seq<char>>>,
    a: Seq<Seq<Seq<char>>>,
    b2: Seq<Seq<Seq<char>>>,
    a2: Seq<Seq<Seq<char>>>,
    idx: int,
    d: int,
    k: int,
)
    requires
        0 <= k,
        forall|j: int| 0 <= j < k && j != idx ==> b2[j].len() + a2[j].len() == b[j].len() + a[j].len(),
        0 <= idx < k ==> b2[idx].len() + a2[idx].len() == b[idx].len() + a[idx].len() + d,
    ensures
        constraint_count(b2, a2, k) == constraint_count(b, a, k) + if 0 <= idx < k { d } else { 0 },
    decreases k,
{
    if k > 0 {
        lemma_count_shift(b, a, b2, a2, idx, d, k - 1);
    }
}

/// The systems of one stage, their constraints, and the order last
/// computed for them (dropped whenever they change).
struct StageSystems {
    names: Vec<String>,
    before: Vec<Vec<String>>,
    after: Vec<Vec<String>>,
    constraints: usize,
    cached: Option<Vec<usize>>,
}

impl StageSystems {
    spec fn names_v(&self) -> Seq<Seq<char>> {
        names_view(self.names@)
    }

    spec fn before_v(&self) -> Seq<Seq<Seq<char>>> {
        lists_view(self.before@)
    }

    spec fn after_v(&self) -> Seq<Seq<Seq<char>>> {
        lists_view(self.after@)
    }

    spec fn edges_v(&self) -> Seq<(int, int)> {
        dependency_edges(self.names_v(), self.before_v(), self.after_v(), self.names@.len() as int)
    }

    /// One constraint list of each kind per system, the constraints
    /// counted, and a cached order, when there is one, that runs each
    /// system after those it must follow.
    #[verifier::type_invariant]
    spec fn well_formed(&self) -> bool {
        &&& self.before@.len() == self.names@.len()
        &&& self.after@.len() == self.names@.len()
        &&& self.constraints == constraint_count(self.before_v(), self.after_v(), self.names@.len() as int)
        &&& self.cached matches Some(o) ==> is_permutation(o@, self.names@.len() as int) && respects(
            o@,
            self.edges_v(),
        )
    }

    fn empty() -> (r: Self)
        ensures
            r.names_v() == Seq::<Seq<char>>::empty(),
            r.before_v() == Seq::<Seq<Seq<char>>>::empty(),
            r.after_v() == Seq::<Seq<Seq<char>>>::empty(),
    {
        let r = StageSystems { names: Vec::new(), before: Vec::new(), after: Vec::new(), constraints: 0, cached: None };
        proof {
            assert(r.names_v() =~= Seq::<Seq<char>>::empty());
            assert(r.before_v() =~= Seq::<Seq<Seq<char>>>::empty());
            assert(r.after_v() =~= Seq::<Seq<Seq<char>>>::empty());
        }
        r
    }

    fn constraint_total(&self) -> (r: usize)
        ensures
            r == constraint_count(self.before_v(), self.after_v(), self.names_v().len() as int),
    {
        proof {
            use_type_invariant(self);
        }
        self.constraints
    }

    fn add(&mut self, name: &str) -> (idx: usize)
        ensures
            idx == old(self).names_v().len(),
            final(self).names_v() == old(self).names_v().push(name@),
            final(self).before_v() == old(self).before_v().push(Seq::empty()),
            final(self).after_v() == old(self).after_v().push(Seq::empty()),
    {
        let mut t = StageSystems::empty();
        std::mem::swap(&mut t, self);
        proof {
            use_type_invariant(&t);
        }
        let ghost b = t.before_v();
        let ghost a = t.after_v();
        let ghost n = t.names@.len() as int;
        let StageSystems { mut names, mut before, mut after, constraints, cached: _ } = t;
        let idx = names.len();
        names.push(name.to_owned());
        before.push(Vec::new());
        after.push(Vec::new());
        proof {
            assert(before@[n]@.map_values(|x: String| x@) =~= Seq::<Seq<char>>::empty());
            assert(after@[n]@.map_values(|x: String| x@) =~= Seq::<Seq<char>>::empty());
            assert(lists_view(before@) =~= b.push(Seq::empty()));
            assert(lists_view(after@) =~= a.push(Seq::empty()));
            lemma_count_shift(b, a, lists_view(before@), lists_view(after@), -1, 0, n);
        }
        *self = StageSystems { names, before, after, constraints, cached: None };
        proof {
            assert(self.names_v() =~= old(self).names_v().push(name@));
        }
        idx
    }

    fn constrain(&mut self, idx: usize, name: &str, runs_first: bool)
        requires
            idx < old(self).names_v().len(),
            constraint_count(old(self).before_v(), old(self).after_v(), old(self).names_v().len() as int)
                < usize::MAX,
        ensures
            final(self).names_v() == old(self).names_v(),
            runs_first ==> final(self).before_v() == old(self).before_v().update(
                idx as int,
                old(self).before_v()[idx as int].push(name@),
            ) && final(self).after_v() == old(self).after_v(),
            !runs_first ==> final(self).after_v() == old(self).after_v().update(
                idx as int,
                old(self).after_v()[idx as int].push(name@),
            ) && final(self).before_v() == old(self).before_v(),
    {
        let mut t = StageSystems::empty();
        std::mem::swap(&mut t, self);
        proof {
            use_type_invariant(&t);
        }
        let ghost b = t.before_v();
        let ghost a = t.after_v();
        let ghost n = t.names@.len() as int;
        let StageSystems { names, mut before, mut after, constraints, cached: _ } = t;
        if runs_first {
            before[idx].push(name.to_owned());
            proof {
                assert(before@[idx as int]@.map_values(|x: String| x@) =~= b[idx as int].push(name@));
                assert(lists_view(before@) =~= b.update(idx as int, b[idx as int].push(name@)));
                lemma_count_shift(b, a, lists_view(before@), a, idx as int, 1, n);
            }
        } else {
            after[idx].push(name.to_owned());
            proof {
                assert(after@[idx as int]@.map_values(|x: String| x@) =~= a[idx as int].push(name@));
                assert(lists_view(after@) =~= a.update(idx as int, a[idx as int].push(name@)));
                lemma_count_shift(b, a, b, lists_view(after@), idx as int, 1, n);
            }
        }
        *self = StageSystems { names, before, after, constraints: constraints + 1, cached: None };
    }

    fn order(&mut self) -> (r: Result<Vec<usize>, Vec<usize>>)
        ensures
            final(self).names_v() == old(self).names_v(),
            final(self).before_v() == old(self).before_v(),
            final(self).after_v() == old(self).after_v(),
            order_result(r, old(self).names_v().len() as int, old(self).edges_v()),
    {
        proof {
            use_type_invariant(&*self);
        }
        match &self.cached {
            Some(o) => {
                return Ok(o.clone());
            },
            None => {},
        }
        let r = system_order(self.names.as_slice(), self.before.as_slice(), self.after.as_slice());
        match &r {
            Ok(o) => {
                self.cached = Some(o.clone());
            },
            Err(_) => {},
        }
        r
    }
}



/// A schedule: the systems of each stage, by name, with their ordering
/// constraints, and whether the startup stage has had its frame.
pub struct Schedule {
    startup: StageSystems,
    pre_update: StageSystems,
    update: StageSystems,
    post_update: StageSystems,
    render: StageSystems,
    startup_done: bool,
}

/// A system just added to a schedule: its stage and its index there, to
/// which ordering constraints can be attached.
#[derive(Clone, Copy, Debug)]
pub struct SystemBuilder {
    pub stage: Stage,
    pub index: usize,
}

/// Stage `s` of `a` and of `b` hold the same systems and constraints.
pub open spec fn same_stage(a: Schedule, b: Schedule, s: Stage) -> bool {
    &&& a.names(s) == b.names(s)
    &&& a.befores(s) == b.befores(s)
    &&& a.afters(s) == b.afters(s)
}

impl Schedule {
    spec fn systems_of(&self, s: Stage) -> StageSystems {
        match s {
            Stage::Startup => self.startup,
            Stage::PreUpdate => self.pre_update,
            Stage::Update => self.update,
            Stage::PostUpdate => self.post_update,
            Stage::Render => self.render,
        }
    }

    /// The names of the systems of stage `s`, in the order they were added.
    pub closed spec fn names(&self, s: Stage) -> Seq<Seq<char>> {
        self.systems_of(s).names_v()
    }

    /// For each system of stage `s`, the names it must run before.
    pub closed spec fn befores(&self, s: Stage) -> Seq<Seq<Seq<char>>> {
        self.systems_of(s).before_v()
    }

    /// For each system of stage `s`, the names it must run after.
    pub closed spec fn afters(&self, s: Stage) -> Seq<Seq<Seq<char>>> {
        self.systems_of(s).after_v()
    }

    /// Has the startup stage had its frame?
    pub closed spec fn startup_done(&self) -> bool {
        self.startup_done
    }

    /// The "runs before" edges of stage `s`.
    pub open spec fn edges(&self, s: Stage) -> Seq<(int, int)> {
        dependency_edges(self.names(s), self.befores(s), self.afters(s), self.names(s).len() as int)
    }

    /// The number of constraints attached to the systems of stage `s`.
    pub open spec fn constraints(&self, s: Stage) -> int {
        constraint_count(self.befores(s), self.afters(s), self.names(s).len() as int)
    }

    /// An empty schedule whose startup stage is still to run.
    pub fn new() -> (r: Self)
        ensures
            forall|s: Stage|
                #![trigger r.names(s)]
                r.names(s).len() == 0 && r.befores(s).len() == 0 && r.afters(s).len() == 0,
            !r.startup_done(),
    {
        Schedule {
            startup: StageSystems::empty(),
            pre_update: StageSystems::empty(),
            update: StageSystems::empty(),
            post_update: StageSystems::empty(),
            render: StageSystems::empty(),
            startup_done: false,
        }
    }

    /// Add the system `name` at the end of `stage`, with no constraints;
    /// the returned builder attaches them.
    pub fn add_system(&mut self, stage: Stage, name: &str) -> (b: SystemBuilder)
        ensures
            b.stage == stage,
            b.index == old(self).names(stage).len(),
            final(self).names(stage) == old(self).names(stage).push(name@),
            final(self).befores(stage) == old(self).befores(stage).push(Seq::empty()),
            final(self).afters(stage) == old(self).afters(stage).push(Seq::empty()),
            forall|t: Stage| t != stage ==> #[trigger] same_stage(*final(self), *old(self), t),
            final(self).startup_done() == old(self).startup_done(),
    {
        let index = match stage {
            Stage::Startup => self.startup.add(name),
            Stage::PreUpdate => self.pre_update.add(name),
            Stage::Update => self.update.add(name),
            Stage::PostUpdate => self.post_update.add(name),
            Stage::Render => self.render.add(name),
        };
        SystemBuilder { stage, index }
    }

    fn constrain(&mut self, stage: Stage, index: usize, name: &str, runs_first: bool)
        requires
            index < old(self).names(stage).len(),
            old(self).constraints(stage) < usize::MAX,
        ensures
            final(self).names(stage) == old(self).names(stage),
            runs_first ==> final(self).befores(stage) == old(self).befores(stage).update(
                index as int,
                old(self).befores(stage)[index as int].push(name@),
            ) && final(self).afters(stage) == old(self).afters(stage),
            !runs_first ==> final(self).afters(stage) == old(self).afters(stage).update(
                index as int,
                old(self).afters(stage)[index as int].push(name@),
            ) && final(self).befores(stage) == old(self).befores(stage),
            forall|t: Stage| t != stage ==> #[trigger] same_stage(*final(self), *old(self), t),
            final(self).startup_done() == old(self).startup_done(),
    {
        match stage {
            Stage::Startup => self.startup.constrain(index, name, runs_first),
            Stage::PreUpdate => self.pre_update.constrain(index, name, runs_first),
            Stage::Update => self.update.constrain(index, name, runs_first),
            Stage::PostUpdate => self.post_update.constrain(index, name, runs_first),
            Stage::Render => self.render.constrain(index, name, runs_first),
        }
    }

    /// The order in which the systems of `stage` run: each after those it
    /// must follow. When no such order exists, `Err` holds the systems
    /// that can never run. A computed order is kept until the stage
    /// changes.
    pub fn stage_order(&mut self, stage: Stage) -> (r: Result<Vec<usize>, Vec<usize>>)
        ensures
            forall|t: Stage| #[trigger] same_stage(*final(self), *old(self), t),
            final(self).startup_done() == old(self).startup_done(),
            order_result(r, old(self).names(stage).len() as int, old(self).edges(stage)),
    {
        match stage {
            Stage::Startup => self.startup.order(),
            Stage::PreUpdate => self.pre_update.order(),
            Stage::Update => self.update.order(),
            Stage::PostUpdate => self.post_update.order(),
            Stage::Render => self.render.order(),
        }
    }

    /// Start a frame: the stages to run, in order. The first frame runs
    /// the startup stage before the others; later frames do not.
    pub fn begin_frame(&mut self) -> (r: Vec<Stage>)
        ensures
            r@ == frame_stages(old(self).startup_done()),
            final(self).startup_done(),
            forall|t: Stage| #[trigger] same_stage(*final(self), *old(self), t),
    {
        let mut stages: Vec<Stage> = Vec::new();
        if !self.startup_done {
            self.startup_done = true;
            stages.push(Stage::Startup);
        }
        let runtime = Stage::runtime_order();
        let ghost start = stages@;
        let mut i: usize = 0;
        while i < runtime.len()
            invariant
                i <= runtime@.len(),
                runtime@ == runtime_stages(),
                stages@ == start + runtime@.take(i as int),
            decreases runtime@.len() - i,
        {
            stages.push(runtime[i]);
            i = i + 1;
            proof {
                assert(runtime@.take(i as int) =~= runtime@.take(i - 1).push(runtime@[i - 1]));
            }
        }
        proof {
            assert(runtime@.take(runtime@.len() as int) =~= runtime@);
        }
        stages
    }
}

impl SystemBuilder {
    /// Require this system to run before the system called `name` (a name
    /// that no system of the stage has is ignored when ordering).
    pub fn before(self, schedule: &mut Schedule, name: &str) -> (r: SystemBuilder)
        requires
            self.index < old(schedule).names(self.stage).len(),
            old(schedule).constraints(self.stage) < usize::MAX,
        ensures
            r == self,
            final(schedule).names(self.stage) == old(schedule).names(self.stage),
            final(schedule).befores(self.stage) == old(schedule).befores(self.stage).update(
                self.index as int,
                old(schedule).befores(self.stage)[self.index as int].push(name@),
            ),
            final(schedule).afters(self.stage) == old(schedule).afters(self.stage),
            forall|t: Stage| t != self.stage ==> #[trigger] same_stage(*final(schedule), *old(schedule), t),
            final(schedule).startup_done() == old(schedule).startup_done(),
    {
        schedule.constrain(self.stage, self.index, name, true);
        self
    }

    /// Require this system to run after the system called `name` (a name
    /// that no system of the stage has is ignored when ordering).
    pub fn after(self, schedule: &mut Schedule, name: &str) -> (r: SystemBuilder)
        requires
            self.index < old(schedule).names(self.stage).len(),
            old(schedule).constraints(self.stage) < usize::MAX,
        ensures
            r == self,
            final(schedule).names(self.stage) == old(schedule).names(self.stage),
            final(schedule).afters(self.stage) == old(schedule).afters(self.stage).update(
                self.index as int,
                old(schedule).afters(self.stage)[self.index as int].push(name@),
            ),
            final(schedule).befores(self.stage) == old(schedule).befores(self.stage),
            forall|t: Stage| t != self.stage ==> #[trigger] same_stage(*final(schedule), *old(schedule), t),
            final(schedule).startup_done() == old(schedule).startup_done(),
    {
        schedule.constrain(self.stage, self.index, name, false);
        self
    }
}

} // verus!
