//! Which changed artifacts are reloaded in place.
//!
//! Every artifact declares the names that it depends on. A change is accepted where it reaches an
//! artifact over its dependencies, and declined where it does not.

use crate::dict::{assign, lookup, lookup_after_assign, Dict};
use crate::names::NameSet;
use crate::text::{contains_text, texts};
use vstd::prelude::*;

verus! {

/// One plugin artifact and its declared dependencies.
pub struct Artifact {
    /// Stable plugin name.
    pub name: String,
    /// Declared dependencies.
    pub deps: Vec<String>,
}

/// What an artifact is.
pub struct ArtifactView {
    pub name: Seq<char>,
    pub deps: Seq<Seq<char>>,
}

impl View for Artifact {
    type V = ArtifactView;

    open spec fn view(&self) -> ArtifactView {
        ArtifactView { name: self.name@, deps: texts(self.deps@) }
    }
}

/// The artifacts by name, and by what they depend on.
pub struct DependencyGraph {
    artifacts: Dict<Artifact>,
    dependents: Dict<NameSet>,
}

/// What a graph holds: the artifacts, and the names of those that depend on a name.
pub struct GraphView {
    pub artifacts: Artifacts,
    pub dependents: Dependents,
}

impl View for DependencyGraph {
    type V = GraphView;

    closed spec fn view(&self) -> GraphView {
        GraphView { artifacts: self.artifacts@, dependents: self.dependents@ }
    }
}

/// The artifacts of a change, sorted into those that are reloaded and those that are not.
pub struct Classification {
    /// Artifacts that are reloaded.
    pub accepted: NameSet,
    /// Artifacts that are not.
    pub declined: NameSet,
}

/// The artifacts by name.
pub type Artifacts = Seq<(Seq<char>, ArtifactView)>;

/// The names of the artifacts that depend on a name, by that name.
pub type Dependents = Seq<(Seq<char>, Set<Seq<char>>)>;

/// The names of the artifacts that depend on `dep`.
pub open spec fn dependents_of(dependents: Dependents, dep: Seq<char>) -> Set<Seq<char>> {
    match lookup(dependents, dep) {
        Some(names) => names,
        None => Set::empty(),
    }
}

/// The dependents with `name` noted under each of `deps`.
pub open spec fn noted(dependents: Dependents, deps: Seq<Seq<char>>, name: Seq<char>) -> Dependents
    decreases deps.len(),
{
    if deps.len() == 0 {
        dependents
    } else {
        let rest = noted(dependents, deps.drop_last(), name);
        assign(rest, deps.last(), dependents_of(rest, deps.last()).insert(name))
    }
}

/// Each dependency gains the name, every other name keeps its dependents.
proof fn lemma_noted(
    dependents: Dependents,
    deps: Seq<Seq<char>>,
    name: Seq<char>,
    dep: Seq<char>,
)
    ensures
        dependents_of(noted(dependents, deps, name), dep) == (if deps.contains(dep) {
            dependents_of(dependents, dep).insert(name)
        } else {
            dependents_of(dependents, dep)
        }),
    decreases deps.len(),
{
    if deps.len() > 0 {
        let front = deps.drop_last();
        let rest = noted(dependents, front, name);
        lemma_noted(dependents, front, name, dep);
        lookup_after_assign(
            rest,
            deps.last(),
            dependents_of(rest, deps.last()).insert(name),
            dep,
        );
        if front.contains(dep) {
            let i = choose|i: int| 0 <= i < front.len() && front[i] == dep;
            assert(deps[i] == dep);
        }
        if dep == deps.last() {
            assert(deps[deps.len() - 1] == dep);
            assert(dependents_of(dependents, dep).insert(name).insert(name) =~= dependents_of(
                dependents,
                dep,
            ).insert(name));
        } else if deps.contains(dep) {
            let i = choose|i: int| 0 <= i < deps.len() && deps[i] == dep;
            assert(front[i] == dep);
        }
    }
}

/// A graph with an artifact added.
pub open spec fn with_artifact(graph: GraphView, artifact: ArtifactView) -> GraphView {
    GraphView {
        artifacts: assign(graph.artifacts, artifact.name, artifact),
        dependents: noted(graph.dependents, artifact.deps, artifact.name),
    }
}

/// The dependents of a library are those that were noted before, and the new one where it depends
/// on the library. What nothing depends on has none.
pub proof fn dependents_are_noted(
    graph: GraphView,
    artifact: ArtifactView,
    dep: Seq<char>,
    name: Seq<char>,
)
    ensures
        dependents_of(with_artifact(graph, artifact).dependents, dep).contains(name) <==> {
            ||| dependents_of(graph.dependents, dep).contains(name)
            ||| name == artifact.name && artifact.deps.contains(dep)
        },
        lookup(graph.dependents, dep) is None ==> !dependents_of(graph.dependents, dep).contains(
            name,
        ),
        lookup(graph.dependents, dep) is Some ==> dependents_of(graph.dependents, dep) == lookup(
            graph.dependents,
            dep,
        )->0,
{
    lemma_noted(graph.dependents, artifact.deps, artifact.name, dep);
}

/// Whether every artifact is a dependent of all that it depends on.
pub open spec fn is_indexed(graph: GraphView) -> bool {
    forall|name: Seq<char>, i: int|
        is_artifact(graph.artifacts, name) && 0 <= i < deps_of(graph.artifacts, name).len()
            ==> dependents_of(
            graph.dependents,
            #[trigger] deps_of(graph.artifacts, name)[i],
        ).contains(name)
}

/// Adding artifacts to a graph keeps every artifact a dependent of all that it depends on.
pub proof fn added_artifacts_are_indexed(graph: GraphView, artifact: ArtifactView)
    requires
        is_indexed(graph),
    ensures
        is_indexed(with_artifact(graph, artifact)),
{
    let after = with_artifact(graph, artifact);
    assert forall|name: Seq<char>, i: int|
        is_artifact(after.artifacts, name) && 0 <= i < deps_of(
            after.artifacts,
            name,
        ).len() implies dependents_of(
        after.dependents,
        #[trigger] deps_of(after.artifacts, name)[i],
    ).contains(name) by {
        let dep = deps_of(after.artifacts, name)[i];
        lookup_after_assign(graph.artifacts, artifact.name, artifact, name);
        lemma_noted(graph.dependents, artifact.deps, artifact.name, dep);
        if name == artifact.name {
            assert(artifact.deps.contains(dep));
        } else {
            assert(dep == deps_of(graph.artifacts, name)[i]);
        }
    }
}

/// Whether the graph has an artifact of this name.
pub open spec fn is_artifact(graph: Artifacts, name: Seq<char>) -> bool {
    lookup(graph, name) is Some
}

/// What an artifact depends on; nothing where there is no artifact of this name.
pub open spec fn deps_of(graph: Artifacts, name: Seq<char>) -> Seq<Seq<char>> {
    match lookup(graph, name) {
        Some(artifact) => artifact.deps,
        None => Seq::empty(),
    }
}

/// A change: what changed itself, and what belongs to the framework.
pub struct Change {
    pub graph: Artifacts,
    pub stashed: Set<Seq<char>>,
    pub externals: Set<Seq<char>>,
}

impl Change {
    /// Whether the name is neither changed itself nor part of the framework.
    pub open spec fn is_open(self, name: Seq<char>) -> bool {
        !self.stashed.contains(name) && !self.externals.contains(name)
    }

    /// Whether a dependency of `name`, over at most `steps` open names in between, is changed
    /// itself. Framework names lead nowhere.
    pub open spec fn reached_within(self, name: Seq<char>, steps: nat) -> bool
        decreases steps,
    {
        exists|i: int|
            0 <= i < deps_of(self.graph, name).len() && !self.externals.contains(
                #[trigger] deps_of(self.graph, name)[i],
            ) && (self.stashed.contains(deps_of(self.graph, name)[i]) || (steps > 0
                && self.reached_within(deps_of(self.graph, name)[i], (steps - 1) as nat)))
    }

    /// Whether the change reaches the artifact over its dependencies.
    pub open spec fn reached(self, name: Seq<char>) -> bool {
        exists|steps: nat| self.reached_within(name, steps)
    }

    /// Whether the name is accepted: changed itself, or an artifact that the change reaches.
    pub open spec fn is_accepted(self, name: Seq<char>) -> bool {
        self.stashed.contains(name) || (self.is_open(name) && self.reached(name))
    }
}

/// Whether `declined` is what a change declines. The framework is declined, and every artifact
/// that is not accepted, together with all that it depends on. Beyond these only names that some
/// open artifact depends on, and that are neither changed nor reached, may be declined.
pub open spec fn declines(change: Change, declined: Set<Seq<char>>) -> bool {
    &&& forall|name: Seq<char>| #[trigger]
        change.externals.contains(name) ==> declined.contains(name)
    &&& forall|name: Seq<char>|
        #![trigger is_artifact(change.graph, name)]
        is_artifact(change.graph, name) && !change.is_accepted(name) ==> declined.contains(name)
    &&& forall|name: Seq<char>, i: int|
        is_artifact(change.graph, name) && change.is_open(name) && !change.is_accepted(name) && 0
            <= i < deps_of(change.graph, name).len() ==> declined.contains(
            #[trigger] deps_of(change.graph, name)[i],
        )
    &&& forall|name: Seq<char>| #[trigger]
        declined.contains(name) && !change.externals.contains(name) ==> change.is_open(name)
            && !change.is_accepted(name) && (is_artifact(change.graph, name) || is_named(
            change,
            name,
        ))
}

/// Whether some open artifact depends on `name`.
pub open spec fn is_named(change: Change, name: Seq<char>) -> bool {
    exists|by: Seq<char>|
        is_artifact(change.graph, by) && change.is_open(by) && #[trigger] deps_of(
            change.graph,
            by,
        ).contains(name)
}

impl DependencyGraph {
    /// The graph without artifacts.
    pub fn new() -> (r: DependencyGraph)
        ensures
            r@ == (GraphView { artifacts: Seq::empty(), dependents: Seq::empty() }),
            is_indexed(r@),
    {
        DependencyGraph { artifacts: Dict::new(), dependents: Dict::new() }
    }

    /// Adds an artifact and its declared dependencies.
    pub fn add(&mut self, artifact: Artifact)
        ensures
            final(self)@ == with_artifact(old(self)@, artifact@),
            forall|dep: Seq<char>| #[trigger]
                dependents_of(final(self)@.dependents, dep) == (if artifact@.deps.contains(dep) {
                    dependents_of(old(self)@.dependents, dep).insert(artifact.name@)
                } else {
                    dependents_of(old(self)@.dependents, dep)
                }),
    {
        let ghost start = self.dependents@;
        let ghost all = artifact@.deps;
        let name = artifact.name.clone();
        let mut i: usize = 0;
        assert(all.take(0) =~= Seq::<Seq<char>>::empty());
        while i < artifact.deps.len()
            invariant
                i <= artifact.deps@.len(),
                all == texts(artifact.deps@),
                name@ == artifact.name@,
                self.artifacts@ == old(self)@.artifacts,
                self.dependents@ == noted(start, all.take(i as int), name@),
            decreases artifact.deps@.len() - i,
        {
            assert(all.take(i + 1).drop_last() =~= all.take(i as int));
            let dep = &artifact.deps[i];
            assert(all.take(i + 1).last() == dep@);
            let mut names = match self.dependents.get(dep.as_str()) {
                Some(names) => NameSet::from_list(names.list()),
                None => NameSet::new(),
            };
            names.insert(name.clone());
            self.dependents.insert(dep.clone(), names);
            i += 1;
        }
        assert(all.take(i as int) =~= all);
        self.artifacts.insert(name, artifact);
        proof {
            assert forall|dep: Seq<char>| #[trigger] dependents_of(self.dependents@, dep) == (
            if all.contains(dep) {
                dependents_of(start, dep).insert(name@)
            } else {
                dependents_of(start, dep)
            }) by {
                lemma_noted(start, all, name@, dep);
            }
        }
    }

    /// Whether the artifact `name` was added with `dep` among its dependencies.
    pub fn has_dependent(&self, dep: &str, name: &str) -> (r: bool)
        ensures
            r == dependents_of(self@.dependents, dep@).contains(name@),
    {
        match self.dependents.get(dep) {
            Some(names) => names.contains(name),
            None => false,
        }
    }
}

impl Default for DependencyGraph {
    fn default() -> (r: DependencyGraph)
        ensures
            r@ == (GraphView { artifacts: Seq::empty(), dependents: Seq::empty() }),
    {
        DependencyGraph::new()
    }
}

/// What holds all along the classification.
spec fn sorted_so_far(
    change: Change,
    accepted: Set<Seq<char>>,
    declined: Set<Seq<char>>,
    pending: Seq<Seq<char>>,
) -> bool {
    &&& forall|name: Seq<char>| #[trigger]
        accepted.contains(name) ==> change.is_accepted(name) && (change.stashed.contains(name)
            || is_artifact(change.graph, name))
    &&& forall|name: Seq<char>| #[trigger]
        change.stashed.contains(name) ==> accepted.contains(name)
    &&& forall|name: Seq<char>| #[trigger]
        change.externals.contains(name) ==> declined.contains(name)
    &&& forall|name: Seq<char>| #[trigger]
        declined.contains(name) && !change.externals.contains(name) ==> change.is_open(name)
            && !change.reached(name) && (is_artifact(change.graph, name) || is_named(change, name))
    &&& forall|name: Seq<char>, i: int|
        declined.contains(name) && !change.externals.contains(name) && 0 <= i < deps_of(
            change.graph,
            name,
        ).len() ==> declined.contains(#[trigger] deps_of(change.graph, name)[i])
    &&& forall|i: int|
        0 <= i < pending.len() ==> change.is_open(#[trigger] pending[i]) && !accepted.contains(
            pending[i],
        ) && !declined.contains(pending[i]) && (is_artifact(change.graph, pending[i]) || is_named(
            change,
            pending[i],
        ))
    &&& forall|name: Seq<char>|
        #![trigger is_artifact(change.graph, name)]
        is_artifact(change.graph, name) ==> accepted.contains(name) || declined.contains(name)
            || pending.contains(name)
    &&& pending.no_duplicates()
}

/// No dependency of `name` decides it: each is declined or pending.
spec fn is_undecided(
    change: Change,
    accepted: Set<Seq<char>>,
    declined: Set<Seq<char>>,
    pending: Seq<Seq<char>>,
    name: Seq<char>,
) -> bool {
    forall|i: int|
        0 <= i < deps_of(change.graph, name).len() ==> declined.contains(
            #[trigger] deps_of(change.graph, name)[i],
        ) || (!accepted.contains(deps_of(change.graph, name)[i]) && pending.contains(
            deps_of(change.graph, name)[i],
        ))
}

/// Names that are all undecided among themselves are not reached.
proof fn lemma_undecided_unreached(
    change: Change,
    accepted: Set<Seq<char>>,
    declined: Set<Seq<char>>,
    pending: Seq<Seq<char>>,
    name: Seq<char>,
    steps: nat,
)
    requires
        sorted_so_far(change, accepted, declined, pending),
        forall|j: int|
            0 <= j < pending.len() ==> is_undecided(
                change,
                accepted,
                declined,
                pending,
                #[trigger] pending[j],
            ),
        pending.contains(name),
    ensures
        !change.reached_within(name, steps),
    decreases steps,
{
    let deps = deps_of(change.graph, name);
    let at = choose|j: int| 0 <= j < pending.len() && pending[j] == name;
    assert(is_undecided(change, accepted, declined, pending, pending[at]));
    assert forall|i: int|
        0 <= i < deps.len() && !change.externals.contains(#[trigger] deps[i]) implies !(
    change.stashed.contains(deps[i]) || (steps > 0 && change.reached_within(
        deps[i],
        (steps - 1) as nat,
    ))) by {
        if declined.contains(deps[i]) {
            assert(!change.reached(deps[i]));
        } else {
            assert(pending.contains(deps[i]));
            if steps > 0 {
                lemma_undecided_unreached(
                    change,
                    accepted,
                    declined,
                    pending,
                    deps[i],
                    (steps - 1) as nat,
                );
            }
        }
    }
}

/// A name all of whose dependencies are declined is not reached.
proof fn lemma_declined_unreached(
    change: Change,
    accepted: Set<Seq<char>>,
    declined: Set<Seq<char>>,
    pending: Seq<Seq<char>>,
    name: Seq<char>,
)
    requires
        sorted_so_far(change, accepted, declined, pending),
        forall|i: int|
            0 <= i < deps_of(change.graph, name).len() ==> declined.contains(
                #[trigger] deps_of(change.graph, name)[i],
            ),
    ensures
        !change.reached(name),
{
    assert forall|steps: nat| !change.reached_within(name, steps) by {
        let deps = deps_of(change.graph, name);
        assert forall|i: int|
            0 <= i < deps.len() && !change.externals.contains(#[trigger] deps[i]) implies !(
        change.stashed.contains(deps[i]) || (steps > 0 && change.reached_within(
            deps[i],
            (steps - 1) as nat,
        ))) by {
            assert(declined.contains(deps[i]));
            assert(!change.reached(deps[i]));
        }
    }
}

/// A name with an accepted dependency that is not declined is reached.
proof fn lemma_accepted_reached(
    change: Change,
    accepted: Set<Seq<char>>,
    declined: Set<Seq<char>>,
    pending: Seq<Seq<char>>,
    name: Seq<char>,
    i: int,
)
    requires
        sorted_so_far(change, accepted, declined, pending),
        0 <= i < deps_of(change.graph, name).len(),
        accepted.contains(deps_of(change.graph, name)[i]),
        !declined.contains(deps_of(change.graph, name)[i]),
    ensures
        change.reached(name),
{
    let dep = deps_of(change.graph, name)[i];
    if change.stashed.contains(dep) {
        assert(change.reached_within(name, 0));
    } else {
        let steps = choose|steps: nat| change.reached_within(dep, steps);
        assert(change.reached_within(name, steps + 1));
    }
}

/// All names that occur in the graph.
spec fn names_in(graph: Artifacts) -> Seq<Seq<char>>
    decreases graph.len(),
{
    if graph.len() == 0 {
        Seq::empty()
    } else {
        names_in(graph.drop_last()).push(graph.last().0) + graph.last().1.deps
    }
}

proof fn lemma_names_in(graph: Artifacts, i: int)
    requires
        0 <= i < graph.len(),
    ensures
        names_in(graph).contains(graph[i].0),
        forall|j: int|
            0 <= j < graph[i].1.deps.len() ==> names_in(graph).contains(
                #[trigger] graph[i].1.deps[j],
            ),
    decreases graph.len(),
{
    let front = names_in(graph.drop_last());
    let all = names_in(graph);
    if i < graph.len() - 1 {
        lemma_names_in(graph.drop_last(), i);
        assert forall|name: Seq<char>| front.contains(name) implies all.contains(name) by {
            let k = choose|k: int| 0 <= k < front.len() && front[k] == name;
            assert(all[k] == name);
        }
        assert(graph.drop_last()[i] == graph[i]);
    } else {
        assert(all[front.len() as int] == graph[i].0);
        assert forall|j: int| 0 <= j < graph[i].1.deps.len() implies all.contains(
            #[trigger] graph[i].1.deps[j],
        ) by {
            assert(all[front.len() + 1 + j] == graph[i].1.deps[j]);
        }
    }
}

proof fn lemma_known_names(graph: Artifacts, name: Seq<char>)
    requires
        is_artifact(graph, name),
    ensures
        names_in(graph).contains(name),
        forall|i: int|
            0 <= i < deps_of(graph, name).len() ==> names_in(graph).contains(
                #[trigger] deps_of(graph, name)[i],
            ),
{
    crate::dict::lemma_place(graph, name);
    lemma_names_in(graph, crate::dict::place(graph, name));
}

/// The names that were neither sorted nor are pending.
spec fn unseen(
    graph: Artifacts,
    accepted: Set<Seq<char>>,
    declined: Set<Seq<char>>,
    pending: Seq<Seq<char>>,
) -> Set<Seq<char>> {
    names_in(graph).to_set().difference(accepted.union(declined).union(pending.to_set()))
}

/// What is left to do.
spec fn work_left(
    graph: Artifacts,
    accepted: Set<Seq<char>>,
    declined: Set<Seq<char>>,
    pending: Seq<Seq<char>>,
) -> nat {
    2 * unseen(graph, accepted, declined, pending).len() + pending.len()
}

proof fn lemma_unseen_finite(
    graph: Artifacts,
    accepted: Set<Seq<char>>,
    declined: Set<Seq<char>>,
    pending: Seq<Seq<char>>,
)
    ensures
        unseen(graph, accepted, declined, pending).finite(),
{
    vstd::seq_lib::seq_to_set_is_finite(names_in(graph));
}

/// A new pending name leaves less to do.
proof fn lemma_push_leaves_less(
    graph: Artifacts,
    accepted: Set<Seq<char>>,
    declined: Set<Seq<char>>,
    pending: Seq<Seq<char>>,
    name: Seq<char>,
)
    requires
        names_in(graph).contains(name),
        !accepted.contains(name),
        !declined.contains(name),
        !pending.contains(name),
    ensures
        work_left(graph, accepted, declined, pending.push(name)) + 1 == work_left(
            graph,
            accepted,
            declined,
            pending,
        ),
{
    lemma_unseen_finite(graph, accepted, declined, pending);
    crate::names::lemma_push_to_set(pending, name);
    let before = unseen(graph, accepted, declined, pending);
    let after = unseen(graph, accepted, declined, pending.push(name));
    assert(after =~= before.remove(name));
}

/// A pending name that is sorted leaves less to do.
proof fn lemma_sort_leaves_less(
    graph: Artifacts,
    accepted: Set<Seq<char>>,
    declined: Set<Seq<char>>,
    pending: Seq<Seq<char>>,
    i: int,
    accept: bool,
)
    requires
        0 <= i < pending.len(),
    ensures
        work_left(
            graph,
            if accept {
                accepted.insert(pending[i])
            } else {
                accepted
            },
            if accept {
                declined
            } else {
                declined.insert(pending[i])
            },
            pending.remove(i),
        ) + 1 == work_left(graph, accepted, declined, pending),
{
    let name = pending[i];
    let a = if accept {
        accepted.insert(name)
    } else {
        accepted
    };
    let d = if accept {
        declined
    } else {
        declined.insert(name)
    };
    let rest = pending.remove(i);
    assert forall|x: Seq<char>|
        a.union(d).union(rest.to_set()).contains(x) <==> accepted.union(declined).union(
            pending.to_set(),
        ).contains(x) by {
        if pending.contains(x) && x != name {
            let k = choose|k: int| 0 <= k < pending.len() && pending[k] == x;
            if k < i {
                assert(rest[k] == x);
            } else {
                assert(rest[k - 1] == x);
            }
        }
        if rest.contains(x) {
            let k = choose|k: int| 0 <= k < rest.len() && rest[k] == x;
            if k < i {
                assert(pending[k] == x);
            } else {
                assert(pending[k + 1] == x);
            }
        }
        assert(pending.contains(name));
    }
    assert(unseen(graph, a, d, rest) =~= unseen(graph, accepted, declined, pending));
}

/// The state of a classification under way.
struct Sorting {
    accepted: NameSet,
    declined: NameSet,
    pending: Vec<String>,
}

impl Sorting {
    spec fn is_good(self, change: Change) -> bool {
        sorted_so_far(change, self.accepted@, self.declined@, texts(self.pending@))
    }

    spec fn left(self, change: Change) -> nat {
        work_left(change.graph, self.accepted@, self.declined@, texts(self.pending@))
    }

    spec fn undecided(self, change: Change, name: Seq<char>) -> bool {
        is_undecided(change, self.accepted@, self.declined@, texts(self.pending@), name)
    }
}

/// Looks at the dependencies of the pending name at `index`, queues those that are not sorted yet,
/// and says whether one is accepted and whether all are declined.
fn examine(
    graph: &DependencyGraph,
    state: &mut Sorting,
    index: usize,
    Ghost(change): Ghost<Change>,
) -> (r: (bool, bool, bool))
    requires
        change.graph == graph@.artifacts,
        old(state).is_good(change),
        index < old(state).pending@.len(),
    ensures
        final(state).is_good(change),
        final(state).accepted@ == old(state).accepted@,
        final(state).declined@ == old(state).declined@,
        texts(final(state).pending@).len() >= texts(old(state).pending@).len(),
        texts(final(state).pending@).take(texts(old(state).pending@).len() as int) == texts(
            old(state).pending@,
        ),
        final(state).left(change) + (final(state).pending@.len() - old(state).pending@.len())
            == old(state).left(change),
        r.0 ==> change.reached(texts(old(state).pending@)[index as int]),
        !r.0 && r.1 ==> forall|i: int|
            0 <= i < deps_of(change.graph, texts(old(state).pending@)[index as int]).len()
                ==> final(state).declined@.contains(
                #[trigger] deps_of(change.graph, texts(old(state).pending@)[index as int])[i],
            ),
        !r.0 ==> final(state).undecided(change, texts(old(state).pending@)[index as int]),
        r.2 <==> final(state).pending@.len() > old(state).pending@.len(),
{
    let none: Vec<String> = Vec::new();
    let name = state.pending[index].clone();
    let ghost start = texts(state.pending@);
    let ghost own = start[index as int];
    assert(own == name@);
    let deps = match graph.artifacts.get(name.as_str()) {
        Some(artifact) => &artifact.deps,
        None => &none,
    };
    assert(texts(deps@) =~= deps_of(change.graph, own));
    let ghost all = deps_of(change.graph, own);
    let mut all_declined = true;
    let mut pushed = false;
    let mut i: usize = 0;
    assert(start.take(start.len() as int) =~= start);
    while i < deps.len()
        invariant
            i <= deps@.len(),
            change.graph == graph@.artifacts,
            all == texts(deps@),
            all == deps_of(change.graph, own),
            index < start.len(),
            own == start[index as int],
            start == texts(old(state).pending@),
            state.accepted@ == old(state).accepted@,
            state.declined@ == old(state).declined@,
            state.is_good(change),
            texts(state.pending@).len() >= start.len(),
            texts(state.pending@).take(start.len() as int) == start,
            state.left(change) + (state.pending@.len() - old(state).pending@.len()) == old(
                state,
            ).left(change),
            all_declined ==> forall|k: int|
                0 <= k < i ==> state.declined@.contains(#[trigger] all[k]),
            forall|k: int|
                0 <= k < i ==> state.declined@.contains(#[trigger] all[k]) || (
                !state.accepted@.contains(all[k]) && texts(state.pending@).contains(all[k])),
            pushed <==> state.pending@.len() > old(state).pending@.len(),
        decreases deps@.len() - i,
    {
        let dep = &deps[i];
        assert(all[i as int] == dep@);
        if !state.declined.contains(dep.as_str()) {
            if state.accepted.contains(dep.as_str()) {
                proof {
                    lemma_accepted_reached(
                        change,
                        state.accepted@,
                        state.declined@,
                        texts(state.pending@),
                        own,
                        i as int,
                    );
                }
                return (true, all_declined, pushed);
            }
            all_declined = false;
            if !contains_text(&state.pending, dep.as_str()) {
                pushed = true;
                let ghost before = texts(state.pending@);
                state.pending.push(dep.clone());
                proof {
                    let after = before.push(dep@);
                    assert(texts(state.pending@) =~= after);
                    assert(before.take(start.len() as int) =~= after.take(start.len() as int));
                    assert(before[index as int] == own) by {
                        assert(before.take(start.len() as int)[index as int] == own);
                    }
                    lemma_one_more(change, state.accepted@, state.declined@, before, own, i as int);
                }
            } else {
                assert(texts(state.pending@).contains(all[i as int]));
            }
        }
        i += 1;
    }
    (false, all_declined, pushed)
}

/// An unsorted dependency of a pending name can be queued.
proof fn lemma_one_more(
    change: Change,
    accepted: Set<Seq<char>>,
    declined: Set<Seq<char>>,
    pending: Seq<Seq<char>>,
    own: Seq<char>,
    i: int,
)
    requires
        sorted_so_far(change, accepted, declined, pending),
        pending.contains(own),
        0 <= i < deps_of(change.graph, own).len(),
        !accepted.contains(deps_of(change.graph, own)[i]),
        !declined.contains(deps_of(change.graph, own)[i]),
        !pending.contains(deps_of(change.graph, own)[i]),
    ensures
        sorted_so_far(change, accepted, declined, pending.push(deps_of(change.graph, own)[i])),
        work_left(
            change.graph,
            accepted,
            declined,
            pending.push(deps_of(change.graph, own)[i]),
        ) + 1 == work_left(change.graph, accepted, declined, pending),
        forall|name: Seq<char>|
            pending.contains(name) ==> #[trigger] pending.push(
                deps_of(change.graph, own)[i],
            ).contains(name),
        pending.push(deps_of(change.graph, own)[i]).contains(deps_of(change.graph, own)[i]),
{
    let dep = deps_of(change.graph, own)[i];
    let after = pending.push(dep);
    let at = choose|j: int| 0 <= j < pending.len() && pending[j] == own;
    assert(change.is_open(pending[at]));
    assert(is_artifact(change.graph, own));
    assert(deps_of(change.graph, own).contains(dep));
    assert(is_named(change, dep));
    lemma_known_names(change.graph, own);
    lemma_push_leaves_less(change.graph, accepted, declined, pending, dep);
    assert forall|name: Seq<char>| pending.contains(name) implies #[trigger] after.contains(
        name,
    ) by {
        let k = choose|k: int| 0 <= k < pending.len() && pending[k] == name;
        assert(after[k] == name);
    }
    assert(after[pending.len() as int] == dep);
    assert(!change.externals.contains(dep));
    assert(!change.stashed.contains(dep));
    assert forall|k: int| 0 <= k < after.len() implies change.is_open(#[trigger] after[k])
        && !accepted.contains(after[k]) && !declined.contains(after[k]) && (is_artifact(
        change.graph,
        after[k],
    ) || is_named(change, after[k])) by {
        if k < pending.len() {
            assert(after[k] == pending[k]);
        }
    }
}

/// A pending name can be sorted: into the accepted ones where it is reached, into the declined ones
/// where all its dependencies are.
proof fn lemma_sorted(
    change: Change,
    accepted: Set<Seq<char>>,
    declined: Set<Seq<char>>,
    pending: Seq<Seq<char>>,
    index: int,
    accept: bool,
)
    requires
        sorted_so_far(change, accepted, declined, pending),
        0 <= index < pending.len(),
        accept ==> change.reached(pending[index]),
        !accept ==> forall|i: int|
            0 <= i < deps_of(change.graph, pending[index]).len() ==> declined.contains(
                #[trigger] deps_of(change.graph, pending[index])[i],
            ),
    ensures
        accept ==> sorted_so_far(
            change,
            accepted.insert(pending[index]),
            declined,
            pending.remove(index),
        ),
        !accept ==> sorted_so_far(
            change,
            accepted,
            declined.insert(pending[index]),
            pending.remove(index),
        ),
{
    let name = pending[index];
    let rest = pending.remove(index);
    assert(change.is_open(pending[index]));
    if accept {
        let steps = choose|steps: nat| change.reached_within(name, steps);
        assert(deps_of(change.graph, name).len() > 0);
        assert(is_artifact(change.graph, name));
    } else {
        lemma_declined_unreached(change, accepted, declined, pending, name);
    }
    assert forall|x: Seq<char>| pending.contains(x) && x != name implies rest.contains(x) by {
        let k = choose|k: int| 0 <= k < pending.len() && pending[k] == x;
        if k < index {
            assert(rest[k] == x);
        } else {
            assert(rest[k - 1] == x);
        }
    }
    assert forall|k: int| 0 <= k < rest.len() implies #[trigger] rest[k] != name
        && pending.contains(rest[k]) by {
        let j = if k < index {
            k
        } else {
            k + 1
        };
        assert(pending[j] == rest[k]);
        assert(j != index);
    }
    assert(rest.no_duplicates()) by {
        assert forall|a: int, b: int|
            0 <= a < rest.len() && 0 <= b < rest.len() && a != b implies rest[a] != rest[b] by {
            let x = if a < index {
                a
            } else {
                a + 1
            };
            let y = if b < index {
                b
            } else {
                b + 1
            };
            assert(pending[x] != pending[y]);
        }
    }
    assert forall|k: int| 0 <= k < rest.len() implies change.is_open(#[trigger] rest[k])
        && !accepted.contains(rest[k]) && !declined.contains(rest[k]) && (is_artifact(
        change.graph,
        rest[k],
    ) || is_named(change, rest[k])) by {
        let j = if k < index {
            k
        } else {
            k + 1
        };
        assert(pending[j] == rest[k]);
    }
}

/// The first state: every artifact that is neither changed itself nor framework is pending.
fn start_sorting(
    graph: &DependencyGraph,
    stashed: &Vec<String>,
    externals: &Vec<String>,
    Ghost(change): Ghost<Change>,
) -> (r: Sorting)
    requires
        change.graph == graph@.artifacts,
        change.stashed == texts(stashed@).to_set(),
        change.externals == texts(externals@).to_set(),
    ensures
        r.is_good(change),
{
    let accepted = NameSet::from_list(stashed);
    let declined = NameSet::from_list(externals);
    let mut pending: Vec<String> = Vec::new();
    let mut i: usize = 0;
    graph.artifacts.keys_are_distinct();
    let ghost all = graph.artifacts@;
    assert(texts(pending@) =~= Seq::<Seq<char>>::empty());
    while i < graph.artifacts.len()
        invariant
            i <= all.len(),
            all == graph.artifacts@,
            crate::dict::distinct(all),
            change.graph == graph@.artifacts,
            change.stashed == accepted@,
            change.externals == declined@,
            texts(pending@).no_duplicates(),
            forall|k: int|
                0 <= k < texts(pending@).len() ==> change.is_open(#[trigger] texts(pending@)[k])
                    && exists|j: int| 0 <= j < i && (#[trigger] all[j]).0 == texts(pending@)[k],
            forall|j: int|
                0 <= j < i && change.is_open((#[trigger] all[j]).0) ==> texts(pending@).contains(
                    all[j].0,
                ),
        decreases all.len() - i,
    {
        let name = graph.artifacts.key_at(i);
        let ghost before = texts(pending@);
        if !accepted.contains(name.as_str()) && !declined.contains(name.as_str()) {
            pending.push(name.clone());
            proof {
                let after = before.push(name@);
                assert(texts(pending@) =~= after);
                assert forall|x: Seq<char>| before.contains(x) implies after.contains(x) by {
                    let k = choose|k: int| 0 <= k < before.len() && before[k] == x;
                    assert(after[k] == x);
                }
                assert(after[before.len() as int] == name@);
                assert forall|k: int| 0 <= k < before.len() implies before[k] != name@ by {
                    let j = choose|j: int| 0 <= j < i && (#[trigger] all[j]).0 == before[k];
                    assert(all[j].0 != all[i as int].0);
                }
                assert forall|k: int| 0 <= k < after.len() implies change.is_open(
                    #[trigger] after[k],
                ) && exists|j: int| 0 <= j < i + 1 && (#[trigger] all[j]).0 == after[k] by {
                    if k < before.len() {
                        assert(after[k] == before[k]);
                        let j = choose|j: int| 0 <= j < i && (#[trigger] all[j]).0 == before[k];
                        assert(all[j].0 == after[k]);
                    } else {
                        assert(all[i as int].0 == after[k]);
                    }
                }
            }
        }
        i += 1;
    }
    proof {
        assert forall|name: Seq<char>|
            #![trigger is_artifact(change.graph, name)]
            is_artifact(change.graph, name) implies accepted@.contains(name) || declined@.contains(
            name,
        ) || texts(pending@).contains(name) by {
            crate::dict::lemma_place(all, name);
            let j = crate::dict::place(all, name);
            assert(all[j].0 == name);
        }
        assert forall|k: int| 0 <= k < texts(pending@).len() implies is_artifact(
            change.graph,
            #[trigger] texts(pending@)[k],
        ) by {
            let j = choose|j: int| 0 <= j < i && (#[trigger] all[j]).0 == texts(pending@)[k];
            crate::dict::lemma_lookup_at(all, j);
        }
    }
    Sorting { accepted, declined, pending }
}

/// Sorts the artifacts of a change.
///
/// `stashed` are the artifacts that changed themselves, `externals` those of the framework. Which
/// names beyond the artifacts themselves are declined may depend on the order in which the
/// artifacts were added: a dependency of an accepted artifact may or may not be looked at.
pub fn analyze_changes(
    graph: &DependencyGraph,
    stashed: &Vec<String>,
    externals: &Vec<String>,
) -> (r: Classification)
    ensures
        ({
            let change = Change {
                graph: graph@.artifacts,
                stashed: texts(stashed@).to_set(),
                externals: texts(externals@).to_set(),
            };
            &&& forall|name: Seq<char>| #[trigger]
                r.accepted@.contains(name) <==> change.is_accepted(name)
            &&& declines(change, r.declined@)
        }),
{
    let ghost change = Change {
        graph: graph@.artifacts,
        stashed: texts(stashed@).to_set(),
        externals: texts(externals@).to_set(),
    };
    let mut state = start_sorting(graph, stashed, externals, Ghost(change));
    let mut has_update = true;
    while has_update
        invariant
            change.graph == graph@.artifacts,
            state.is_good(change),
            !has_update ==> forall|j: int|
                0 <= j < texts(state.pending@).len() ==> state.undecided(
                    change,
                    #[trigger] texts(state.pending@)[j],
                ),
        decreases state.left(change), has_update as int,
    {
        has_update = false;
        let mut index: usize = 0;
        let ghost at_start = state.left(change);
        while index < state.pending.len()
            invariant
                change.graph == graph@.artifacts,
                state.is_good(change),
                index <= state.pending@.len(),
                has_update ==> state.left(change) < at_start,
                !has_update ==> state.left(change) == at_start && forall|j: int|
                    0 <= j < index ==> state.undecided(
                        change,
                        #[trigger] texts(state.pending@)[j],
                    ),
            decreases state.left(change), state.pending@.len() - index,
        {
            let ghost was = state;
            let (is_accepted, is_declined, pushed) = examine(
                graph,
                &mut state,
                index,
                Ghost(change),
            );
            let ghost now = texts(state.pending@);
            assert(now[index as int] == texts(was.pending@)[index as int]) by {
                assert(now.take(texts(was.pending@).len() as int)[index as int] == texts(
                    was.pending@,
                )[index as int]);
            }
            if pushed {
                has_update = true;
            }
            if is_accepted || is_declined {
                has_update = true;
                proof {
                    lemma_sorted(
                        change,
                        state.accepted@,
                        state.declined@,
                        now,
                        index as int,
                        is_accepted,
                    );
                    lemma_sort_leaves_less(
                        change.graph,
                        state.accepted@,
                        state.declined@,
                        now,
                        index as int,
                        is_accepted,
                    );
                }
                let name = state.pending.remove(index);
                assert(texts(state.pending@) =~= now.remove(index as int));
                if is_accepted {
                    state.accepted.insert(name);
                } else {
                    state.declined.insert(name);
                }
            } else {
                if !pushed {
                    assert(texts(was.pending@) =~= now);
                }
                index += 1;
            }
        }
    }
    finish_sorting(state, Ghost(change))
}

/// What is pending at the end is declined.
fn finish_sorting(state: Sorting, Ghost(change): Ghost<Change>) -> (r: Classification)
    requires
        state.is_good(change),
        forall|j: int|
            0 <= j < texts(state.pending@).len() ==> state.undecided(
                change,
                #[trigger] texts(state.pending@)[j],
            ),
    ensures
        forall|name: Seq<char>| #[trigger]
            r.accepted@.contains(name) <==> change.is_accepted(name),
        declines(change, r.declined@),
{
    let ghost all = texts(state.pending@);
    let ghost before = state.declined@;
    let ghost accepted_names = state.accepted@;
    let Sorting { accepted, declined, pending } = state;
    let mut declined = declined;
    let mut i: usize = 0;
    while i < pending.len()
        invariant
            i <= pending@.len(),
            all == texts(pending@),
            forall|name: Seq<char>| #[trigger]
                declined@.contains(name) <==> before.contains(name) || all.take(
                    i as int,
                ).contains(name),
        decreases pending@.len() - i,
    {
        let ghost old_declined = declined@;
        declined.insert(pending[i].clone());
        proof {
            assert(all.take(i + 1) =~= all.take(i as int).push(pending@[i as int]@));
            crate::names::lemma_push_to_set(all.take(i as int), pending@[i as int]@);
            assert forall|name: Seq<char>| #[trigger] declined@.contains(name) <==> before.contains(
                name,
            ) || all.take(i + 1).contains(name) by {
                assert(all.take(i + 1).to_set().contains(name) <==> all.take(
                    i as int,
                ).to_set().insert(pending@[i as int]@).contains(name));
            }
        }
        i += 1;
    }
    proof {
        assert(all.take(i as int) =~= all);
        assert forall|name: Seq<char>| all.contains(name) implies !change.reached(name) by {
            assert forall|steps: nat| !change.reached_within(name, steps) by {
                lemma_undecided_unreached(change, accepted@, before, all, name, steps);
            }
        }
        assert forall|name: Seq<char>| #[trigger] accepted@.contains(name)
            <==> change.is_accepted(name) by {
            if change.is_accepted(name) && !change.stashed.contains(name) {
                let steps = choose|steps: nat| change.reached_within(name, steps);
                assert(is_artifact(change.graph, name));
                assert(accepted@.contains(name) || before.contains(name) || all.contains(name));
            }
        }
        assert forall|name: Seq<char>, i: int|
            is_artifact(change.graph, name) && change.is_open(name) && !change.is_accepted(name)
                && 0 <= i < deps_of(change.graph, name).len() implies declined@.contains(
            #[trigger] deps_of(change.graph, name)[i],
        ) by {
            if before.contains(name) {
                assert(before.contains(deps_of(change.graph, name)[i]));
            } else {
                let k = choose|k: int| 0 <= k < all.len() && all[k] == name;
                assert(is_undecided(change, accepted@, before, all, all[k]));
            }
        }
        assert forall|name: Seq<char>| #[trigger] declined@.contains(name)
            && !change.externals.contains(name) implies change.is_open(name)
            && !change.is_accepted(name) && (is_artifact(change.graph, name) || is_named(
            change,
            name,
        )) by {
            if !before.contains(name) {
                let k = choose|k: int| 0 <= k < all.len() && all[k] == name;
                assert(change.is_open(all[k]));
            }
        }
    }
    Classification { accepted, declined }
}

/// A change that touches nothing accepts nothing.
pub proof fn no_change_accepts_nothing(change: Change, name: Seq<char>, steps: nat)
    requires
        change.stashed == Set::<Seq<char>>::empty(),
    ensures
        !change.reached_within(name, steps),
    decreases steps,
{
    if steps > 0 {
        assert forall|i: int|
            0 <= i < deps_of(change.graph, name).len() implies !change.reached_within(
            #[trigger] deps_of(change.graph, name)[i],
            (steps - 1) as nat,
        ) by {
            no_change_accepts_nothing(
                change,
                deps_of(change.graph, name)[i],
                (steps - 1) as nat,
            );
        }
    }
}

/// An artifact that depends on an accepted name outside the framework is accepted itself, unless it
/// belongs to the framework.
pub proof fn dependents_are_accepted(change: Change, name: Seq<char>, i: int)
    requires
        change.is_open(name),
        0 <= i < deps_of(change.graph, name).len(),
        change.is_accepted(deps_of(change.graph, name)[i]),
        !change.externals.contains(deps_of(change.graph, name)[i]),
    ensures
        change.is_accepted(name),
{
    let dep = deps_of(change.graph, name)[i];
    if change.stashed.contains(dep) {
        assert(change.reached_within(name, 0));
    } else {
        let steps = choose|steps: nat| change.reached_within(dep, steps);
        assert(change.reached_within(name, steps + 1));
    }
}

} // verus!
