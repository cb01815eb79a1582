//! The dependency resolver's work queue: which package to fetch next and what
//! a fetched package adds to the queue.
use vstd::prelude::*;
use crate::registry::{VersionMetadata, dep_entries};
use crate::strmap::StrMap;

verus! {

/// A queued request: package name and version range.
pub type QueueView = Seq<(Seq<char>, Seq<char>)>;

/// The names of the queued requests, in order.
pub open spec fn names_of(q: QueueView) -> Seq<Seq<char>> {
    q.map_values(|e: (Seq<char>, Seq<char>)| e.0)
}

/// Appends each dependency, in order, unless its name is already resolved
/// or already queued (counting the ones appended before it).
pub open spec fn enqueue_missing(queue: QueueView, deps: QueueView, resolved: Set<Seq<char>>) -> QueueView
    decreases deps.len(),
{
    if deps.len() == 0 {
        queue
    } else {
        let q = enqueue_missing(queue, deps.drop_last(), resolved);
        let d = deps.last();
        if !resolved.contains(d.0) && !names_of(q).contains(d.0) {
            q.push(d)
        } else {
            q
        }
    }
}

/// The queue only grows at its end.
pub proof fn lemma_enqueue_prefix(queue: QueueView, deps: QueueView, resolved: Set<Seq<char>>)
    ensures
        enqueue_missing(queue, deps, resolved).len() >= queue.len(),
        enqueue_missing(queue, deps, resolved).take(queue.len() as int) == queue,
    decreases deps.len(),
{
    if deps.len() > 0 {
        lemma_enqueue_prefix(queue, deps.drop_last(), resolved);
        let q = enqueue_missing(queue, deps.drop_last(), resolved);
        assert(q.push(deps.last()).take(queue.len() as int) =~= q.take(queue.len() as int));
    } else {
        assert(queue.take(queue.len() as int) =~= queue);
    }
}

/// After enqueueing, each dependency is resolved or queued.
pub proof fn lemma_enqueue_covers(queue: QueueView, deps: QueueView, resolved: Set<Seq<char>>)
    ensures
        forall|j: int|
            0 <= j < deps.len() ==> resolved.contains(#[trigger] deps[j].0) || names_of(
                enqueue_missing(queue, deps, resolved),
            ).contains(deps[j].0),
    decreases deps.len(),
{
    if deps.len() > 0 {
        let ds = deps.drop_last();
        lemma_enqueue_covers(queue, ds, resolved);
        let q = enqueue_missing(queue, ds, resolved);
        let r = enqueue_missing(queue, deps, resolved);
        assert forall|j: int| 0 <= j < deps.len() implies resolved.contains(#[trigger] deps[j].0)
            || names_of(r).contains(deps[j].0) by {
            if j < deps.len() - 1 {
                assert(ds[j] == deps[j]);
                if names_of(q).contains(deps[j].0) {
                    let k = choose|k: int| 0 <= k < names_of(q).len() && names_of(q)[k] == deps[j].0;
                    assert(names_of(r)[k] == deps[j].0);
                }
            } else {
                if !resolved.contains(deps[j].0) && !names_of(q).contains(deps[j].0) {
                    assert(names_of(r)[q.len() as int] == deps[j].0);
                } else if names_of(q).contains(deps[j].0) {
                    let k = choose|k: int| 0 <= k < names_of(q).len() && names_of(q)[k] == deps[j].0;
                    assert(names_of(r)[k] == deps[j].0);
                }
            }
        }
    }
}

/// Deduplication: every request that enqueueing adds is a dependency whose
/// name was neither resolved nor queued before, and no name is added twice.
pub proof fn lemma_enqueue_fresh(queue: QueueView, deps: QueueView, resolved: Set<Seq<char>>)
    ensures
        ({
            let r = enqueue_missing(queue, deps, resolved);
            &&& forall|i: int|
                queue.len() <= i < r.len() ==> {
                    &&& !resolved.contains(#[trigger] r[i].0)
                    &&& !names_of(queue).contains(r[i].0)
                    &&& deps.contains(r[i])
                }
            &&& forall|i: int, j: int|
                queue.len() <= i < j < r.len() ==> #[trigger] r[i].0 != #[trigger] r[j].0
        }),
    decreases deps.len(),
{
    lemma_enqueue_prefix(queue, deps, resolved);
    if deps.len() > 0 {
        let ds = deps.drop_last();
        lemma_enqueue_fresh(queue, ds, resolved);
        lemma_enqueue_prefix(queue, ds, resolved);
        let q = enqueue_missing(queue, ds, resolved);
        let r = enqueue_missing(queue, deps, resolved);
        assert forall|i: int| queue.len() <= i < r.len() implies {
            &&& !resolved.contains(#[trigger] r[i].0)
            &&& !names_of(queue).contains(r[i].0)
            &&& deps.contains(r[i])
        } by {
            if i < q.len() {
                assert(r[i] == q[i]);
                assert(!resolved.contains(q[i].0));
                assert(ds.contains(q[i]));
                let k = choose|k: int| 0 <= k < ds.len() && ds[k] == q[i];
                assert(deps[k] == q[i]);
            } else {
                assert(r[i] == deps.last());
                assert(deps[deps.len() - 1] == r[i]);
                if names_of(queue).contains(r[i].0) {
                    let k = choose|k: int| 0 <= k < names_of(queue).len() && names_of(queue)[k] == r[i].0;
                    assert(q.take(queue.len() as int)[k] == queue[k]);
                    assert(names_of(q)[k] == r[i].0);
                }
            }
        }
        assert forall|i: int, j: int| queue.len() <= i < j < r.len() implies #[trigger] r[i].0
            != #[trigger] r[j].0 by {
            if j >= q.len() {
                assert(names_of(q)[i] == r[i].0);
            } else {
                assert(r[i] == q[i] && r[j] == q[j]);
                assert(q[i].0 != q[j].0);
            }
        }
    }
}

/// Every dependency of a package in `m` is in `m`, named in `q`, or in `t`.
pub open spec fn deps_accounted(m: Map<Seq<char>, VersionMetadata>, q: QueueView, t: Set<Seq<char>>) -> bool {
    forall|n: Seq<char>, i: int|
        m.dom().contains(n) && 0 <= i < dep_entries(m[n].dependencies).len() ==> {
            let d = #[trigger] dep_entries(m[n].dependencies)[i].0;
            ||| m.dom().contains(d)
            ||| names_of(q).contains(d)
            ||| t.contains(d)
        }
}

/// Every dependency of a package of `run` that is in `m` is in `m`, named in
/// `q`, or in `h`.
pub open spec fn run_deps_accounted(
    m: Map<Seq<char>, VersionMetadata>,
    q: QueueView,
    h: Set<Seq<char>>,
    run: Set<Seq<char>>,
) -> bool {
    forall|n: Seq<char>, i: int|
        run.contains(n) && m.dom().contains(n) && 0 <= i < dep_entries(m[n].dependencies).len() ==> {
            let d = #[trigger] dep_entries(m[n].dependencies)[i].0;
            ||| m.dom().contains(d)
            ||| names_of(q).contains(d)
            ||| h.contains(d)
        }
}

/// The queue of pending requests together with the packages resolved so far.
pub struct Resolver {
    resolved: StrMap<VersionMetadata>,
    pending: Vec<(String, String)>,
    handed_out: StrMap<()>,
    taken: Ghost<Set<Seq<char>>>,
    run_resolved: Ghost<Set<Seq<char>>>,
}

/// The (name, range) view of a request vector.
pub open spec fn queue_view(v: Seq<(String, String)>) -> QueueView {
    v.map_values(|p: (String, String)| (p.0@, p.1@))
}

/// Whether some queued request has name `name`.
fn queue_has(q: &Vec<(String, String)>, name: &String) -> (b: bool)
    ensures
        b == names_of(queue_view(q@)).contains(name@),
{
    let n = q.len();
    let mut i: usize = 0;
    while i < n
        invariant
            n == q@.len(),
            i <= n,
            forall|j: int| 0 <= j < i ==> q@[j].0@ != name@,
        decreases n - i,
    {
        if q[i].0 == *name {
            proof {
                assert(names_of(queue_view(q@))[i as int] == name@);
            }
            return true;
        }
        i = i + 1;
    }
    proof {
        if names_of(queue_view(q@)).contains(name@) {
            let j = choose|j: int| 0 <= j < names_of(queue_view(q@)).len() && names_of(queue_view(q@))[j] == name@;
            assert(q@[j].0@ == name@);
        }
    }
    false
}

impl Resolver {
    /// The packages resolved so far, by name.
    pub closed spec fn resolved_map(&self) -> Map<Seq<char>, VersionMetadata> {
        self.resolved@
    }

    /// The resolved names in the order they were first resolved.
    pub closed spec fn resolved_order(&self) -> Seq<Seq<char>> {
        self.resolved.key_order()
    }

    /// The pending requests, in queue order.
    pub closed spec fn queue(&self) -> QueueView {
        queue_view(self.pending@)
    }

    /// Names that have left the queue without having been resolved by this queue's
    /// owner yet (handed out for fetching, or dropped when a new run started).
    pub closed spec fn taken(&self) -> Set<Seq<char>> {
        self.taken@
    }

    /// Names handed out for fetching in the current run.
    pub closed spec fn handed_out(&self) -> Set<Seq<char>> {
        self.handed_out@.dom()
    }

    /// Names completed in the current run.
    pub closed spec fn resolved_in_run(&self) -> Set<Seq<char>> {
        self.run_resolved@
    }

    /// A name that needs no fetch in this run: resolved, or already handed out.
    pub open spec fn settled(&self, n: Seq<char>) -> bool {
        self.resolved_map().dom().contains(n) || self.handed_out().contains(n)
    }

    /// Every dependency of a resolved package is resolved, still queued,
    /// or has been taken from the queue.
    pub open spec fn accounted(&self) -> bool {
        deps_accounted(self.resolved_map(), self.queue(), self.taken())
    }

    /// Every dependency of a package completed in this run is resolved, still
    /// queued, or handed out in this run.
    pub open spec fn run_accounted(&self) -> bool {
        run_deps_accounted(self.resolved_map(), self.queue(), self.handed_out(), self.resolved_in_run())
    }

    #[verifier::type_invariant]
    closed spec fn inv(&self) -> bool {
        &&& self.accounted()
        &&& self.run_accounted()
        &&& self.handed_out@.dom().subset_of(self.taken@)
    }

    /// A resolver with nothing resolved and nothing queued.
    pub fn new() -> (r: Self)
        ensures
            r.resolved_map() == Map::<Seq<char>, VersionMetadata>::empty(),
            r.queue() == Seq::<(Seq<char>, Seq<char>)>::empty(),
            r.taken() == Set::<Seq<char>>::empty(),
            r.handed_out() == Set::<Seq<char>>::empty(),
            r.resolved_in_run() == Set::<Seq<char>>::empty(),
            r.accounted(),
            r.run_accounted(),
    {
        let r = Resolver {
            resolved: StrMap::new(),
            pending: Vec::new(),
            handed_out: StrMap::new(),
            taken: Ghost(Set::empty()),
            run_resolved: Ghost(Set::empty()),
        };
        assert(r.queue() =~= Seq::<(Seq<char>, Seq<char>)>::empty());
        r
    }

    /// Starts a run: the queue becomes `packages` and nothing has been handed
    /// out in it yet. Requests still queued from an earlier run count as taken.
    pub fn start(&mut self, packages: Vec<(String, String)>)
        ensures
            final(self).resolved_map() == old(self).resolved_map(),
            final(self).resolved_order() == old(self).resolved_order(),
            final(self).queue() == queue_view(packages@),
            final(self).handed_out() == Set::<Seq<char>>::empty(),
            final(self).resolved_in_run() == Set::<Seq<char>>::empty(),
            final(self).taken() == old(self).taken().union(names_of(old(self).queue()).to_set()),
            final(self).accounted(),
            final(self).run_accounted(),
    {
        proof {
            use_type_invariant(&*self);
        }
        let ghost old_q = self.queue();
        let ghost new_taken = self.taken@.union(names_of(old_q).to_set());
        let mut resolved: StrMap<VersionMetadata> = StrMap::new();
        std::mem::swap(&mut resolved, &mut self.resolved);
        proof {
            assert forall|n: Seq<char>, i: int|
                resolved@.dom().contains(n) && 0 <= i < dep_entries(
                    resolved@[n].dependencies,
                ).len() implies {
                let d = #[trigger] dep_entries(resolved@[n].dependencies)[i].0;
                ||| resolved@.dom().contains(d)
                ||| names_of(queue_view(packages@)).contains(d)
                ||| new_taken.contains(d)
            } by {
                let d = dep_entries(resolved@[n].dependencies)[i].0;
                if names_of(old_q).contains(d) {
                    assert(names_of(old_q).to_set().contains(d));
                }
            }
        }
        let next = Resolver {
            resolved,
            pending: packages,
            handed_out: StrMap::new(),
            taken: Ghost(new_taken),
            run_resolved: Ghost(Set::empty()),
        };
        *self = next;
    }

    /// Takes requests off the front of the queue until one names a package
    /// that is neither resolved nor handed out in this run, and hands that one
    /// out; `None` once the queue has run dry. So within a run each package is
    /// handed out for fetching at most once, and a resolved one never.
    pub fn next_task(&mut self) -> (r: Option<(String, String)>)
        ensures
            final(self).resolved_map() == old(self).resolved_map(),
            final(self).resolved_order() == old(self).resolved_order(),
            final(self).resolved_in_run() == old(self).resolved_in_run(),
            final(self).accounted(),
            final(self).run_accounted(),
            match r {
                None => {
                    &&& final(self).queue() == Seq::<(Seq<char>, Seq<char>)>::empty()
                    &&& forall|i: int|
                        0 <= i < old(self).queue().len() ==> old(self).settled(
                            #[trigger] old(self).queue()[i].0,
                        )
                    &&& final(self).handed_out() == old(self).handed_out()
                    &&& final(self).taken() == old(self).taken().union(
                        names_of(old(self).queue()).to_set(),
                    )
                },
                Some(t) => exists|k: int|
                    {
                        &&& 0 <= k < old(self).queue().len()
                        &&& #[trigger] old(self).queue()[k] == (t.0@, t.1@)
                        &&& !old(self).settled(t.0@)
                        &&& forall|i: int|
                            0 <= i < k ==> old(self).settled(
                                #[trigger] old(self).queue()[i].0,
                            )
                        &&& final(self).handed_out() == old(self).handed_out().insert(t.0@)
                        &&& final(self).queue() == old(self).queue().skip(k + 1)
                        &&& final(self).taken() == old(self).taken().union(
                            names_of(old(self).queue().take(k + 1)).to_set(),
                        )
                    },
            },
    {
        proof {
            use_type_invariant(&*self);
        }
        let ghost s0 = *self;
        let ghost q0 = self.queue();
        let ghost taken0 = self.taken@;
        let ghost run0 = self.run_resolved@;
        assert(s0.run_accounted());
        let mut resolved: StrMap<VersionMetadata> = StrMap::new();
        std::mem::swap(&mut resolved, &mut self.resolved);
        let mut pending: Vec<(String, String)> = Vec::new();
        std::mem::swap(&mut pending, &mut self.pending);
        let mut handed: StrMap<()> = StrMap::new();
        std::mem::swap(&mut handed, &mut self.handed_out);
        let ghost dom = resolved@.dom();
        let ghost h0 = handed@.dom();
        let ghost skip = dom.union(h0);
        assert(s0.accounted());
        assert(resolved@ == s0.resolved_map());
        assert(h0 == s0.handed_out());
        let ghost k: int = 0;
        let mut result: Option<(String, String)> = None;
        while pending.len() > 0
            invariant_except_break
                0 <= k <= q0.len(),
                pending@.len() == q0.len() - k,
                dom == resolved@.dom(),
                h0 == handed@.dom(),
                skip == dom.union(h0),
                queue_view(pending@) == q0.skip(k),
                forall|i: int| 0 <= i < k ==> skip.contains(#[trigger] q0[i].0),
                result is None,
            ensures
                match result {
                    None => {
                        &&& pending@.len() == 0
                        &&& k == q0.len()
                        &&& forall|i: int| 0 <= i < q0.len() ==> skip.contains(#[trigger] q0[i].0)
                    },
                    Some(t) => {
                        &&& 0 <= k < q0.len()
                        &&& q0[k] == (t.0@, t.1@)
                        &&& !skip.contains(t.0@)
                        &&& forall|i: int| 0 <= i < k ==> skip.contains(#[trigger] q0[i].0)
                        &&& queue_view(pending@) == q0.skip(k + 1)
                    },
                },
            decreases pending.len(),
        {
            let ghost before = pending@;
            let head = pending.remove(0);
            proof {
                assert(queue_view(before)[0] == q0.skip(k)[0]);
                assert(q0.skip(k)[0] == q0[k]);
                assert(pending@ =~= before.subrange(1, before.len() as int));
                assert forall|j: int| 0 <= j < pending@.len() implies #[trigger] queue_view(pending@)[j] == q0.skip(k + 1)[j] by {
                    assert(pending@[j] == before[j + 1]);
                    assert(queue_view(before)[j + 1] == q0.skip(k)[j + 1]);
                }
                assert(queue_view(pending@) =~= q0.skip(k + 1));
                assert(head == before[0]);
                assert(q0[k] == (head.0@, head.1@));
            }
            if resolved.contains_key(head.0.as_str()) || handed.contains_key(head.0.as_str()) {
                proof {
                    k = k + 1;
                }
            } else {
                result = Some(head);
                break;
            }
        }
        proof {
            if result is None {
                assert(q0.skip(k) =~= queue_view(pending@));
                assert(q0.len() == k);
            }
        }
        let ghost new_taken = match result {
            Some(_) => taken0.union(names_of(q0.take(k + 1)).to_set()),
            None => taken0.union(names_of(q0).to_set()),
        };
        match &result {
            Some(t) => {
                proof {
                    assert(names_of(q0.take(k + 1))[k] == t.0@);
                    assert(new_taken.contains(t.0@));
                }
                handed.insert(t.0.clone(), ());
                proof {
                    assert(handed@.dom().contains(t.0@));
                    assert(q0[k].0 == t.0@);
                }
            },
            None => {},
        }
        proof {
            assert(h0.subset_of(taken0));
            assert(handed@.dom().subset_of(new_taken));
        }
        proof {
            let nq = queue_view(pending@);
            let stop: int = if result is Some { k + 1 } else { q0.len() as int };
            assert(nq == q0.skip(stop));
            assert forall|n: Seq<char>, i: int|
                resolved@.dom().contains(n) && 0 <= i < dep_entries(
                    resolved@[n].dependencies,
                ).len() implies {
                let d = #[trigger] dep_entries(resolved@[n].dependencies)[i].0;
                ||| resolved@.dom().contains(d)
                ||| names_of(queue_view(pending@)).contains(d)
                ||| new_taken.contains(d)
            } by {
                let d = dep_entries(resolved@[n].dependencies)[i].0;
                assert(dep_entries(s0.resolved_map()[n].dependencies)[i].0 == d);
                if names_of(q0).contains(d) && !dom.contains(d) {
                    let j = choose|j: int| 0 <= j < names_of(q0).len() && names_of(q0)[j] == d;
                    if j < stop {
                        if result is Some {
                            assert(names_of(q0.take(k + 1))[j] == d);
                            assert(names_of(q0.take(k + 1)).to_set().contains(d));
                        } else {
                            assert(names_of(q0).to_set().contains(d));
                        }
                    } else {
                        assert(names_of(nq)[j - stop] == d);
                    }
                }
            }
        }
        proof {
            let nq = queue_view(pending@);
            let stop: int = if result is Some { k + 1 } else { q0.len() as int };
            assert(nq == q0.skip(stop));
            assert(h0.subset_of(handed@.dom()));
            assert forall|n: Seq<char>, i: int|
                run0.contains(n) && resolved@.dom().contains(n) && 0 <= i < dep_entries(
                    resolved@[n].dependencies,
                ).len() implies {
                let d = #[trigger] dep_entries(resolved@[n].dependencies)[i].0;
                ||| resolved@.dom().contains(d)
                ||| names_of(nq).contains(d)
                ||| handed@.dom().contains(d)
            } by {
                let d = dep_entries(resolved@[n].dependencies)[i].0;
                assert(dep_entries(s0.resolved_map()[n].dependencies)[i].0 == d);
                if names_of(q0).contains(d) && !dom.contains(d) && !h0.contains(d) {
                    let j = choose|j: int| 0 <= j < names_of(q0).len() && names_of(q0)[j] == d;
                    if j < stop {
                        assert(!skip.contains(q0[j].0));
                        assert(result is Some && j == k);
                    } else {
                        assert(names_of(nq)[j - stop] == d);
                    }
                }
            }
        }
        let next = Resolver {
            resolved,
            pending,
            handed_out: handed,
            taken: Ghost(new_taken),
            run_resolved: Ghost(run0),
        };
        *self = next;
        result
    }

    /// Records the metadata chosen for `name` and queues each of its
    /// dependencies, in order, whose name is not resolved, not handed out in
    /// this run (its fetch may still be running) and not queued.
    pub fn complete_task(&mut self, name: String, meta: VersionMetadata)
        ensures
            final(self).resolved_map() == old(self).resolved_map().insert(name@, meta),
            final(self).queue() == enqueue_missing(
                old(self).queue(),
                dep_entries(meta.dependencies),
                final(self).resolved_map().dom().union(old(self).handed_out()),
            ),
            final(self).handed_out() == old(self).handed_out(),
            final(self).resolved_in_run() == old(self).resolved_in_run().insert(name@),
            final(self).taken() == old(self).taken(),
            final(self).accounted(),
            final(self).run_accounted(),
    {
        proof {
            use_type_invariant(&*self);
        }
        let ghost s0 = *self;
        let ghost q0 = self.queue();
        let ghost taken0 = self.taken@;
        let ghost old_map = self.resolved@;
        let ghost run0 = self.run_resolved@;
        assert(s0.accounted());
        assert(s0.run_accounted());
        let ghost deps = dep_entries(meta.dependencies);
        let mut resolved: StrMap<VersionMetadata> = StrMap::new();
        std::mem::swap(&mut resolved, &mut self.resolved);
        let mut pending: Vec<(String, String)> = Vec::new();
        std::mem::swap(&mut pending, &mut self.pending);
        let mut handed: StrMap<()> = StrMap::new();
        std::mem::swap(&mut handed, &mut self.handed_out);
        let ghost h0 = handed@.dom();
        assert(h0 == s0.handed_out());
        let key = name.clone();
        resolved.insert(name, meta);
        let ghost dom = resolved@.dom().union(h0);
        match resolved.get(key.as_str()) {
            Some(m) => {
                match &m.dependencies {
                    Some(d) => {
                        let n = d.len();
                        let mut i: usize = 0;
                        while i < n
                            invariant
                                n == d.key_order().len(),
                                i <= n,
                                dep_entries(Some(*d)) == deps,
                                dom == resolved@.dom().union(handed@.dom()),
                                queue_view(pending@) == enqueue_missing(q0, deps.take(i as int), dom),
                            decreases n - i,
                        {
                            let dn = d.key_at(i);
                            let dr = d.value_at(i);
                            proof {
                                assert(deps.take(i + 1).drop_last() =~= deps.take(i as int));
                                assert(deps.take(i + 1).last() == (dn@, dr@));
                            }
                            if !resolved.contains_key(dn.as_str()) && !handed.contains_key(dn.as_str())
                                && !queue_has(&pending, dn) {
                                pending.push((dn.clone(), dr.clone()));
                                proof {
                                    assert(queue_view(pending@) =~= enqueue_missing(q0, deps.take(i as int), dom).push((dn@, dr@)));
                                }
                            }
                            i = i + 1;
                        }
                        proof {
                            assert(deps.take(n as int) =~= deps);
                        }
                    },
                    None => {
                        assert(deps =~= Seq::<(Seq<char>, Seq<char>)>::empty());
                    },
                }
            },
            None => {
                assert(false);
            },
        }
        proof {
            let nq = queue_view(pending@);
            lemma_enqueue_prefix(q0, deps, dom);
            lemma_enqueue_covers(q0, deps, dom);
            assert forall|n: Seq<char>, i: int|
                resolved@.dom().contains(n) && 0 <= i < dep_entries(
                    resolved@[n].dependencies,
                ).len() implies {
                let d = #[trigger] dep_entries(resolved@[n].dependencies)[i].0;
                ||| resolved@.dom().contains(d)
                ||| names_of(queue_view(pending@)).contains(d)
                ||| taken0.contains(d)
            } by {
                let d = dep_entries(resolved@[n].dependencies)[i].0;
                if n == key@ {
                    assert(deps[i].0 == d);
                    if h0.contains(d) {
                        assert(taken0.contains(d));
                    }
                } else {
                    assert(old_map.dom().contains(n));
                    assert(s0.resolved_map() == old_map);
                    assert(dep_entries(s0.resolved_map()[n].dependencies)[i].0 == d);
                    if names_of(q0).contains(d) {
                        let j = choose|j: int| 0 <= j < names_of(q0).len() && names_of(q0)[j] == d;
                        assert(nq.take(q0.len() as int)[j] == q0[j]);
                        assert(names_of(nq)[j] == d);
                    }
                }
            }
        }
        proof {
            let nq = queue_view(pending@);
            let run1 = run0.insert(key@);
            assert forall|n: Seq<char>, i: int|
                run1.contains(n) && resolved@.dom().contains(n) && 0 <= i < dep_entries(
                    resolved@[n].dependencies,
                ).len() implies {
                let d = #[trigger] dep_entries(resolved@[n].dependencies)[i].0;
                ||| resolved@.dom().contains(d)
                ||| names_of(nq).contains(d)
                ||| handed@.dom().contains(d)
            } by {
                let d = dep_entries(resolved@[n].dependencies)[i].0;
                if n == key@ {
                    assert(deps[i].0 == d);
                } else {
                    assert(old_map.dom().contains(n));
                    assert(s0.resolved_map() == old_map);
                    assert(dep_entries(s0.resolved_map()[n].dependencies)[i].0 == d);
                    if names_of(q0).contains(d) {
                        let j = choose|j: int| 0 <= j < names_of(q0).len() && names_of(q0)[j] == d;
                        assert(nq.take(q0.len() as int)[j] == q0[j]);
                        assert(names_of(nq)[j] == d);
                    }
                }
            }
        }
        let next = Resolver {
            resolved,
            pending,
            handed_out: handed,
            taken: Ghost(taken0),
            run_resolved: Ghost(run0.insert(key@)),
        };
        *self = next;
    }

    /// The number of packages resolved so far.
    pub fn resolved_count(&self) -> (n: usize)
        ensures
            n == self.resolved_map().len(),
    {
        self.resolved.len()
    }

    /// The packages resolved so far.
    pub fn resolved(&self) -> (m: &StrMap<VersionMetadata>)
        ensures
            m@ == self.resolved_map(),
            m.key_order() == self.resolved_order(),
    {
        &self.resolved
    }

    /// The number of queued requests.
    pub fn pending_count(&self) -> (n: usize)
        ensures
            n == self.queue().len(),
    {
        self.pending.len()
    }

    /// Whether no request is queued.
    pub fn is_idle(&self) -> (b: bool)
        ensures
            b == (self.queue().len() == 0),
    {
        self.pending.len() == 0
    }
}

/// Fetch once: within a run, a package that is resolved or has been handed out
/// stays so through every later `next_task` and `complete_task` (neither shrinks
/// the resolved or handed-out names), and `next_task` hands out only names that
/// are neither, so no package is handed out for fetching twice in a run.
pub proof fn lemma_settled_stays(earlier: Resolver, later: Resolver, n: Seq<char>)
    requires
        earlier.settled(n),
        earlier.resolved_map().dom().subset_of(later.resolved_map().dom()),
        earlier.handed_out().subset_of(later.handed_out()),
    ensures
        later.settled(n),
{
}

/// When the queue has run dry, every dependency of every package completed
/// in this run is itself resolved or was handed out for fetching in this run
/// (that fetch may still be running, or may have failed).
pub proof fn lemma_idle_closed(r: Resolver)
    requires
        r.run_accounted(),
        r.queue().len() == 0,
    ensures
        forall|n: Seq<char>, i: int|
            r.resolved_in_run().contains(n) && r.resolved_map().dom().contains(n) && 0 <= i
                < dep_entries(r.resolved_map()[n].dependencies).len() ==> {
                let d = #[trigger] dep_entries(r.resolved_map()[n].dependencies)[i].0;
                r.resolved_map().dom().contains(d) || r.handed_out().contains(d)
            },
{
    assert forall|n: Seq<char>, i: int|
        r.resolved_in_run().contains(n) && r.resolved_map().dom().contains(n) && 0 <= i
            < dep_entries(r.resolved_map()[n].dependencies).len() implies {
            let d = #[trigger] dep_entries(r.resolved_map()[n].dependencies)[i].0;
            r.resolved_map().dom().contains(d) || r.handed_out().contains(d)
        } by {
        let d = dep_entries(r.resolved_map()[n].dependencies)[i].0;
        assert(!names_of(r.queue()).contains(d));
    }
}

} // verus!
