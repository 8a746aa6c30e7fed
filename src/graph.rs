use vstd::prelude::*;
use crate::geometry::{in_reach, Point, REACH_LIMIT};
use crate::projection::{leash_transform, project_leash, LeashTransform};

verus! {

/// Colour given to a new leash when the anchor it is spliced above has none:
/// opaque red, packed one byte per channel with red lowest and alpha highest.
pub const DEFAULT_LEASH_COLOR: u32 = 0xFF00_00FF;

/// A node of an anchor chain. `parent` is the next anchor toward the chain's
/// root (`None` for a root); `leash` is the leash drawn from this anchor to its
/// parent. Dead anchors keep their slot so that indices stay stable.
#[derive(Clone, Copy, Debug, PartialEq, Eq, Structural)]
pub struct Anchor {
    pub parent: Option<usize>,
    pub leash: Option<usize>,
    pub position: Point,
    pub live: bool,
}

/// A leash segment: its colour, fixed when it is made, and how it is drawn.
#[derive(Clone, Copy, Debug, PartialEq, Eq, Structural)]
pub struct Leash {
    pub color: u32,
    pub live: bool,
    pub transform: LeashTransform,
}

/// What an anchor graph holds, slot by slot.
pub struct GraphView {
    pub anchors: Seq<Anchor>,
    pub leashes: Seq<Leash>,
}

/// A forest of anchors and the leashes between them, stored in two arenas.
pub struct AnchorGraph {
    anchors: Vec<Anchor>,
    leashes: Vec<Leash>,
    rank: Ghost<Seq<nat>>,
}

/// One structural change to an anchor graph.
#[derive(Clone, Copy, Debug, PartialEq, Eq, Structural)]
pub enum Mutation {
    /// Put a new anchor at `position` between `child` and its parent `parent`.
    Splice { child: usize, parent: usize, position: Point },
    /// Point `child` past its parent `parent` straight at `grandparent`, and
    /// destroy `parent` with its leash.
    Prune { child: usize, parent: usize, grandparent: usize },
}

pub open spec fn idle_transform() -> LeashTransform {
    let zero = Point { x: 0, y: 0, z: 0 };
    LeashTransform { scale: zero, translation: zero, direction: zero, turn_positive: false }
}

/// The transform of a leash that has not been drawn yet.
fn idle() -> (r: LeashTransform)
    ensures
        r == idle_transform(),
{
    let zero = Point { x: 0, y: 0, z: 0 };
    LeashTransform { scale: zero, translation: zero, direction: zero, turn_positive: false }
}

pub open spec fn is_live(v: GraphView, i: int) -> bool {
    0 <= i < v.anchors.len() && v.anchors[i].live
}

/// Slot indices in range, positions within reach, no leash shared by two
/// anchors, and each live anchor's leash live.
pub open spec fn links_ok(v: GraphView) -> bool {
    &&& v.anchors.len() <= usize::MAX
    &&& v.leashes.len() <= usize::MAX
    &&& forall|i: int| 0 <= i < v.anchors.len() ==> in_reach(#[trigger] v.anchors[i].position)
    &&& forall|i: int|
        0 <= i < v.anchors.len() ==> (#[trigger] v.anchors[i].parent matches Some(p) ==> p
            < v.anchors.len())
    &&& forall|i: int|
        0 <= i < v.anchors.len() ==> (#[trigger] v.anchors[i].leash matches Some(l) ==> l
            < v.leashes.len())
    &&& forall|i: int|
        is_live(v, i) ==> (#[trigger] v.anchors[i].leash matches Some(l) ==> v.leashes[l as int].live)
    &&& forall|i: int, j: int|
        0 <= i < v.anchors.len() && 0 <= j < v.anchors.len() && i != j
            && #[trigger] v.anchors[i].leash is Some && #[trigger] v.anchors[j].leash is Some
            ==> v.anchors[i].leash != v.anchors[j].leash
}

/// Every parent link goes to an anchor of strictly lower rank.
pub open spec fn ranks_ok(v: GraphView, rank: Seq<nat>) -> bool {
    &&& rank.len() == v.anchors.len()
    &&& forall|i: int|
        0 <= i < v.anchors.len() ==> (#[trigger] v.anchors[i].parent matches Some(p) ==> rank[p as int]
            < rank[i])
}

/// The anchor reached from `i` by following `n` parent links, stopping at a root.
pub open spec fn ancestor(v: GraphView, i: int, n: nat) -> int
    decreases n,
{
    if n == 0 {
        i
    } else {
        match v.anchors[i].parent {
            Some(p) => ancestor(v, p as int, (n - 1) as nat),
            None => i,
        }
    }
}

pub open spec fn is_root(v: GraphView, i: int) -> bool {
    v.anchors[i].parent is None
}

/// The colour a leash spliced above `c` takes: that of `c`'s own leash.
pub open spec fn inherited_color(v: GraphView, c: int) -> u32 {
    match v.anchors[c].leash {
        Some(l) => v.leashes[l as int].color,
        None => DEFAULT_LEASH_COLOR,
    }
}

pub open spec fn splice_applies(v: GraphView, c: int, p: int, position: Point) -> bool {
    &&& is_live(v, c)
    &&& is_live(v, p)
    &&& v.anchors[c].parent == Some(p as usize)
    &&& in_reach(position)
    &&& v.anchors.len() < usize::MAX
    &&& v.leashes.len() < usize::MAX
}

pub open spec fn spliced(v: GraphView, c: int, p: int, position: Point) -> GraphView {
    let m = v.anchors.len();
    let l = v.leashes.len();
    GraphView {
        anchors: v.anchors.update(c, Anchor { parent: Some(m as usize), ..v.anchors[c] }).push(
            Anchor { parent: Some(p as usize), leash: Some(l as usize), position, live: true },
        ),
        leashes: v.leashes.push(
            Leash { color: inherited_color(v, c), live: true, transform: idle_transform() },
        ),
    }
}

pub open spec fn prune_applies(v: GraphView, c: int, p: int, g: int) -> bool {
    &&& is_live(v, c)
    &&& is_live(v, p)
    &&& is_live(v, g)
    &&& v.anchors[c].parent == Some(p as usize)
    &&& v.anchors[p].parent == Some(g as usize)
}

pub open spec fn pruned(v: GraphView, c: int, p: int, g: int) -> GraphView {
    GraphView {
        anchors: v.anchors.update(c, Anchor { parent: Some(g as usize), ..v.anchors[c] }).update(
            p,
            Anchor { live: false, ..v.anchors[p] },
        ),
        leashes: match v.anchors[p].leash {
            Some(l) => v.leashes.update(l as int, Leash { live: false, ..v.leashes[l as int] }),
            None => v.leashes,
        },
    }
}

/// The graph after one mutation. A mutation whose anchors are gone, or whose
/// links no longer match the graph, changes nothing.
pub open spec fn mutated(v: GraphView, m: Mutation) -> GraphView {
    match m {
        Mutation::Splice { child, parent, position } => if splice_applies(
            v,
            child as int,
            parent as int,
            position,
        ) {
            spliced(v, child as int, parent as int, position)
        } else {
            v
        },
        Mutation::Prune { child, parent, grandparent } => if prune_applies(
            v,
            child as int,
            parent as int,
            grandparent as int,
        ) {
            pruned(v, child as int, parent as int, grandparent as int)
        } else {
            v
        },
    }
}

/// The graph after a list of mutations, applied in order.
pub open spec fn mutated_all(v: GraphView, ms: Seq<Mutation>) -> GraphView
    decreases ms.len(),
{
    if ms.len() == 0 {
        v
    } else {
        mutated(mutated_all(v, ms.drop_last()), ms.last())
    }
}

/// Anchor `i` draws leash `l`: both are live and `i` has a live parent.
pub open spec fn draws(anchors: Seq<Anchor>, l: int, i: int) -> bool {
    &&& 0 <= i < anchors.len()
    &&& anchors[i].live
    &&& anchors[i].leash == Some(l as usize)
    &&& anchors[i].parent matches Some(p) && p < anchors.len() && anchors[p as int].live
}

pub open spec fn drawing_parent(anchors: Seq<Anchor>, i: int) -> int {
    anchors[i].parent.unwrap() as int
}

/// Leash `l` once redrawn from its anchor's and that anchor's parent's positions.
pub open spec fn projected_leash(v: GraphView, l: int) -> Leash {
    if exists|i: int| draws(v.anchors, l, i) {
        let i = choose|i: int| draws(v.anchors, l, i);
        Leash {
            transform: leash_transform(
                v.anchors[drawing_parent(v.anchors, i)].position,
                v.anchors[i].position,
            ),
            ..v.leashes[l]
        }
    } else {
        v.leashes[l]
    }
}

/// The graph with every drawn leash redrawn.
pub open spec fn projected(v: GraphView) -> GraphView {
    GraphView {
        anchors: v.anchors,
        leashes: Seq::new(v.leashes.len(), |l: int| projected_leash(v, l)),
    }
}

proof fn lemma_path_to_root(v: GraphView, rank: Seq<nat>, i: int) -> (n: nat)
    requires
        links_ok(v),
        ranks_ok(v, rank),
        0 <= i < v.anchors.len(),
    ensures
        is_root(v, ancestor(v, i, n)),
        forall|a: nat| a <= n ==> 0 <= #[trigger] ancestor(v, i, a) < v.anchors.len(),
        forall|a: nat, b: nat|
            a < b <= n ==> rank[#[trigger] ancestor(v, i, b)] < rank[#[trigger] ancestor(v, i, a)],
    decreases rank[i],
{
    match v.anchors[i].parent {
        None => {
            assert(ancestor(v, i, 0) == i);
            0
        },
        Some(p) => {
            let p = p as int;
            assert(rank[p] < rank[i]);
            let m = lemma_path_to_root(v, rank, p);
            assert forall|a: nat| a <= m + 1 implies ancestor(v, i, a) == (if a == 0 {
                i
            } else {
                ancestor(v, p, (a - 1) as nat)
            }) by {}
            assert forall|a: nat| a <= m + 1 implies 0 <= #[trigger] ancestor(v, i, a)
                < v.anchors.len() by {
                if a > 0 {
                    assert(ancestor(v, i, a) == ancestor(v, p, (a - 1) as nat));
                }
            }
            assert forall|b: nat| 0 < b <= m + 1 implies rank[ancestor(v, i, b)] < rank[i] by {
                assert(ancestor(v, i, b) == ancestor(v, p, (b - 1) as nat));
                if b > 1 {
                    assert(rank[ancestor(v, p, (b - 1) as nat)] < rank[ancestor(v, p, 0)]);
                }
            }
            assert forall|a: nat, b: nat| a < b <= m + 1 implies rank[#[trigger] ancestor(
                v,
                i,
                b,
            )] < rank[#[trigger] ancestor(v, i, a)] by {
                assert(ancestor(v, i, b) == ancestor(v, p, (b - 1) as nat));
                if a > 0 {
                    assert(ancestor(v, i, a) == ancestor(v, p, (a - 1) as nat));
                }
            }
            assert(ancestor(v, i, m + 1) == ancestor(v, p, m));
            m + 1
        },
    }
}

/// Redrawing the leashes twice with no anchor moved in between gives the
/// same graph as redrawing them once.
pub proof fn lemma_projection_idempotent(v: GraphView)
    ensures
        projected(projected(v)) == projected(v),
{
    let once = projected(v);
    let twice = projected(once);
    assert forall|l: int, i: int| draws(once.anchors, l, i) == draws(v.anchors, l, i) by {}
    assert forall|l: int| 0 <= l < once.leashes.len() implies #[trigger] twice.leashes[l]
        == once.leashes[l] by {
        if exists|i: int| draws(v.anchors, l, i) {
            assert(exists|i: int| draws(once.anchors, l, i));
        }
    }
    assert(twice.leashes =~= once.leashes);
}

impl View for AnchorGraph {
    type V = GraphView;

    closed spec fn view(&self) -> GraphView {
        GraphView { anchors: self.anchors@, leashes: self.leashes@ }
    }
}

impl AnchorGraph {
    /// Well-formed: links are in range and parent links admit a strictly
    /// decreasing rank, so that no chain of parents loops.
    pub closed spec fn wf(&self) -> bool {
        links_ok(self@) && ranks_ok(self@, self.rank@)
    }

    /// What well-formedness says of the slots themselves.
    pub proof fn lemma_wf_links(&self)
        requires
            self.wf(),
        ensures
            links_ok(self@),
    {
    }

    /// Following parent links from any anchor reaches a root after finitely
    /// many steps, and no anchor is met twice on the way.
    pub proof fn lemma_chains_reach_root(&self, i: int)
        requires
            self.wf(),
            0 <= i < self@.anchors.len(),
        ensures
            exists|n: nat|
                #![trigger ancestor(self@, i, n)]
                is_root(self@, ancestor(self@, i, n)) && forall|a: nat, b: nat|
                    a < b <= n ==> #[trigger] ancestor(self@, i, a) != #[trigger] ancestor(
                        self@,
                        i,
                        b,
                    ),
    {
        let n = lemma_path_to_root(self@, self.rank@, i);
        assert forall|a: nat, b: nat| a < b <= n implies #[trigger] ancestor(self@, i, a)
            != #[trigger] ancestor(self@, i, b) by {
            assert(self.rank@[ancestor(self@, i, b)] < self.rank@[ancestor(self@, i, a)]);
        }
    }

    /// An empty graph.
    pub fn new() -> (r: AnchorGraph)
        ensures
            r.wf(),
            r@.anchors.len() == 0,
            r@.leashes.len() == 0,
    {
        AnchorGraph { anchors: Vec::new(), leashes: Vec::new(), rank: Ghost(Seq::empty()) }
    }

    /// Adds a root anchor (a chain's leader) at `position`, with no parent and
    /// no leash, and returns its index.
    pub fn add_root(&mut self, position: Point) -> (r: usize)
        requires
            old(self).wf(),
            in_reach(position),
            old(self)@.anchors.len() < usize::MAX,
        ensures
            final(self).wf(),
            r == old(self)@.anchors.len(),
            final(self)@.anchors == old(self)@.anchors.push(
                Anchor { parent: None, leash: None, position, live: true },
            ),
            final(self)@.leashes == old(self)@.leashes,
    {
        let r = self.anchors.len();
        self.anchors.push(Anchor { parent: None, leash: None, position, live: true });
        proof {
            self.rank@ = self.rank@.push(0);
            assert(self.anchors@[r as int].parent is None);
        }
        r
    }

    /// Adds an anchor at `position` whose parent is `parent`, and returns its
    /// index. With a colour, the link to the parent gets a new leash of that
    /// colour; without one, the anchor has no leash of its own.
    pub fn add_follower(&mut self, position: Point, parent: usize, color: Option<u32>) -> (r: usize)
        requires
            old(self).wf(),
            in_reach(position),
            parent < old(self)@.anchors.len(),
            old(self)@.anchors.len() < usize::MAX,
            old(self)@.leashes.len() < usize::MAX,
        ensures
            final(self).wf(),
            r == old(self)@.anchors.len(),
            final(self)@.anchors == old(self)@.anchors.push(
                Anchor {
                    parent: Some(parent),
                    leash: match color {
                        Some(_) => Some(old(self)@.leashes.len() as usize),
                        None => None,
                    },
                    position,
                    live: true,
                },
            ),
            final(self)@.leashes == match color {
                Some(c) => old(self)@.leashes.push(
                    Leash { color: c, live: true, transform: idle_transform() },
                ),
                None => old(self)@.leashes,
            },
    {
        let r = self.anchors.len();
        let leash = match color {
            Some(c) => {
                let l = self.leashes.len();
                self.leashes.push(
                    Leash {
                        color: c,
                        live: true,
                        transform: idle(),
                    },
                );
                Some(l)
            },
            None => None,
        };
        self.anchors.push(Anchor { parent: Some(parent), leash, position, live: true });
        proof {
            let old_rank = self.rank@;
            self.rank@ = old_rank.push(old_rank[parent as int] + 1);
            assert(self.anchors@[r as int].parent == Some(parent));
        }
        r
    }

    /// Moves anchor `i` to `position`; roots and followers track the entities
    /// they stand for.
    pub fn set_position(&mut self, i: usize, position: Point)
        requires
            old(self).wf(),
            i < old(self)@.anchors.len(),
            in_reach(position),
        ensures
            final(self).wf(),
            final(self)@.anchors == old(self)@.anchors.update(
                i as int,
                Anchor { position, ..old(self)@.anchors[i as int] },
            ),
            final(self)@.leashes == old(self)@.leashes,
    {
        let a = self.anchors[i];
        self.anchors.set(i, Anchor { position, ..a });
        assert(self.anchors@[i as int].parent == a.parent);
    }

    /// Destroys anchor `i` together with its leash, as when the entity it
    /// stands for goes away. Anchors that hang from it are left in place and
    /// no longer change until they get a live parent again.
    pub fn despawn(&mut self, i: usize)
        requires
            old(self).wf(),
            i < old(self)@.anchors.len(),
        ensures
            final(self).wf(),
            final(self)@.anchors == old(self)@.anchors.update(
                i as int,
                Anchor { live: false, ..old(self)@.anchors[i as int] },
            ),
            final(self)@.leashes == match old(self)@.anchors[i as int].leash {
                Some(l) => old(self)@.leashes.update(
                    l as int,
                    Leash { live: false, ..old(self)@.leashes[l as int] },
                ),
                None => old(self)@.leashes,
            },
    {
        let ghost v = self@;
        let a = self.anchors[i];
        self.anchors.set(i, Anchor { live: false, ..a });
        match a.leash {
            Some(l) => {
                let lz = self.leashes[l];
                self.leashes.set(l, Leash { live: false, ..lz });
            },
            None => {},
        }
        proof {
            assert forall|j: int| 0 <= j < self@.anchors.len() implies (
            #[trigger] self@.anchors[j].parent matches Some(q) ==> self.rank@[q as int]
                < self.rank@[j]) by {
                assert(self@.anchors[j].parent == v.anchors[j].parent);
            }
            assert forall|j: int| is_live(self@, j) implies (
            #[trigger] self@.anchors[j].leash matches Some(q) ==> self@.leashes[q as int].live) by {
                assert(is_live(v, j));
                if j != i && self@.anchors[j].leash is Some && a.leash is Some {
                    assert(v.anchors[j].leash != v.anchors[i as int].leash);
                }
            }
            assert forall|j: int| 0 <= j < self@.anchors.len() implies #[trigger] self@.anchors[j].leash
                == v.anchors[j].leash by {}
        }
    }

    /// Applies one mutation. One whose anchors are gone or whose links no
    /// longer match the graph is dropped.
    pub fn apply(&mut self, m: &Mutation)
        requires
            old(self).wf(),
        ensures
            final(self).wf(),
            final(self)@ == mutated(old(self)@, *m),
    {
        match *m {
            Mutation::Splice { child, parent, position } => {
                if child < self.anchors.len() && parent < self.anchors.len()
                    && self.anchors.len() < usize::MAX && self.leashes.len() < usize::MAX
                    && position.is_within(REACH_LIMIT) {
                    let c = self.anchors[child];
                    if c.live && self.anchors[parent].live && c.parent == Some(parent) {
                        self.splice(child, parent, position);
                    }
                }
            },
            Mutation::Prune { child, parent, grandparent } => {
                if child < self.anchors.len() && parent < self.anchors.len() && grandparent
                    < self.anchors.len() {
                    let c = self.anchors[child];
                    let p = self.anchors[parent];
                    if c.live && p.live && self.anchors[grandparent].live && c.parent == Some(
                        parent,
                    ) && p.parent == Some(grandparent) {
                        self.prune(child, parent, grandparent);
                    }
                }
            },
        }
    }

    /// Applies a list of mutations in order.
    pub fn apply_all(&mut self, ms: &Vec<Mutation>)
        requires
            old(self).wf(),
        ensures
            final(self).wf(),
            final(self)@ == mutated_all(old(self)@, ms@),
    {
        let ghost v0 = self@;
        let mut k: usize = 0;
        while k < ms.len()
            invariant
                k <= ms@.len(),
                self.wf(),
                self@ == mutated_all(v0, ms@.take(k as int)),
            decreases ms@.len() - k,
        {
            self.apply(&ms[k]);
            proof {
                let t = ms@.take(k as int + 1);
                assert(t.drop_last() == ms@.take(k as int));
                assert(t.last() == ms@[k as int]);
            }
            k = k + 1;
        }
        assert(ms@.take(ms@.len() as int) == ms@);
    }

    fn splice(&mut self, child: usize, parent: usize, position: Point)
        requires
            old(self).wf(),
            splice_applies(old(self)@, child as int, parent as int, position),
        ensures
            final(self).wf(),
            final(self)@ == spliced(old(self)@, child as int, parent as int, position),
    {
        let ghost v = self@;
        let c = self.anchors[child];
        let color = match c.leash {
            Some(l) => self.leashes[l].color,
            None => DEFAULT_LEASH_COLOR,
        };
        let m = self.anchors.len();
        let l = self.leashes.len();
        self.leashes.push(
            Leash {
                color,
                live: true,
                transform: idle(),
            },
        );
        self.anchors.set(child, Anchor { parent: Some(m), ..c });
        self.anchors.push(Anchor { parent: Some(parent), leash: Some(l), position, live: true });
        proof {
            let old_rank = self.rank@;
            let new_rank = Seq::new(
                (m + 1) as nat,
                |i: int|
                    if i < m {
                        2 * old_rank[i]
                    } else {
                        2 * old_rank[parent as int] + 1
                    },
            );
            self.rank@ = new_rank;
            assert(self@ =~= spliced(v, child as int, parent as int, position));
            assert forall|i: int| 0 <= i < self@.anchors.len() implies (
            #[trigger] self@.anchors[i].parent matches Some(q) ==> new_rank[q as int]
                < new_rank[i]) by {
                if i < m && i != child {
                    assert(self@.anchors[i] == v.anchors[i]);
                }
            }
            assert forall|i: int, j: int|
                0 <= i < self@.anchors.len() && 0 <= j < self@.anchors.len() && i != j
                    && #[trigger] self@.anchors[i].leash is Some
                    && #[trigger] self@.anchors[j].leash is Some implies self@.anchors[i].leash
                != self@.anchors[j].leash by {
                if i < m {
                    assert(self@.anchors[i].leash == v.anchors[i].leash);
                }
                if j < m {
                    assert(self@.anchors[j].leash == v.anchors[j].leash);
                }
            }
            assert forall|i: int| is_live(self@, i) implies (
            #[trigger] self@.anchors[i].leash matches Some(q) ==> self@.leashes[q as int].live) by {
                if i < m {
                    assert(is_live(v, i));
                }
            }
        }
    }

    fn prune(&mut self, child: usize, parent: usize, grandparent: usize)
        requires
            old(self).wf(),
            prune_applies(old(self)@, child as int, parent as int, grandparent as int),
        ensures
            final(self).wf(),
            final(self)@ == pruned(old(self)@, child as int, parent as int, grandparent as int),
    {
        let ghost v = self@;
        let c = self.anchors[child];
        let p = self.anchors[parent];
        self.anchors.set(child, Anchor { parent: Some(grandparent), ..c });
        self.anchors.set(parent, Anchor { live: false, ..p });
        match p.leash {
            Some(l) => {
                let lz = self.leashes[l];
                self.leashes.set(l, Leash { live: false, ..lz });
            },
            None => {},
        }
        proof {
            assert(self@ =~= pruned(v, child as int, parent as int, grandparent as int));
            assert(child != parent);
            assert forall|i: int| is_live(self@, i) implies (
            #[trigger] self@.anchors[i].leash matches Some(q) ==> self@.leashes[q as int].live) by {
                assert(is_live(v, i));
                if i != parent && self@.anchors[i].leash is Some && p.leash is Some {
                    assert(v.anchors[i].leash != v.anchors[parent as int].leash);
                }
            }
            assert forall|j: int| 0 <= j < self@.anchors.len() implies #[trigger] self@.anchors[j].leash
                == v.anchors[j].leash by {}
        }
    }

    /// Redraws every leash that runs from a live anchor to its live parent;
    /// anchors and all other leashes stay as they are.
    pub fn project_leashes(&mut self)
        requires
            old(self).wf(),
        ensures
            final(self).wf(),
            final(self)@ == projected(old(self)@),
    {
        let ghost v = self@;
        let n = self.anchors.len();
        let nl = self.leashes.len();
        let mut i: usize = 0;
        while i < n
            invariant
                n == v.anchors.len(),
                nl == v.leashes.len(),
                i <= n,
                self.wf(),
                self@.anchors == v.anchors,
                self@.leashes.len() == v.leashes.len(),
                links_ok(v),
                forall|l: int|
                    0 <= l < v.leashes.len() ==> #[trigger] self@.leashes[l] == if exists|j: int|
                        0 <= j < i && draws(v.anchors, l, j) {
                        projected_leash(v, l)
                    } else {
                        v.leashes[l]
                    },
            decreases n - i,
        {
            let a = self.anchors[i];
            let ghost before = self@.leashes;
            let mut drawn = false;
            let ghost mut drawn_l: int = -1;
            if a.live {
                match (a.parent, a.leash) {
                    (Some(p), Some(l)) => {
                        if self.anchors[p].live {
                            let t = project_leash(&self.anchors[p].position, &a.position);
                            let lz = self.leashes[l];
                            self.leashes.set(l, Leash { transform: t, ..lz });
                            drawn = true;
                            proof {
                                drawn_l = l as int;
                                assert(draws(v.anchors, l as int, i as int));
                                let w = choose|j: int| draws(v.anchors, l as int, j);
                                assert(draws(v.anchors, l as int, w));
                                assert(w == i);
                                assert(self@.leashes == before.update(
                                    l as int,
                                    projected_leash(v, l as int),
                                ));
                            }
                        }
                    },
                    _ => {},
                }
            }
            proof {
                assert(a == v.anchors[i as int]);
                if drawn {
                    assert(a.leash == Some(drawn_l as usize) && 0 <= drawn_l < v.leashes.len());
                    assert(draws(v.anchors, drawn_l, i as int));
                    assert(self@.leashes == before.update(drawn_l, projected_leash(v, drawn_l)));
                } else {
                    assert(self@.leashes == before);
                    assert forall|l: int| 0 <= l < v.leashes.len() implies !draws(v.anchors, l, i as int) by {}
                }
                assert forall|l: int| 0 <= l < v.leashes.len() implies #[trigger] self@.leashes[l]
                    == if exists|j: int| 0 <= j < i + 1 && draws(v.anchors, l, j) {
                    projected_leash(v, l)
                } else {
                    v.leashes[l]
                } by {
                    if drawn && l == drawn_l {
                        assert(draws(v.anchors, l, i as int));
                        assert(exists|j: int| 0 <= j < i + 1 && draws(v.anchors, l, j));
                    } else {
                        assert(self@.leashes[l] == before[l]);
                        if drawn {
                            assert(v.anchors[i as int].leash != Some(l as usize));
                        }
                        assert(!draws(v.anchors, l, i as int));
                        if exists|j: int| 0 <= j < i + 1 && draws(v.anchors, l, j) {
                            let j = choose|j: int| 0 <= j < i + 1 && draws(v.anchors, l, j);
                            assert(j < i);
                        }
                    }
                }
            }
            i = i + 1;
        }
        proof {
            assert forall|l: int| 0 <= l < v.leashes.len() implies #[trigger] self@.leashes[l]
                == projected_leash(v, l) by {
                if exists|j: int| draws(v.anchors, l, j) {
                    let j = choose|j: int| draws(v.anchors, l, j);
                    assert(0 <= j < n && draws(v.anchors, l, j));
                }
            }
            assert(self@.leashes =~= projected(v).leashes);
        }
    }

    /// Number of anchor slots, dead ones included.
    pub fn anchor_count(&self) -> (r: usize)
        ensures
            r == self@.anchors.len(),
    {
        self.anchors.len()
    }

    /// Number of leash slots, dead ones included.
    pub fn leash_count(&self) -> (r: usize)
        ensures
            r == self@.leashes.len(),
    {
        self.leashes.len()
    }

    /// The anchor in slot `i`.
    pub fn anchor(&self, i: usize) -> (r: Anchor)
        requires
            i < self@.anchors.len(),
        ensures
            r == self@.anchors[i as int],
    {
        self.anchors[i]
    }

    /// The leash in slot `l`.
    pub fn leash(&self, l: usize) -> (r: Leash)
        requires
            l < self@.leashes.len(),
        ensures
            r == self@.leashes[l as int],
    {
        self.leashes[l]
    }
}

} // verus!
