use vstd::prelude::*;
use crate::geometry::{in_reach, in_world, sq_dist, squared_distance, Point, WORLD_LIMIT};
use crate::graph::{
    is_live, is_root, links_ok, mutated, mutated_all, projected, projected_leash, AnchorGraph,
    GraphView, Mutation,
};
use crate::obstacle::{anchor_corner, choose_corner, lemma_corner_in_reach, ObstacleBox};
use crate::selection::{first_min, lemma_first_min};

verus! {

/// Where a ray met an obstacle: the distance along the ray, the point of
/// contact, and the obstacle's placed bounding box.
#[derive(Clone, Copy, Debug, PartialEq, Eq, Structural)]
pub struct Hit {
    pub distance: u64,
    pub point: Point,
    pub obstacle: ObstacleBox,
}

/// What the rays cast for one anchor found this frame: the hits on the ray
/// from its parent toward it, one per obstacle met, and whether anything
/// blocks the ray from it toward its grandparent.
#[derive(Debug)]
pub struct Sight {
    pub hits: Vec<Hit>,
    pub back_blocked: bool,
}

pub open spec fn hit_ok(h: Hit) -> bool {
    in_world(h.point) && h.obstacle.wf()
}

pub open spec fn sights_ok(sights: Seq<Sight>) -> bool {
    forall|c: int, k: int|
        0 <= c < sights.len() && 0 <= k < sights[c].hits@.len() ==> hit_ok(
            #[trigger] sights[c].hits@[k],
        )
}

/// The hit lies strictly between the ray's start and the anchor it aims at.
pub open spec fn blocks(h: Hit, from: Point, to: Point) -> bool {
    (h.distance as int) * (h.distance as int) < sq_dist(from, to)
}

pub open spec fn hit_keys(hits: Seq<Hit>, from: Point, to: Point) -> Seq<Option<int>> {
    Seq::new(
        hits.len(),
        |k: int|
            if blocks(hits[k], from, to) {
                Some(hits[k].distance as int)
            } else {
                None
            },
    )
}

/// The nearest hit that blocks the sight line from `from` to `to`; of hits at
/// equal distance, the first. A sight line of zero length is never blocked.
pub open spec fn nearest_blocker(hits: Seq<Hit>, from: Point, to: Point) -> Option<int> {
    if from == to {
        None
    } else {
        first_min(hit_keys(hits, from, to), hits.len() as int)
    }
}

pub open spec fn position(v: GraphView, i: int) -> Point {
    v.anchors[i].position
}

/// The live parent of a live anchor, if it has one.
pub open spec fn live_parent(v: GraphView, c: int) -> Option<int> {
    if is_live(v, c) {
        match v.anchors[c].parent {
            Some(p) => if is_live(v, p as int) {
                Some(p as int)
            } else {
                None
            },
            None => None,
        }
    } else {
        None
    }
}

/// The splice that the sight line from `c`'s parent to `c` calls for, if any:
/// a new anchor at the picked corner of the nearest blocking obstacle, unless
/// that corner is where `c` or its parent already stands.
pub open spec fn splice_for(v: GraphView, s: Sight, c: int, p: int) -> Option<Mutation> {
    match nearest_blocker(s.hits@, position(v, p), position(v, c)) {
        Some(k) => {
            let h = s.hits@[k];
            let corner = anchor_corner(h.obstacle, h.point);
            if corner != position(v, c) && corner != position(v, p) {
                Some(Mutation::Splice { child: c as usize, parent: p as usize, position: corner })
            } else {
                None
            }
        },
        None => None,
    }
}

/// The prune that a clear sight line from `c` to its grandparent calls for.
pub open spec fn prune_for(v: GraphView, s: Sight, c: int, p: int) -> Option<Mutation> {
    match live_parent(v, p) {
        Some(g) => if position(v, c) == position(v, g) || !s.back_blocked {
            Some(Mutation::Prune { child: c as usize, parent: p as usize, grandparent: g as usize })
        } else {
            None
        },
        None => None,
    }
}

/// The one change, if any, that anchor `c` asks for this frame. A splice
/// takes priority over a prune.
pub open spec fn decision(v: GraphView, sights: Seq<Sight>, c: int) -> Option<Mutation> {
    if c < 0 || c >= sights.len() {
        None
    } else {
        match live_parent(v, c) {
            Some(p) => match splice_for(v, sights[c], c, p) {
                Some(m) => Some(m),
                None => prune_for(v, sights[c], c, p),
            },
            None => None,
        }
    }
}

pub open spec fn is_splice(m: Mutation) -> bool {
    m is Splice
}

/// The changes of one phase asked for by anchors `0..n`, in anchor order:
/// the splices when `creates` holds, the prunes otherwise.
pub open spec fn planned(v: GraphView, sights: Seq<Sight>, n: int, creates: bool) -> Seq<
    Mutation,
>
    decreases n,
{
    if n <= 0 {
        Seq::empty()
    } else {
        let prev = planned(v, sights, n - 1, creates);
        match decision(v, sights, n - 1) {
            Some(m) => if is_splice(m) == creates {
                prev.push(m)
            } else {
                prev
            },
            None => prev,
        }
    }
}

/// The changes of a whole frame: every splice, in anchor order, then every
/// prune, in anchor order.
pub open spec fn frame_plan(v: GraphView, sights: Seq<Sight>) -> Seq<Mutation> {
    planned(v, sights, v.anchors.len() as int, true) + planned(
        v,
        sights,
        v.anchors.len() as int,
        false,
    )
}

/// The graph after one frame: every anchor's change is decided on the graph
/// as it stood, the splices are applied, then the prunes, then the leashes
/// are redrawn.
pub open spec fn after_frame(v: GraphView, sights: Seq<Sight>) -> GraphView {
    projected(mutated_all(v, frame_plan(v, sights)))
}

pub open spec fn mutation_child(m: Mutation) -> int {
    match m {
        Mutation::Splice { child, .. } => child as int,
        Mutation::Prune { child, .. } => child as int,
    }
}

fn blocks_exec(h: &Hit, sq: u128) -> (r: bool)
    ensures
        r == ((h.distance as int) * (h.distance as int) < sq),
{
    let d = h.distance as u128;
    assert(d * d <= 0xffff_ffff_ffff_ffff * 0xffff_ffff_ffff_ffffu128) by (nonlinear_arith)
        requires
            d <= 0xffff_ffff_ffff_ffffu128,
    ;
    d * d < sq
}

/// Finds the nearest hit that blocks the sight line from `from` to `to`.
pub fn find_blocker(hits: &Vec<Hit>, from: &Point, to: &Point) -> (r: Option<usize>)
    requires
        in_reach(*from),
        in_reach(*to),
    ensures
        match r {
            Some(k) => nearest_blocker(hits@, *from, *to) == Some(k as int),
            None => nearest_blocker(hits@, *from, *to) is None,
        },
        r matches Some(k) ==> k < hits@.len(),
{
    if *from == *to {
        return None;
    }
    let sq = squared_distance(from, to) as u128;
    let ghost keys = hit_keys(hits@, *from, *to);
    let mut best: Option<usize> = None;
    let mut best_d: u64 = 0;
    let mut i: usize = 0;
    while i < hits.len()
        invariant
            i <= hits@.len(),
            sq == sq_dist(*from, *to),
            keys == hit_keys(hits@, *from, *to),
            match best {
                Some(k) => first_min(keys, i as int) == Some(k as int) && k < i && best_d
                    == hits@[k as int].distance,
                None => first_min(keys, i as int) is None,
            },
        decreases hits@.len() - i,
    {
        let h = &hits[i];
        proof {
            assert(keys[i as int] == if blocks(*h, *from, *to) {
                Some(h.distance as int)
            } else {
                None
            });
            lemma_first_min(keys, i as int);
            if let Some(k) = best {
                assert(keys[k as int] == Some(best_d as int));
            }
        }
        if blocks_exec(h, sq) {
            match best {
                Some(_) => {
                    if h.distance < best_d {
                        best = Some(i);
                        best_d = h.distance;
                    }
                },
                None => {
                    best = Some(i);
                    best_d = h.distance;
                },
            }
        }
        i = i + 1;
    }
    proof {
        lemma_first_min(keys, hits@.len() as int);
    }
    best
}

/// The two ends of the sight line checked for a splice above `c`: its
/// parent's position, then its own.
pub fn forward_line(g: &AnchorGraph, c: usize) -> (r: Option<(Point, Point)>)
    requires
        g.wf(),
    ensures
        match live_parent(g@, c as int) {
            Some(p) => r == Some((position(g@, p), position(g@, c as int))),
            None => r is None,
        },
{
    match live_parent_exec(g, c) {
        Some(p) => Some((g.anchor(p).position, g.anchor(c).position)),
        None => None,
    }
}

/// The two ends of the sight line checked for a prune above `c`: its own
/// position, then its grandparent's.
pub fn back_line(g: &AnchorGraph, c: usize) -> (r: Option<(Point, Point)>)
    requires
        g.wf(),
    ensures
        match live_parent(g@, c as int) {
            Some(p) => match live_parent(g@, p) {
                Some(gp) => r == Some((position(g@, c as int), position(g@, gp))),
                None => r is None,
            },
            None => r is None,
        },
{
    match live_parent_exec(g, c) {
        Some(p) => match live_parent_exec(g, p) {
            Some(gp) => Some((g.anchor(c).position, g.anchor(gp).position)),
            None => None,
        },
        None => None,
    }
}

fn live_parent_exec(g: &AnchorGraph, c: usize) -> (r: Option<usize>)
    requires
        g.wf(),
    ensures
        match r {
            Some(p) => live_parent(g@, c as int) == Some(p as int),
            None => live_parent(g@, c as int) is None,
        },
{
    proof {
        g.lemma_wf_links();
    }
    if c >= g.anchor_count() {
        return None;
    }
    let a = g.anchor(c);
    if !a.live {
        return None;
    }
    match a.parent {
        Some(p) => {
            if g.anchor(p).live {
                Some(p)
            } else {
                None
            }
        },
        None => None,
    }
}

/// Whether every hit in the reports lies within the world's bounds, as
/// planning a frame requires.
pub fn sights_in_world(sights: &Vec<Sight>) -> (r: bool)
    ensures
        r == sights_ok(sights@),
{
    let mut c: usize = 0;
    while c < sights.len()
        invariant
            c <= sights@.len(),
            forall|c2: int, k: int|
                0 <= c2 < c && 0 <= k < sights@[c2].hits@.len() ==> hit_ok(
                    #[trigger] sights@[c2].hits@[k],
                ),
        decreases sights@.len() - c,
    {
        let hits = &sights[c].hits;
        let mut k: usize = 0;
        while k < hits.len()
            invariant
                c < sights@.len(),
                hits@ == sights@[c as int].hits@,
                k <= hits@.len(),
                forall|c2: int, k2: int|
                    0 <= c2 < c && 0 <= k2 < sights@[c2].hits@.len() ==> hit_ok(
                        #[trigger] sights@[c2].hits@[k2],
                    ),
                forall|k2: int| 0 <= k2 < k ==> hit_ok(#[trigger] hits@[k2]),
            decreases hits@.len() - k,
        {
            let h = &hits[k];
            let b = &h.obstacle;
            if !(h.point.is_within(WORLD_LIMIT) && b.origin.is_within(WORLD_LIMIT)
                && b.min.is_within(WORLD_LIMIT) && b.max.is_within(WORLD_LIMIT)) {
                return false;
            }
            k = k + 1;
        }
        c = c + 1;
    }
    true
}

/// The one change, if any, that anchor `c` asks for this frame, given what
/// its rays found.
pub fn decide(g: &AnchorGraph, sights: &Vec<Sight>, c: usize) -> (r: Option<Mutation>)
    requires
        g.wf(),
        sights_ok(sights@),
    ensures
        r == decision(g@, sights@, c as int),
{
    proof {
        g.lemma_wf_links();
    }
    if c >= sights.len() {
        return None;
    }
    let p = match live_parent_exec(g, c) {
        Some(p) => p,
        None => return None,
    };
    let s = &sights[c];
    let from = g.anchor(p).position;
    let to = g.anchor(c).position;
    match find_blocker(&s.hits, &from, &to) {
        Some(k) => {
            let h = &s.hits[k];
            proof {
                assert(hit_ok(sights@[c as int].hits@[k as int]));
            }
            let corner = choose_corner(&h.obstacle, &h.point);
            if corner != to && corner != from {
                return Some(Mutation::Splice { child: c, parent: p, position: corner });
            }
        },
        None => {},
    }
    match live_parent_exec(g, p) {
        Some(gp) => {
            if to == g.anchor(gp).position || !s.back_blocked {
                Some(Mutation::Prune { child: c, parent: p, grandparent: gp })
            } else {
                None
            }
        },
        None => None,
    }
}

/// Decides the changes of a whole frame from the graph as it stands: one
/// entry per anchor that asks for a change, the splices first and the prunes
/// after them, each group in anchor order.
pub fn plan_frame(g: &AnchorGraph, sights: &Vec<Sight>) -> (r: Vec<Mutation>)
    requires
        g.wf(),
        sights_ok(sights@),
    ensures
        r@ == frame_plan(g@, sights@),
{
    let n = g.anchor_count();
    let mut out: Vec<Mutation> = Vec::new();
    let mut prunes: Vec<Mutation> = Vec::new();
    let mut c: usize = 0;
    while c < n
        invariant
            n == g@.anchors.len(),
            c <= n,
            g.wf(),
            sights_ok(sights@),
            out@ == planned(g@, sights@, c as int, true),
            prunes@ == planned(g@, sights@, c as int, false),
        decreases n - c,
    {
        match decide(g, sights, c) {
            Some(m) => match m {
                Mutation::Splice { .. } => out.push(m),
                Mutation::Prune { .. } => prunes.push(m),
            },
            None => {},
        }
        c = c + 1;
    }
    let ghost splices = out@;
    let mut k: usize = 0;
    while k < prunes.len()
        invariant
            k <= prunes@.len(),
            out@ == splices + prunes@.take(k as int),
        decreases prunes@.len() - k,
    {
        out.push(prunes[k]);
        proof {
            assert(prunes@.take(k as int + 1) == prunes@.take(k as int).push(prunes@[k as int]));
        }
        k = k + 1;
    }
    assert(prunes@.take(prunes@.len() as int) == prunes@);
    out
}

/// Runs one frame: decides every anchor's change on the graph as it stands,
/// applies all splices, then all prunes, then redraws the leashes.
pub fn step(g: &mut AnchorGraph, sights: &Vec<Sight>)
    requires
        old(g).wf(),
        sights_ok(sights@),
    ensures
        final(g).wf(),
        final(g)@ == after_frame(old(g)@, sights@),
{
    let plan = plan_frame(g, sights);
    g.apply_all(&plan);
    g.project_leashes();
}

proof fn lemma_planned(v: GraphView, sights: Seq<Sight>, n: int, creates: bool)
    requires
        0 <= n <= usize::MAX + 1,
    ensures
        forall|i: int|
            0 <= i < planned(v, sights, n, creates).len() ==> 0 <= #[trigger] mutation_child(
                planned(v, sights, n, creates)[i],
            ) < n && decision(v, sights, mutation_child(planned(v, sights, n, creates)[i]))
                == Some(planned(v, sights, n, creates)[i]) && is_splice(
                planned(v, sights, n, creates)[i],
            ) == creates,
        forall|i: int, j: int|
            0 <= i < j < planned(v, sights, n, creates).len() ==> mutation_child(
                #[trigger] planned(v, sights, n, creates)[i],
            ) < mutation_child(#[trigger] planned(v, sights, n, creates)[j]),
    decreases n,
{
    if n > 0 {
        lemma_planned(v, sights, n - 1, creates);
        let prev = planned(v, sights, n - 1, creates);
        let cur = planned(v, sights, n, creates);
        if let Some(m) = decision(v, sights, n - 1) {
            assert(mutation_child(m) == n - 1);
            if is_splice(m) == creates {
                assert(cur == prev.push(m));
                assert forall|i: int| 0 <= i < prev.len() implies #[trigger] cur[i] == prev[i] by {}
            } else {
                assert(cur == prev);
            }
        } else {
            assert(cur == prev);
        }
    }
}

/// Each anchor gets at most one change per frame: the changes of a frame name
/// distinct anchors, each is the one decided for the anchor it names, and no
/// prune comes before a splice.
pub proof fn lemma_one_change_per_anchor(g: &AnchorGraph, sights: Seq<Sight>)
    requires
        g.wf(),
    ensures
        forall|i: int, j: int|
            0 <= i < frame_plan(g@, sights).len() && 0 <= j < frame_plan(g@, sights).len() && i
                != j ==> mutation_child(#[trigger] frame_plan(g@, sights)[i]) != mutation_child(
                #[trigger] frame_plan(g@, sights)[j],
            ),
        forall|i: int|
            0 <= i < frame_plan(g@, sights).len() ==> decision(
                g@,
                sights,
                mutation_child(#[trigger] frame_plan(g@, sights)[i]),
            ) == Some(frame_plan(g@, sights)[i]),
        forall|i: int, j: int|
            0 <= i < j < frame_plan(g@, sights).len() && is_splice(
                #[trigger] frame_plan(g@, sights)[j],
            ) ==> is_splice(#[trigger] frame_plan(g@, sights)[i]),
{
    g.lemma_wf_links();
    let n = g@.anchors.len() as int;
    lemma_planned(g@, sights, n, true);
    lemma_planned(g@, sights, n, false);
    let a = planned(g@, sights, n, true);
    let b = planned(g@, sights, n, false);
    let plan = frame_plan(g@, sights);
    assert(plan == a + b);
    assert forall|i: int| 0 <= i < plan.len() implies #[trigger] plan[i] == if i < a.len() {
        a[i]
    } else {
        b[i - a.len()]
    } by {}
    assert forall|i: int, j: int|
        0 <= i < plan.len() && 0 <= j < plan.len() && i != j implies mutation_child(
        #[trigger] plan[i],
    ) != mutation_child(#[trigger] plan[j]) by {
        if i < a.len() && j >= a.len() {
            assert(is_splice(plan[i]) && !is_splice(plan[j]));
        } else if j < a.len() && i >= a.len() {
            assert(is_splice(plan[j]) && !is_splice(plan[i]));
        } else if i < a.len() {
            if i < j {
                assert(mutation_child(a[i]) < mutation_child(a[j]));
            } else {
                assert(mutation_child(a[j]) < mutation_child(a[i]));
            }
        } else {
            if i < j {
                assert(mutation_child(b[i - a.len()]) < mutation_child(b[j - a.len()]));
            } else {
                assert(mutation_child(b[j - a.len()]) < mutation_child(b[i - a.len()]));
            }
        }
    }
}

/// A splice never puts the new anchor where the anchor below it or the anchor
/// above it stands.
pub proof fn lemma_splice_moves_off_ends(g: &AnchorGraph, sights: Seq<Sight>, i: int)
    requires
        g.wf(),
        0 <= i < frame_plan(g@, sights).len(),
    ensures
        frame_plan(g@, sights)[i] matches Mutation::Splice { child, parent, position: at } ==> at
            != position(g@, child as int) && at != position(g@, parent as int),
{
    lemma_one_change_per_anchor(g, sights);
    let m = frame_plan(g@, sights)[i];
    let c = mutation_child(m);
    assert(decision(g@, sights, c) == Some(m));
}

/// A frame in which the rays found nothing at all.
pub open spec fn all_clear(sights: Seq<Sight>) -> bool {
    forall|k: int| 0 <= k < sights.len() ==> (#[trigger] sights[k]).hits@.len() == 0 && !sights[k].back_blocked
}

proof fn lemma_projected_keeps(v: GraphView)
    ensures
        projected(v).anchors == v.anchors,
        projected(v).leashes.len() == v.leashes.len(),
        forall|l: int|
            0 <= l < v.leashes.len() ==> (#[trigger] projected(v).leashes[l]).live
                == v.leashes[l].live,
{
    assert forall|l: int| 0 <= l < v.leashes.len() implies (
    #[trigger] projected(v).leashes[l]).live == v.leashes[l].live by {
        assert(projected(v).leashes[l] == projected_leash(v, l));
    }
}

proof fn lemma_first_frame(v: GraphView, first: Seq<Sight>)
    requires
        links_ok(v),
        v.anchors.len() == 2,
        is_live(v, 0),
        is_root(v, 0),
        is_live(v, 1),
        v.anchors[1].parent == Some(0usize),
        v.leashes.len() < usize::MAX,
        first.len() >= 2,
        sights_ok(first),
        splice_for(v, first[1], 1, 0) is Some,
    ensures
        ({
            let mid = after_frame(v, first);
            &&& mid.anchors.len() == 3
            &&& is_live(mid, 0) && is_root(mid, 0)
            &&& is_live(mid, 1) && mid.anchors[1].parent == Some(2usize)
            &&& is_live(mid, 2) && mid.anchors[2].parent == Some(0usize)
            &&& mid.anchors[2].leash matches Some(l) && l < mid.leashes.len() && mid.leashes[l as int].live
        }),
{
    let m = splice_for(v, first[1], 1, 0).unwrap();
    assert(live_parent(v, 0) is None);
    assert(live_parent(v, 1) == Some(0int));
    assert(decision(v, first, 0) is None);
    assert(decision(v, first, 1) == Some(m));
    assert(planned(v, first, 0, true) == Seq::<Mutation>::empty());
    assert(planned(v, first, 1, true) == Seq::<Mutation>::empty());
    assert(planned(v, first, 2, true) == seq![m]);
    assert(planned(v, first, 0, false) == Seq::<Mutation>::empty());
    assert(planned(v, first, 1, false) == Seq::<Mutation>::empty());
    assert(planned(v, first, 2, false) == Seq::<Mutation>::empty());
    let plan1 = frame_plan(v, first);
    assert(plan1 == seq![m]);
    let k = nearest_blocker(first[1].hits@, position(v, 0), position(v, 1)).unwrap();
    lemma_first_min(
        hit_keys(first[1].hits@, position(v, 0), position(v, 1)),
        first[1].hits@.len() as int,
    );
    let h = first[1].hits@[k];
    assert(hit_ok(h));
    lemma_corner_in_reach(h.obstacle, crate::obstacle::nearest_corner_index(h.obstacle, h.point));
    assert(plan1.drop_last() == Seq::<Mutation>::empty());
    assert(plan1.last() == m);
    assert(mutated_all(v, Seq::<Mutation>::empty()) == v);
    assert(m == Mutation::Splice { child: 1, parent: 0, position: anchor_corner(h.obstacle, h.point) });
    assert(in_reach(anchor_corner(h.obstacle, h.point)));
    assert(mutated_all(v, plan1) == mutated(v, m));
    lemma_projected_keeps(mutated(v, m));
    assert(mutated(v, m).leashes[v.leashes.len() as int].live);
}

proof fn lemma_second_frame(mid: GraphView, second: Seq<Sight>)
    requires
        mid.anchors.len() == 3,
        is_live(mid, 0) && is_root(mid, 0),
        is_live(mid, 1) && mid.anchors[1].parent == Some(2usize),
        is_live(mid, 2) && mid.anchors[2].parent == Some(0usize),
        mid.anchors[2].leash matches Some(l) && l < mid.leashes.len(),
        second.len() >= 2,
        all_clear(second),
    ensures
        after_frame(mid, second).anchors[1].parent == Some(0usize),
        !after_frame(mid, second).anchors[2].live,
        !after_frame(mid, second).leashes[mid.anchors[2].leash.unwrap() as int].live,
{
    assert(live_parent(mid, 0) is None);
    assert(live_parent(mid, 2) == Some(0int));
    assert(live_parent(mid, 1) == Some(2int));
    assert(second[1].hits@.len() == 0);
    assert(hit_keys(second[1].hits@, position(mid, 2), position(mid, 1)).len() == 0);
    assert(splice_for(mid, second[1], 1, 2) is None);
    let pr = Mutation::Prune { child: 1, parent: 2, grandparent: 0 };
    assert(decision(mid, second, 0) is None);
    assert(decision(mid, second, 1) == Some(pr));
    if second.len() > 2 {
        assert(second[2].hits@.len() == 0);
        assert(hit_keys(second[2].hits@, position(mid, 0), position(mid, 2)).len() == 0);
        assert(splice_for(mid, second[2], 2, 0) is None);
    }
    assert(decision(mid, second, 2) is None);
    assert(planned(mid, second, 0, true) == Seq::<Mutation>::empty());
    assert(planned(mid, second, 1, true) == Seq::<Mutation>::empty());
    assert(planned(mid, second, 2, true) == Seq::<Mutation>::empty());
    assert(planned(mid, second, 3, true) == Seq::<Mutation>::empty());
    assert(planned(mid, second, 0, false) == Seq::<Mutation>::empty());
    assert(planned(mid, second, 1, false) == Seq::<Mutation>::empty());
    assert(planned(mid, second, 2, false) == seq![pr]);
    assert(planned(mid, second, 3, false) == seq![pr]);
    let plan2 = frame_plan(mid, second);
    assert(plan2 == seq![pr]);
    assert(plan2.drop_last() == Seq::<Mutation>::empty());
    assert(plan2.last() == pr);
    assert(mutated_all(mid, Seq::<Mutation>::empty()) == mid);
    assert(mutated_all(mid, plan2) == mutated(mid, pr));
    lemma_projected_keeps(mutated(mid, pr));
}

/// A leader and a follower with an obstacle between them: one frame puts a
/// single anchor between the two; once the obstacle is gone, the next frame
/// destroys that anchor and its leash, and the follower's parent is the
/// leader again.
pub proof fn lemma_splice_then_prune(g: &AnchorGraph, first: Seq<Sight>, second: Seq<Sight>)
    requires
        g.wf(),
        g@.anchors.len() == 2,
        is_live(g@, 0),
        is_root(g@, 0),
        is_live(g@, 1),
        g@.anchors[1].parent == Some(0usize),
        g@.leashes.len() < usize::MAX,
        first.len() >= 2,
        sights_ok(first),
        splice_for(g@, first[1], 1, 0) is Some,
        second.len() >= 2,
        all_clear(second),
    ensures
        ({
            let mid = after_frame(g@, first);
            &&& mid.anchors.len() == 3
            &&& mid.anchors[1].parent == Some(2usize)
            &&& mid.anchors[2].parent == Some(0usize)
            &&& mid.anchors[2].live
            &&& mid.anchors[2].leash matches Some(l) && mid.leashes[l as int].live
            &&& after_frame(mid, second).anchors[1].parent == Some(0usize)
            &&& !after_frame(mid, second).anchors[2].live
            &&& !after_frame(mid, second).leashes[mid.anchors[2].leash.unwrap() as int].live
        }),
{
    g.lemma_wf_links();
    lemma_first_frame(g@, first);
    lemma_second_frame(after_frame(g@, first), second);
}

} // verus!
