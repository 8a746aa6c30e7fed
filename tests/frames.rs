use leash_chain::frame::{
    back_line, decide, find_blocker, forward_line, plan_frame, sights_in_world, step, Hit, Sight,
};
use leash_chain::geometry::{Point, WORLD_LIMIT};
use leash_chain::graph::{AnchorGraph, Mutation, DEFAULT_LEASH_COLOR};
use leash_chain::obstacle::ObstacleBox;

const GREEN: u32 = 0x00FF_00FF;

fn cube(origin: Point, half: i64) -> ObstacleBox {
    ObstacleBox::new(
        origin,
        Point::new(origin.x - half, origin.y - half, origin.z - half),
        Point::new(origin.x + half, origin.y + half, origin.z + half),
    )
}

fn clear() -> Sight {
    Sight { hits: Vec::new(), back_blocked: false }
}

fn blocked_back() -> Sight {
    Sight { hits: Vec::new(), back_blocked: true }
}

fn seeing(hits: Vec<Hit>) -> Sight {
    Sight { hits, back_blocked: false }
}

/// A box centred on (5, 0, 0) world units, met by the ray from the origin
/// toward (10, 0, 0) at its near face.
fn wall_hit() -> Hit {
    Hit { distance: 4000, point: Point::new(4000, 0, 0), obstacle: cube(Point::new(5000, 0, 0), 1000) }
}

fn leader_and_pet() -> AnchorGraph {
    let mut g = AnchorGraph::new();
    let root = g.add_root(Point::new(0, 0, 0));
    let pet = g.add_follower(Point::new(10000, 0, 0), root, Some(GREEN));
    assert_eq!((root, pet), (0, 1));
    g
}

#[test]
fn leash_projection_of_a_new_pet() {
    let mut g = AnchorGraph::new();
    let root = g.add_root(Point::new(0, 0, 0));
    g.add_follower(Point::new(4000, 0, 0), root, Some(GREEN));
    g.project_leashes();
    let t = g.leash(0).transform;
    assert_eq!(t.scale.x, 2000);
    assert_eq!(t.translation, Point::new(2000, 0, 0));
}

#[test]
fn projecting_twice_changes_nothing() {
    let mut g = leader_and_pet();
    g.set_position(1, Point::new(3000, 0, -4000));
    g.project_leashes();
    let once = g.leash(0);
    g.project_leashes();
    assert_eq!(g.leash(0), once);
    assert_eq!(once.transform.scale.x, 2500);
    assert!(once.transform.turn_positive);
}

#[test]
fn obstacle_splices_then_clear_view_prunes() {
    let mut g = leader_and_pet();
    step(&mut g, &vec![clear(), seeing(vec![wall_hit()])]);
    assert_eq!(g.anchor_count(), 3);
    assert_eq!(g.leash_count(), 2);
    let mid = g.anchor(2);
    assert_eq!(mid.position, Point::new(3990, 0, -1010));
    assert_eq!(mid.parent, Some(0));
    assert_eq!(mid.leash, Some(1));
    assert!(mid.live);
    assert_eq!(g.anchor(1).parent, Some(2));
    assert_eq!(g.leash(1).color, GREEN);
    assert!(g.leash(1).live);
    // both leashes were drawn after the splice
    assert_eq!(g.leash(1).transform.translation, Point::new(1995, 0, -505));
    assert_eq!(g.leash(0).transform.translation, Point::new(6995, 0, -505));

    step(&mut g, &vec![clear(), clear(), clear()]);
    assert_eq!(g.anchor(1).parent, Some(0));
    assert!(!g.anchor(2).live);
    assert!(!g.leash(1).live);
    assert!(g.leash(0).live);
    assert_eq!(g.leash(0).transform.translation, Point::new(5000, 0, 0));
}

#[test]
fn splice_is_refused_when_the_corner_is_the_child() {
    let mut g = AnchorGraph::new();
    let root = g.add_root(Point::new(0, 0, 0));
    g.add_follower(Point::new(3990, 0, -1010), root, Some(GREEN));
    let hit = Hit { distance: 3000, point: Point::new(4000, 0, 0), obstacle: cube(Point::new(5000, 0, 0), 1000) };
    let sights = vec![clear(), seeing(vec![hit])];
    assert_eq!(decide(&g, &sights, 1), None);
    assert!(plan_frame(&g, &sights).is_empty());
    step(&mut g, &sights);
    assert_eq!(g.anchor_count(), 2);
    assert_eq!(g.anchor(1).parent, Some(0));
}

#[test]
fn splice_is_refused_when_the_corner_is_the_parent() {
    let mut g = AnchorGraph::new();
    let root = g.add_root(Point::new(3990, 0, -1010));
    g.add_follower(Point::new(10000, 0, 0), root, Some(GREEN));
    let hit = Hit { distance: 10, point: Point::new(4000, 0, 0), obstacle: cube(Point::new(5000, 0, 0), 1000) };
    assert_eq!(decide(&g, &vec![clear(), seeing(vec![hit])], 1), None);
}

#[test]
fn splice_takes_priority_over_prune() {
    let mut g = AnchorGraph::new();
    let root = g.add_root(Point::new(0, 0, 0));
    let mid = g.add_follower(Point::new(0, 0, 10000), root, Some(GREEN));
    let pet = g.add_follower(Point::new(10000, 0, 10000), mid, Some(GREEN));
    let hit = Hit { distance: 4000, point: Point::new(4000, 0, 10000), obstacle: cube(Point::new(5000, 0, 10000), 1000) };
    let sights = vec![clear(), blocked_back(), seeing(vec![hit])];
    let plan = plan_frame(&g, &sights);
    assert_eq!(plan.len(), 1);
    assert_eq!(
        plan[0],
        Mutation::Splice { child: pet, parent: mid, position: Point::new(3990, 0, 8990) }
    );
}

#[test]
fn each_anchor_gets_at_most_one_change() {
    let mut g = AnchorGraph::new();
    let root = g.add_root(Point::new(0, 0, 0));
    let a = g.add_follower(Point::new(0, 0, 10000), root, Some(GREEN));
    let b = g.add_follower(Point::new(10000, 0, 10000), a, Some(GREEN));
    let c = g.add_follower(Point::new(10000, 0, 20000), b, Some(GREEN));
    let sights = vec![clear(), clear(), clear(), clear()];
    let plan = plan_frame(&g, &sights);
    assert_eq!(
        plan,
        vec![
            Mutation::Prune { child: b, parent: a, grandparent: root },
            Mutation::Prune { child: c, parent: b, grandparent: a },
        ]
    );
    step(&mut g, &sights);
    // the first prune removes a, so the second no longer matches and is dropped
    assert_eq!(g.anchor(b).parent, Some(root));
    assert!(!g.anchor(a).live);
    assert!(g.anchor(b).live);
    assert_eq!(g.anchor(c).parent, Some(b));
}

#[test]
fn blocked_grandparent_keeps_the_chain() {
    let mut g = AnchorGraph::new();
    let root = g.add_root(Point::new(0, 0, 0));
    let a = g.add_follower(Point::new(0, 0, 10000), root, Some(GREEN));
    g.add_follower(Point::new(10000, 0, 10000), a, Some(GREEN));
    let sights = vec![clear(), clear(), blocked_back()];
    assert!(plan_frame(&g, &sights).is_empty());
}

#[test]
fn child_on_its_grandparent_prunes_even_when_blocked() {
    let mut g = AnchorGraph::new();
    let root = g.add_root(Point::new(0, 0, 0));
    let a = g.add_follower(Point::new(0, 0, 10000), root, Some(GREEN));
    let b = g.add_follower(Point::new(0, 0, 0), a, Some(GREEN));
    let sights = vec![clear(), clear(), blocked_back()];
    assert_eq!(
        decide(&g, &sights, b),
        Some(Mutation::Prune { child: b, parent: a, grandparent: root })
    );
}

#[test]
fn hits_beyond_the_child_do_not_block() {
    let g = leader_and_pet();
    let far = Hit { distance: 10000, point: Point::new(10000, 0, 0), obstacle: cube(Point::new(11000, 0, 0), 1000) };
    let beyond = Hit { distance: 12000, point: Point::new(12000, 0, 0), obstacle: cube(Point::new(13000, 0, 0), 1000) };
    assert_eq!(decide(&g, &vec![clear(), seeing(vec![far, beyond])], 1), None);
}

#[test]
fn zero_length_sight_line_is_never_blocked() {
    let mut g = AnchorGraph::new();
    let root = g.add_root(Point::new(100, 0, 100));
    g.add_follower(Point::new(100, 0, 100), root, Some(GREEN));
    let hits = vec![wall_hit()];
    assert_eq!(find_blocker(&hits, &Point::new(100, 0, 100), &Point::new(100, 0, 100)), None);
    assert_eq!(decide(&g, &vec![clear(), seeing(hits)], 1), None);
}

#[test]
fn nearest_blocker_wins_and_ties_go_first() {
    let from = Point::new(0, 0, 0);
    let to = Point::new(10000, 0, 0);
    let near = Hit { distance: 2000, point: Point::new(2000, 0, 0), obstacle: cube(Point::new(2500, 0, 0), 500) };
    let near_too = Hit { distance: 2000, point: Point::new(2000, 0, 0), obstacle: cube(Point::new(3000, 0, 0), 1000) };
    let mid = wall_hit();
    let past = Hit { distance: 10000, point: to, obstacle: cube(Point::new(10500, 0, 0), 500) };
    assert_eq!(find_blocker(&vec![mid, near, near_too, past], &from, &to), Some(1));
    assert_eq!(find_blocker(&vec![near_too, mid, near], &from, &to), Some(0));
    assert_eq!(find_blocker(&vec![past], &from, &to), None);
    assert_eq!(find_blocker(&vec![], &from, &to), None);
}

#[test]
fn splice_uses_the_nearest_blocker() {
    let g = leader_and_pet();
    let near = Hit { distance: 2000, point: Point::new(2000, 0, 0), obstacle: cube(Point::new(2500, 0, 0), 500) };
    let sights = vec![clear(), seeing(vec![wall_hit(), near])];
    // box 2000..3000 grown by 1.01 about 2500: 1995..3005 in x, -505..505 in z
    assert_eq!(
        decide(&g, &sights, 1),
        Some(Mutation::Splice { child: 1, parent: 0, position: Point::new(1995, 0, -505) })
    );
}

#[test]
fn spliced_leash_takes_the_default_colour_without_a_leash_below() {
    let mut g = AnchorGraph::new();
    let root = g.add_root(Point::new(0, 0, 0));
    g.add_follower(Point::new(10000, 0, 0), root, None);
    assert_eq!(g.leash_count(), 0);
    step(&mut g, &vec![clear(), seeing(vec![wall_hit()])]);
    assert_eq!(g.anchor_count(), 3);
    assert_eq!(g.leash_count(), 1);
    assert_eq!(g.leash(0).color, DEFAULT_LEASH_COLOR);
    assert_eq!(g.anchor(2).leash, Some(0));
    assert_eq!(g.anchor(1).leash, None);
}

#[test]
fn anchors_without_sight_reports_are_left_alone() {
    let mut g = leader_and_pet();
    step(&mut g, &vec![clear()]);
    assert_eq!(g.anchor_count(), 2);
    assert_eq!(decide(&g, &vec![], 1), None);
}

#[test]
fn stale_mutations_are_dropped() {
    let mut g = leader_and_pet();
    g.apply(&Mutation::Prune { child: 1, parent: 0, grandparent: 0 });
    g.apply(&Mutation::Splice { child: 1, parent: 5, position: Point::new(1, 1, 1) });
    g.apply(&Mutation::Splice { child: 0, parent: 1, position: Point::new(1, 1, 1) });
    assert_eq!(g.anchor_count(), 2);
    assert_eq!(g.anchor(1).parent, Some(0));
    g.apply(&Mutation::Splice { child: 1, parent: 0, position: Point::new(1, 1, 1) });
    assert_eq!(g.anchor_count(), 3);
    assert_eq!(g.anchor(1).parent, Some(2));
}

#[test]
fn sight_lines_follow_the_links() {
    let mut g = AnchorGraph::new();
    let root = g.add_root(Point::new(0, 0, 0));
    let a = g.add_follower(Point::new(0, 0, 10000), root, Some(GREEN));
    let b = g.add_follower(Point::new(10000, 0, 10000), a, Some(GREEN));
    assert_eq!(forward_line(&g, root), None);
    assert_eq!(forward_line(&g, a), Some((Point::new(0, 0, 0), Point::new(0, 0, 10000))));
    assert_eq!(back_line(&g, a), None);
    assert_eq!(back_line(&g, b), Some((Point::new(10000, 0, 10000), Point::new(0, 0, 0))));
    assert_eq!(forward_line(&g, 7), None);
}

fn walk_to_root(g: &AnchorGraph, start: usize) -> Vec<usize> {
    let mut seen = vec![start];
    let mut at = start;
    while let Some(p) = g.anchor(at).parent {
        assert!(!seen.contains(&p), "anchor {} met twice", p);
        assert!(seen.len() <= g.anchor_count());
        seen.push(p);
        at = p;
    }
    seen
}

#[test]
fn chains_stay_acyclic_over_many_frames() {
    let mut g = AnchorGraph::new();
    let root = g.add_root(Point::new(0, 0, 0));
    let pet_a = g.add_follower(Point::new(10000, 0, 0), root, Some(GREEN));
    let pet_b = g.add_follower(Point::new(0, 0, 10000), root, Some(0x0000_FFFF));
    let wall_b = Hit { distance: 4000, point: Point::new(0, 0, 4000), obstacle: cube(Point::new(0, 0, 5000), 1000) };
    for frame in 0..6 {
        let n = g.anchor_count();
        let mut sights: Vec<Sight> = Vec::new();
        for slot in 0..n {
            let blocked = frame % 3 != 2;
            if slot == pet_a && blocked && g.anchor(slot).parent == Some(root) {
                sights.push(seeing(vec![wall_hit()]));
            } else if slot == pet_b && blocked && g.anchor(slot).parent == Some(root) {
                sights.push(seeing(vec![wall_b]));
            } else if blocked {
                sights.push(blocked_back());
            } else {
                sights.push(clear());
            }
        }
        step(&mut g, &sights);
        for slot in 0..g.anchor_count() {
            let chain = walk_to_root(&g, slot);
            assert_eq!(g.anchor(*chain.last().unwrap()).parent, None);
        }
        for pet in [pet_a, pet_b] {
            assert_eq!(*walk_to_root(&g, pet).last().unwrap(), root);
        }
    }
    // the last frame saw everything clear, so both pets hang from the root again
    assert_eq!(g.anchor(pet_a).parent, Some(root));
    assert_eq!(g.anchor(pet_b).parent, Some(root));
}

#[test]
fn sight_reports_are_checked_against_the_world_bounds() {
    assert!(sights_in_world(&vec![clear(), seeing(vec![wall_hit()])]));
    assert!(sights_in_world(&vec![]));
    let edge = Hit { distance: 0, point: Point::new(WORLD_LIMIT, 0, -WORLD_LIMIT), obstacle: cube(Point::new(0, 0, 0), 1) };
    assert!(sights_in_world(&vec![seeing(vec![edge])]));
    let outside = Hit { distance: 0, point: Point::new(WORLD_LIMIT + 1, 0, 0), obstacle: cube(Point::new(0, 0, 0), 1) };
    assert!(!sights_in_world(&vec![clear(), seeing(vec![wall_hit(), outside])]));
    let far_box = Hit { distance: 0, point: Point::new(0, 0, 0), obstacle: cube(Point::new(WORLD_LIMIT, 0, 0), 1) };
    assert!(!sights_in_world(&vec![seeing(vec![far_box])]));
}

#[test]
fn splices_are_applied_before_prunes() {
    let mut g = leader_and_pet();
    step(&mut g, &vec![clear(), seeing(vec![wall_hit()])]);
    // root 0 <- spliced anchor 2 <- pet 1
    assert_eq!(g.anchor(1).parent, Some(2));
    assert_eq!(g.anchor(2).parent, Some(0));
    assert_eq!(g.anchor(2).position, Point::new(3990, 0, -1010));
    let post = Hit { distance: 2000, point: Point::new(1800, 0, -450), obstacle: cube(Point::new(2000, 0, -500), 200) };
    // the pet sees the root again, but the root no longer sees the spliced anchor
    let sights = vec![clear(), clear(), seeing(vec![post])];
    let plan = plan_frame(&g, &sights);
    assert_eq!(
        plan,
        vec![
            Mutation::Splice { child: 2, parent: 0, position: Point::new(1798, 0, -298) },
            Mutation::Prune { child: 1, parent: 2, grandparent: 0 },
        ]
    );
    step(&mut g, &sights);
    // the splice goes first, so the prune no longer matches and is dropped
    assert_eq!(g.anchor_count(), 4);
    assert_eq!(g.anchor(3).parent, Some(0));
    assert_eq!(g.anchor(2).parent, Some(3));
    assert_eq!(g.anchor(1).parent, Some(2));
    assert!(g.anchor(1).live && g.anchor(2).live && g.anchor(3).live);
}
