use planets::body::{Body, ACC_MAX, PAIR_FORCE_MAX};
use planets::{
    check_collision, collide_planets, inverse_volume_of_sphere, isqrt, newtonian_grav, pair_force,
    put_in_collision_group, volume_of_sphere, SimError, World,
};

fn body(id: u64, x: i64, y: i64, vx: i64, vy: i64, mass: u64, radius: u64) -> Body {
    Body { id, x, y, vx, vy, fx: 0, fy: 0, mass, radius }
}

fn find(bodies: &[Body], id: u64) -> Body {
    *bodies.iter().find(|b| b.id == id).expect("id present")
}

#[test]
fn square_root_rounds_down() {
    assert_eq!(isqrt(0), 0);
    assert_eq!(isqrt(1), 1);
    assert_eq!(isqrt(15), 3);
    assert_eq!(isqrt(16), 4);
    assert_eq!(isqrt(1_000_000_000_005), 1_000_000);
}

#[test]
fn sphere_volume_and_inverse() {
    assert_eq!(volume_of_sphere(3), 27);
    assert_eq!(inverse_volume_of_sphere(27), 3);
    assert_eq!(inverse_volume_of_sphere(63), 3);
    assert_eq!(inverse_volume_of_sphere(64), 4);
    assert_eq!(inverse_volume_of_sphere(2 * 5000u128.pow(3)), 6299);
}

#[test]
fn collision_boundary_is_closed() {
    // centres 2 apart, radii 1 and 1: exactly touching
    assert!(check_collision(0, 0, 1, 2, 0, 1));
    // a 3-4-5 triangle: distance 5 equals 2 + 3
    assert!(check_collision(0, 0, 2, 3, 4, 3));
    assert!(!check_collision(0, 0, 1, 3, 0, 1));
    assert!(!check_collision(0, 0, 2, 3, 4, 2));
}

#[test]
fn gravity_is_equal_and_opposite() {
    let mut a = body(0, 0, 0, 0, 0, 10, 1);
    let mut b = body(1, 30, 40, 0, 0, 7, 1);
    newtonian_grav(10000, &mut a, &mut b);
    assert_ne!(a.fx, 0);
    assert_eq!(a.fx, -b.fx);
    assert_eq!(a.fy, -b.fy);
    // G * ma * mb * d / r^3 = 10000 * 70 * (30, 40) / 125000
    assert_eq!((a.fx, a.fy), (168, 224));
    assert!(a.fx.abs() <= PAIR_FORCE_MAX && ACC_MAX > PAIR_FORCE_MAX);
}

#[test]
fn gravity_at_coincident_centres_is_zero() {
    let a = body(0, 5, 5, 0, 0, 10, 1);
    let b = body(1, 5, 5, 0, 0, 10, 1);
    assert_eq!(pair_force(10000, &a, &b), (0, 0));
}

#[test]
fn two_distant_bodies_fall_toward_each_other() {
    let mut w = World::new(10000);
    let a = w.spawn(0, 0, None, 10, 1).unwrap();
    let b = w.spawn(100, 0, None, 10, 1).unwrap();
    // force G * 10 * 10 / 100^2 = 100 along x
    assert_eq!(pair_force(10000, &w.bodies[0], &w.bodies[1]), (100, 0));
    let report = w.step(1).unwrap();
    assert!(report.removed.is_empty());
    assert!(report.created.is_empty());
    let snap = w.snapshot();
    let pa = find(&snap, a);
    let pb = find(&snap, b);
    // velocity gains force / mass * dt = 10, toward the other body
    assert_eq!((pa.vx, pa.vy), (10, 0));
    assert_eq!((pb.vx, pb.vy), (-10, 0));
    assert_eq!((pa.x, pb.x), (10, 90));
    assert_eq!((pa.fx, pa.fy, pb.fx, pb.fy), (0, 0, 0, 0));
}

#[test]
fn overlapping_bodies_merge_conserving_momentum() {
    let mut w = World::new(10000);
    let a = w.spawn(0, 0, Some((1000, 0)), 10, 5000).unwrap();
    let b = w.spawn(1000, 0, Some((-1000, 0)), 10, 5000).unwrap();
    let report = w.step(1).unwrap();
    assert_eq!(report.removed, vec![a, b]);
    assert_eq!(report.created, vec![2]);
    let snap = w.snapshot();
    assert_eq!(snap.len(), 1);
    let m = snap[0];
    assert_eq!(m.id, 2);
    assert_eq!(m.mass, 20);
    assert_eq!((m.vx, m.vy), (0, 0));
    assert_eq!((m.x, m.y), (500, 0));
    assert_eq!(m.radius, 6299);
}

#[test]
fn merge_keeps_mass_momentum_and_volume() {
    let bodies = vec![
        body(0, 0, 0, 3, -2, 4, 2),
        body(1, 10, 0, 0, 0, 100, 9),
        body(2, 1, 1, -7, 5, 6, 3),
    ];
    let labels = vec![0usize, 1, 0];
    let m = collide_planets(&bodies, &labels, 0, 42).unwrap();
    assert_eq!(m.id, 42);
    assert_eq!(m.mass, 10);
    // momentum (4*3 + 6*-7, 4*-2 + 6*5) = (-30, 22)
    assert_eq!((m.vx, m.vy), (-3, 2));
    // moments (0 + 6, 0 + 6) over mass 10, rounded toward zero
    assert_eq!((m.x, m.y), (0, 0));
    // volume 8 + 27 = 35 lies between 3^3 and 4^3
    assert_eq!(m.radius, 3);
    assert_eq!((m.fx, m.fy), (0, 0));
}

#[test]
fn chained_collisions_form_one_group() {
    let mut labels = vec![0usize, 1, 2];
    put_in_collision_group(&mut labels, 0, 1);
    put_in_collision_group(&mut labels, 1, 2);
    assert_eq!(labels[0], labels[1]);
    assert_eq!(labels[1], labels[2]);
}

#[test]
fn two_groups_bridged_by_a_later_pair_union() {
    let mut labels = vec![0usize, 1, 2, 3, 4];
    put_in_collision_group(&mut labels, 0, 1);
    put_in_collision_group(&mut labels, 2, 3);
    assert_ne!(labels[1], labels[2]);
    put_in_collision_group(&mut labels, 1, 2);
    assert!(labels[..4].iter().all(|&l| l == labels[0]));
    assert_ne!(labels[4], labels[0]);
}

#[test]
fn a_chain_of_three_bodies_merges_into_one() {
    let mut w = World::new(1);
    w.spawn(0, 0, None, 1, 1).unwrap();
    w.spawn(2, 0, None, 1, 1).unwrap();
    w.spawn(4, 0, None, 1, 1).unwrap();
    w.spawn(1000, 1000, None, 1, 1).unwrap();
    let report = w.step(1).unwrap();
    assert_eq!(report.removed, vec![0, 1, 2]);
    assert_eq!(report.created, vec![4]);
    let snap = w.snapshot();
    assert_eq!(snap.len(), 2);
    assert_eq!(snap[0].id, 3);
    let m = find(&snap, 4);
    assert_eq!(m.mass, 3);
    assert_eq!((m.x, m.y), (2, 0));
}

#[test]
fn ids_are_never_reused() {
    let mut w = World::new(1);
    assert_eq!(w.spawn(0, 0, None, 1, 1), Ok(0));
    assert_eq!(w.spawn(100, 0, None, 1, 1), Ok(1));
    assert_eq!(w.spawn(200, 0, None, 1, 1), Ok(2));
    assert_eq!(w.despawn(1), Ok(()));
    assert_eq!(w.despawn(1), Err(SimError::NotFound));
    assert_eq!(w.despawn(99), Err(SimError::NotFound));
    assert_eq!(w.spawn(300, 0, None, 1, 1), Ok(3));
    let ids: Vec<u64> = w.snapshot().iter().map(|b| b.id).collect();
    assert_eq!(ids, vec![0, 2, 3]);
    assert_eq!(w.next_id, 4);
}

#[test]
fn invalid_bodies_are_refused() {
    let mut w = World::new(1);
    assert_eq!(w.spawn(0, 0, None, 0, 1), Err(SimError::InvalidBody));
    assert_eq!(w.spawn(0, 0, None, 1, 0), Err(SimError::InvalidBody));
    assert_eq!(w.spawn(i64::MAX, 0, None, 1, 1), Err(SimError::InvalidBody));
    assert_eq!(w.spawn(0, 0, Some((i64::MIN, 0)), 1, 1), Err(SimError::InvalidBody));
    assert!(w.snapshot().is_empty());
    assert_eq!(w.next_id, 0);
}

#[test]
fn a_full_world_refuses_more_bodies() {
    let mut w = World::new(0);
    for k in 0..1024i64 {
        assert!(w.spawn(k * 10, 0, None, 1, 1).is_ok());
    }
    assert_eq!(w.spawn(0, 1000, None, 1, 1), Err(SimError::Full));
}

#[test]
fn a_step_leaving_the_range_changes_nothing() {
    let mut w = World::new(0);
    w.spawn(0x7fff_0000, 0, Some((0x7fff_ffff, 0)), 1, 1).unwrap();
    let before = w.snapshot();
    assert_eq!(w.step(1).err(), Some(SimError::OutOfRange));
    assert_eq!(w.snapshot(), before);
    assert_eq!(w.next_id, 1);
}

#[test]
fn the_order_of_bodies_does_not_change_a_step() {
    let specs = [(0i64, 0i64, 50u64), (300, 40, 20), (-200, 500, 35), (90, -400, 12)];
    let mut fwd = World::new(5000);
    let mut rev = World::new(5000);
    for &(x, y, m) in specs.iter() {
        fwd.spawn(x, y, None, m, 1).unwrap();
    }
    for &(x, y, m) in specs.iter().rev() {
        rev.spawn(x, y, None, m, 1).unwrap();
    }
    fwd.step(3).unwrap();
    rev.step(3).unwrap();
    let a = fwd.snapshot();
    let b = rev.snapshot();
    for k in 0..specs.len() {
        let p = a[k];
        let q = b[specs.len() - 1 - k];
        assert_eq!((p.x, p.y, p.vx, p.vy), (q.x, q.y, q.vx, q.vy));
    }
    assert!(a.iter().any(|p| p.vx != 0 || p.vy != 0));
}

#[test]
fn integration_is_semi_implicit() {
    let b = Body { id: 0, x: 0, y: 0, vx: 2, vy: 0, fx: 30, fy: -7, mass: 10, radius: 1 };
    let n = b.update(2).unwrap();
    // v = 2 + 30 * 2 / 10 = 8, then x = 0 + 8 * 2
    assert_eq!((n.vx, n.x), (8, 16));
    // -7 * 2 / 10 rounds toward zero to -1
    assert_eq!((n.vy, n.y), (-1, -2));
    assert_eq!((n.fx, n.fy), (0, 0));
}
