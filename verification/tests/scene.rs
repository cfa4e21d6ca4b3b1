use raytracer::scene::{closest_hit, nearest_root, HitResult, HittableList};
use raytracer::scene::HitResult::{Hit, Miss};

/// A primitive with a hit of its own at a fixed distance, or none. Asked with
/// a bound, it reports its hit where that lies before the bound.
fn probe(own: &Option<f64>, bound: f64) -> HitResult<(f64, usize)> {
    match *own {
        Some(distance) if distance < bound => Hit((distance, (distance * 10.0) as usize)),
        _ => Miss,
    }
}

/// As `probe`, with the bound itself still within reach.
fn probe_closed(own: &(Option<f64>, char), bound: f64) -> HitResult<(f64, char)> {
    match own.0 {
        Some(distance) if distance <= bound => Hit((distance, own.1)),
        _ => Miss,
    }
}

fn nearest(items: &[Option<f64>], far: f64) -> Option<f64> {
    let mut best: Option<f64> = None;
    for item in items.iter() {
        if let Some(distance) = *item {
            if distance < far && best.map_or(true, |b| distance < b) {
                best = Some(distance);
            }
        }
    }
    best
}

#[test]
fn empty_scene_has_no_hit() {
    let items: Vec<Option<f64>> = Vec::new();
    assert_eq!(closest_hit(&items, f64::INFINITY, &probe), Miss);
}

#[test]
fn scene_of_misses_has_no_hit() {
    let items = vec![None, None, None];
    assert_eq!(closest_hit(&items, f64::INFINITY, &probe), Miss);
}

#[test]
fn nearest_hit_is_found_wherever_it_stands() {
    for items in [
        vec![Some(1.5), Some(4.0), Some(9.0)],
        vec![Some(4.0), Some(1.5), Some(9.0)],
        vec![Some(9.0), Some(4.0), Some(1.5)],
        vec![None, Some(9.0), None, Some(1.5), Some(4.0)],
    ] {
        assert_eq!(closest_hit(&items, f64::INFINITY, &probe), Hit((1.5, 15)));
    }
}

#[test]
fn hits_beyond_the_far_bound_do_not_count() {
    let items = vec![Some(7.0), Some(5.0), Some(6.0)];
    assert_eq!(closest_hit(&items, 5.0, &probe), Miss);
    assert_eq!(closest_hit(&items, 5.5, &probe), Hit((5.0, 50)));
    assert_eq!(closest_hit(&items, 100.0, &probe), Hit((5.0, 50)));
}

#[test]
fn scan_gives_what_asking_each_primitive_gives() {
    let mut state: u64 = 12345;
    for _ in 0..200 {
        let mut items = Vec::new();
        for _ in 0..8 {
            state = state.wrapping_mul(6364136223846793005).wrapping_add(1442695040888963407);
            let draw = (state >> 33) % 40;
            items.push(if draw < 10 { None } else { Some(draw as f64 / 4.0) });
        }
        let far = 6.0;
        let found = match closest_hit(&items, far, &probe) {
            Hit((distance, _)) => Some(distance),
            Miss => None,
        };
        assert_eq!(found, nearest(&items, far));
    }
}

#[test]
fn each_primitive_is_asked_once_with_the_shrinking_bound() {
    let items = vec![Some(8.0), Some(9.0), Some(3.0), None, Some(5.0), Some(1.0)];
    let asked = std::cell::RefCell::new(Vec::new());
    let found = closest_hit(&items, 10.0, &|own: &Option<f64>, bound: f64| {
        asked.borrow_mut().push(bound);
        probe(own, bound)
    });
    assert_eq!(found, Hit((1.0, 10)));
    assert_eq!(asked.into_inner(), vec![10.0, 8.0, 8.0, 3.0, 3.0, 3.0]);
}

#[test]
fn of_equal_hits_the_first_stays_where_the_bound_is_out_of_reach() {
    let items = vec![(Some(2.0), 'a'), (Some(2.0), 'b')];
    let open = |own: &(Option<f64>, char), bound: f64| match own.0 {
        Some(distance) if distance < bound => Hit((distance, own.1)),
        _ => Miss,
    };
    assert_eq!(closest_hit(&items, 10.0, &open), Hit((2.0, 'a')));
}

#[test]
fn of_equal_hits_the_last_stays_where_the_bound_is_within_reach() {
    let items = vec![(Some(2.0), 'a'), (Some(2.0), 'b')];
    assert_eq!(closest_hit(&items, 10.0, &probe_closed), Hit((2.0, 'b')));
}

#[test]
fn scan_works_on_whole_distances() {
    let items: Vec<u32> = vec![40, 7, 19, 7, 3, 80];
    let found = closest_hit(&items, 50u32, &|own: &u32, bound: u32| {
        if *own < bound {
            Hit((*own, *own * 2))
        } else {
            Miss
        }
    });
    assert_eq!(found, Hit((3, 6)));
}

/// The two roots of a ray from `origin` along -z with a sphere of radius
/// `radius` about (0, 0, `center`), the nearer first.
fn roots(origin: f64, center: f64, radius: f64) -> (f64, f64) {
    let oc = center - origin;
    let a = 1.0;
    let h = -oc;
    let discriminant = h * h - a * (oc * oc - radius * radius);
    let sqrtd = discriminant.sqrt();
    ((h - sqrtd) / a, (h + sqrtd) / a)
}

#[test]
fn of_two_valid_roots_the_smaller_is_chosen() {
    let (near, far) = roots(0.0, -1.0, 0.5);
    assert_eq!((near, far), (0.5, 1.5));
    let forward = |t: f64| 0.001 < t && t < f64::INFINITY;
    assert_eq!(nearest_root(near, far, &forward), Some(0.5));
}

#[test]
fn farther_root_is_chosen_where_the_nearer_is_not_valid() {
    let (near, far) = roots(-1.0, -1.0, 0.5);
    assert_eq!((near, far), (-0.5, 0.5));
    let forward = |t: f64| 0.001 < t && t < f64::INFINITY;
    assert_eq!(nearest_root(near, far, &forward), Some(0.5));
    let bounded = |t: f64| 0.001 < t && t < 1.0;
    assert_eq!(nearest_root(0.5, 1.5, &bounded), Some(0.5));
    assert_eq!(nearest_root(0.0005, 0.75, &bounded), Some(0.75));
}

#[test]
fn no_root_is_chosen_where_neither_is_valid() {
    let (near, far) = roots(-3.0, -1.0, 0.5);
    assert_eq!((near, far), (-2.5, -1.5));
    let forward = |t: f64| 0.001 < t && t < f64::INFINITY;
    assert_eq!(nearest_root(near, far, &forward), None);
    let bounded = |t: f64| 0.001 < t && t < 0.4;
    assert_eq!(nearest_root(0.5, 1.5, &bounded), None);
    assert_eq!(nearest_root(f64::NAN, f64::NAN, &forward), None);
}

#[test]
fn farther_root_is_asked_about_only_after_the_nearer_was_refused() {
    let asked = std::cell::RefCell::new(Vec::new());
    let valid = |t: u32| {
        asked.borrow_mut().push(t);
        t > 5
    };
    assert_eq!(nearest_root(7, 9, &valid), Some(7));
    assert_eq!(nearest_root(3, 9, &valid), Some(9));
    assert_eq!(nearest_root(3, 4, &valid), None);
    assert_eq!(asked.into_inner(), vec![7, 3, 9, 3, 4]);
}

#[test]
fn scene_keeps_its_primitives_in_the_order_of_adding() {
    let mut scene: HittableList<Option<f64>> = HittableList::new();
    assert!(scene.vec.is_empty());
    scene.add(Some(4.0));
    scene.add(None);
    scene.add(Some(2.5));
    assert_eq!(scene.vec, vec![Some(4.0), None, Some(2.5)]);
}

#[test]
fn scene_gives_its_nearest_hit() {
    let mut scene: HittableList<Option<f64>> = HittableList::new();
    assert_eq!(scene.hit(f64::INFINITY, &probe), Miss);
    scene.add(Some(4.0));
    scene.add(None);
    scene.add(Some(2.5));
    scene.add(Some(3.0));
    assert_eq!(scene.hit(f64::INFINITY, &probe), Hit((2.5, 25)));
    assert_eq!(scene.hit(2.5, &probe), Miss);
    assert_eq!(scene.hit(3.5, &probe), closest_hit(&scene.vec, 3.5, &probe));
}
