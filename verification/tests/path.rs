use raytracer::material::ScatterResult;
use raytracer::path::{trace_path, PathEnd};
use raytracer::scene::HitResult;

type Bounce = HitResult<ScatterResult<u32, f64>>;

/// A ray that is scattered `left` more times before it escapes.
fn count_down(ray: &u32) -> Bounce {
    if *ray == 0 {
        Bounce::Miss
    } else {
        Bounce::Hit(ScatterResult::Scatter(*ray - 1, *ray as f64 / 10.0))
    }
}

#[test]
fn ray_that_hits_nothing_escapes_at_once() {
    let path = trace_path(7u32, 10, &|_: &u32| Bounce::Miss);
    assert!(path.attenuations.is_empty());
    assert!(matches!(path.end, PathEnd::Escaped(7)));
}

#[test]
fn ray_that_hits_nothing_escapes_at_depth_zero() {
    let path = trace_path(7u32, 0, &|_: &u32| Bounce::Miss);
    assert!(path.attenuations.is_empty());
    assert!(matches!(path.end, PathEnd::Escaped(7)));
}

#[test]
fn negative_depth_follows_no_ray() {
    let calls = std::cell::Cell::new(0);
    let path = trace_path(7u32, -1, &|_: &u32| {
        calls.set(calls.get() + 1);
        Bounce::Miss
    });
    assert_eq!(calls.get(), 0);
    assert!(path.attenuations.is_empty());
    assert!(matches!(path.end, PathEnd::Exhausted));
    let lower = trace_path(7u32, i64::MIN, &count_down);
    assert!(lower.attenuations.is_empty());
    assert!(matches!(lower.end, PathEnd::Exhausted));
}

#[test]
fn absorbed_ray_ends_the_path() {
    let path = trace_path(3u32, 10, &|ray: &u32| {
        if *ray == 1 {
            Bounce::Hit(ScatterResult::Absorb)
        } else {
            Bounce::Hit(ScatterResult::Scatter(*ray - 1, *ray as f64))
        }
    });
    assert_eq!(path.attenuations, vec![3.0, 2.0]);
    assert!(matches!(path.end, PathEnd::Absorbed));
}

#[test]
fn path_escapes_with_its_last_ray() {
    let path = trace_path(3u32, 10, &count_down);
    assert_eq!(path.attenuations, vec![0.3, 0.2, 0.1]);
    assert!(matches!(path.end, PathEnd::Escaped(0)));
}

#[test]
fn path_is_exhausted_after_depth_plus_one_scatterings() {
    let path = trace_path(100u32, 4, &count_down);
    assert_eq!(path.attenuations.len(), 5);
    assert_eq!(path.attenuations, vec![10.0, 9.9, 9.8, 9.7, 9.6]);
    assert!(matches!(path.end, PathEnd::Exhausted));
}

#[test]
fn depth_zero_allows_one_scattering() {
    let path = trace_path(100u32, 0, &count_down);
    assert_eq!(path.attenuations, vec![10.0]);
    assert!(matches!(path.end, PathEnd::Exhausted));
}

#[test]
fn path_that_ends_with_its_last_allowed_ray_is_not_exhausted() {
    let path = trace_path(4u32, 4, &count_down);
    assert_eq!(path.attenuations.len(), 4);
    assert!(matches!(path.end, PathEnd::Escaped(0)));
    let longer = trace_path(5u32, 4, &count_down);
    assert_eq!(longer.attenuations.len(), 5);
    assert!(matches!(longer.end, PathEnd::Exhausted));
}

#[test]
fn bounce_is_called_with_each_ray_in_turn() {
    let seen = std::cell::RefCell::new(Vec::new());
    let path = trace_path(3u32, 10, &|ray: &u32| {
        seen.borrow_mut().push(*ray);
        count_down(ray)
    });
    assert_eq!(seen.into_inner(), vec![3, 2, 1, 0]);
    assert_eq!(path.attenuations.len(), 3);
}

#[test]
fn colour_of_a_path_is_folded_from_its_end() {
    let path = trace_path(2u32, 10, &count_down);
    let mut color = match path.end {
        PathEnd::Escaped(_) => 0.8,
        PathEnd::Absorbed | PathEnd::Exhausted => 0.0,
    };
    for attenuation in path.attenuations.iter().rev() {
        color = attenuation * color;
    }
    assert_eq!(color, 0.2 * (0.1 * 0.8));
}
