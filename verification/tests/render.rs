use std::cell::RefCell;
use std::rc::Rc;

use rand::rngs::StdRng;
use rand::{Rng, SeedableRng};
use raytracer::bands::Bands;
use raytracer::framebuffer::{render_band, render_single_thread, Framebuffer};
use raytracer::material::{Material, ScatterResult};
use raytracer::path::{trace_path, PathEnd};
use raytracer::ppm::{parse_ppm, to_ppm};
use raytracer::scene::{closest_hit, nearest_root, HitResult};

type Vector = (f64, f64, f64);

struct Ball {
    center: Vector,
    radius: f64,
    material: Rc<Material<Vector, f64>>,
}

fn sub(a: Vector, b: Vector) -> Vector {
    (a.0 - b.0, a.1 - b.1, a.2 - b.2)
}

fn dot(a: Vector, b: Vector) -> f64 {
    a.0 * b.0 + a.1 * b.1 + a.2 * b.2
}

/// The nearer root of the ray with the ball that lies between `near` and
/// `far`, or else the farther one.
fn hit(ball: &Ball, origin: Vector, dir: Vector, near: f64, far: f64) -> Option<f64> {
    let oc = sub(ball.center, origin);
    let a = dot(dir, dir);
    let h = dot(dir, oc);
    let c = dot(oc, oc) - ball.radius * ball.radius;
    let discriminant = h * h - a * c;
    if discriminant < 0.0 {
        return None;
    }
    let sqrtd = discriminant.sqrt();
    nearest_root((h - sqrtd) / a, (h + sqrtd) / a, &|root: f64| near < root && root < far)
}

fn background(dir: Vector) -> Vector {
    let scale = dir.0.abs().max(dir.1.abs()).max(dir.2.abs());
    let t = 0.5 * (dir.1 / scale + 1.0);
    (
        1.0 * (1.0 - t) + 0.5 * t,
        1.0 * (1.0 - t) + 0.7 * t,
        1.0 * (1.0 - t) + 1.0 * t,
    )
}

fn two_balls() -> Vec<Ball> {
    vec![
        Ball {
            center: (0.0, 0.0, -1.0),
            radius: 0.5,
            material: Rc::new(Material::Diffuse { albedo: (0.5, 0.5, 0.5) }),
        },
        Ball {
            center: (0.0, -100.5, -1.0),
            radius: 100.0,
            material: Rc::new(Material::Diffuse { albedo: (0.5, 0.5, 0.5) }),
        },
    ]
}

/// The direction of the ray through the middle of a pixel of an image of
/// `size` by `size` pixels, from a camera at the origin that looks along -z.
fn pixel_dir(size: usize, x: usize, row: usize) -> Vector {
    let delta = 2.0 / size as f64;
    (
        -1.0 + delta * (x as f64 + 0.5),
        1.0 - delta * (row as f64 + 0.5),
        -1.0,
    )
}

/// The colour that a ray brings back, with the scattered ray sent straight
/// along the normal.
fn color(scene: &Vec<Ball>, dir: Vector, depth: i64) -> Vector {
    let bounce = |ray: &(Vector, Vector)| {
        let probe = |ball: &Ball, far: f64| match hit(ball, ray.0, ray.1, 0.001, far) {
            Some(t) => HitResult::Hit((t, (ball.center, ball.material.clone()))),
            None => HitResult::Miss,
        };
        match closest_hit(scene, f64::INFINITY, &probe) {
            HitResult::Hit((t, (center, material))) => {
                let point = (
                    ray.0 .0 + ray.1 .0 * t,
                    ray.0 .1 + ray.1 .1 * t,
                    ray.0 .2 + ray.1 .2 * t,
                );
                let normal = sub(point, center);
                let diffuse = || (point, normal);
                let metallic = |_: f64| {
                    let d = 2.0 * dot(ray.1, normal) / dot(normal, normal);
                    let reflected = sub(ray.1, (normal.0 * d, normal.1 * d, normal.2 * d));
                    ((point, reflected), dot(reflected, normal) > 0.0)
                };
                HitResult::Hit(material.scatter(&diffuse, &metallic))
            }
            HitResult::Miss => HitResult::Miss,
        }
    };
    let path = trace_path(((0.0, 0.0, 0.0), dir), depth, &bounce);
    let mut color = match path.end {
        PathEnd::Escaped(last) => background(last.1),
        PathEnd::Absorbed | PathEnd::Exhausted => (0.0, 0.0, 0.0),
    };
    for a in path.attenuations.iter().rev() {
        color = (a.0 * color.0, a.1 * color.1, a.2 * color.2);
    }
    color
}

fn display(x: f64) -> u8 {
    (255.0 * if x > 0.0 { x.sqrt() } else { 0.0 }) as u8
}

#[test]
fn two_spheres_at_depth_zero() {
    let scene = two_balls();
    let plan = Bands::new(4, 4, 2).unwrap();
    let image = render_single_thread(&plan, 0.0, &|x: usize, row: usize| {
        color(&scene, pixel_dir(4, x, row), 0)
    });
    for row in 0..2 {
        for x in 0..4 {
            let dir = pixel_dir(4, x, row);
            let sky = background(dir);
            let on_the_ball = (x == 1 || x == 2) && row == 1;
            if on_the_ball {
                assert_eq!(image.pixel(x, row), (0.0, 0.0, 0.0));
            } else {
                assert_eq!(image.pixel(x, row), sky);
                assert!(sky.2 == 1.0 && sky.0 < 1.0 && sky.0 >= 0.5);
            }
        }
    }
    for x in 1..3 {
        assert_eq!(image.pixel(x, 3), (0.0, 0.0, 0.0));
        assert!(image.pixel(x, 3) != background(pixel_dir(4, x, 3)));
    }
}

#[test]
fn sky_gradient_of_a_ray_that_misses() {
    let scene = two_balls();
    assert_eq!(color(&scene, (0.0, 1.0, 0.0), 5), (0.5, 0.7, 1.0));
    assert_eq!(color(&scene, (1.0, 0.0, 0.0), 5), (0.75, 0.85, 1.0));
    assert_eq!(color(&scene, (2.0, 1.0, 4.0), 5), background((2.0, 1.0, 4.0)));
    assert_eq!(background((2.0, 1.0, 4.0)).0, 0.6875);
    assert_eq!(color(&scene, (0.0, -1.0, 0.0), 0), (0.0, 0.0, 0.0));
    assert_eq!(background((0.0, -1.0, 0.0)), (1.0, 1.0, 1.0));
}

#[test]
fn deeper_paths_bring_back_light() {
    let scene = two_balls();
    let straight = color(&scene, (0.0, 0.0, -1.0), 1);
    assert_eq!(straight, (0.375, 0.425, 0.5));
    assert_eq!(color(&scene, (0.0, 0.0, -1.0), 0), (0.0, 0.0, 0.0));
    assert_eq!(color(&scene, (0.0, 0.0, -1.0), -1), (0.0, 0.0, 0.0));
}

#[test]
fn nearer_ball_hides_the_farther() {
    let ball = |z: f64, radius: f64, shade: f64| Ball {
        center: (0.0, 0.0, z),
        radius,
        material: Rc::new(Material::Diffuse { albedo: (shade, shade, shade) }),
    };
    let scene = vec![ball(-5.0, 1.0, 0.1), ball(-2.0, 0.5, 0.9), ball(-9.0, 2.0, 0.2)];
    let probe = |ball: &Ball, far: f64| {
        match hit(ball, (0.0, 0.0, 0.0), (0.0, 0.0, -1.0), 0.001, far) {
            Some(t) => HitResult::Hit((t, ball.center.2)),
            None => HitResult::Miss,
        }
    };
    assert_eq!(closest_hit(&scene, f64::INFINITY, &probe), HitResult::Hit((1.5, -2.0)));
}

#[test]
fn seeded_renders_are_equal_whatever_the_order_of_the_bands() {
    let plan = Bands::new(8, 8, 4).unwrap();
    let band = |band: usize, seed: u64| {
        let rng = RefCell::new(StdRng::seed_from_u64(seed.wrapping_add(band as u64)));
        render_band(&plan, band, &|x: usize, row: usize| {
            let noise: f64 = rng.borrow_mut().gen_range(-0.5..0.5);
            (x as f64 + noise, row as f64 + noise, noise)
        })
    };
    let mut first = Framebuffer::new(&plan, 0.0);
    for b in [0, 1, 2, 3] {
        first.write_band(&plan, b, &band(b, 42));
    }
    let mut second = Framebuffer::new(&plan, 0.0);
    for b in [3, 1, 0, 2] {
        second.write_band(&plan, b, &band(b, 42));
    }
    assert_eq!(first.channels(), second.channels());
    let mut other = Framebuffer::new(&plan, 0.0);
    for b in [0, 1, 2, 3] {
        other.write_band(&plan, b, &band(b, 43));
    }
    assert!(first.channels() != other.channels());
}

#[test]
fn rendered_image_is_written_and_read_back() {
    let scene = two_balls();
    let plan = Bands::new(4, 4, 4).unwrap();
    let linear = render_single_thread(&plan, 0.0, &|x: usize, row: usize| {
        color(&scene, pixel_dir(4, x, row), 3)
    });
    let shown = linear.map(&display);
    let text = to_ppm(&shown);
    assert!(text.starts_with("P3\n4 4\n255\n"));
    assert_eq!(text.lines().count(), 3 + 4);
    let back = parse_ppm(&text).unwrap();
    assert_eq!(back.width(), 4);
    assert_eq!(back.height(), 4);
    assert_eq!(back.channels(), shown.channels());
}

#[test]
fn mirror_ball_reflects_the_sky() {
    let scene = vec![Ball {
        center: (0.0, 0.0, -2.0),
        radius: 1.0,
        material: Rc::new(Material::Metallic { albedo: (0.5, 0.5, 0.5), fuzz: 0.0 }),
    }];
    let straight = color(&scene, (0.0, 0.0, -1.0), 3);
    let sky = background((0.0, 0.0, 1.0));
    assert_eq!(straight, (0.5 * sky.0, 0.5 * sky.1, 0.5 * sky.2));
}

#[test]
fn scattering_is_what_the_material_says() {
    let diffuse: Material<Vector, f64> = Material::Diffuse { albedo: (0.1, 0.2, 0.3) };
    let metal: Material<Vector, f64> = Material::Metallic { albedo: (0.4, 0.5, 0.6), fuzz: 0.25 };
    let normal = (0.0, 1.0, 0.0);
    let down = |fuzz: f64| ((fuzz, -1.0, 0.0), dot((fuzz, -1.0, 0.0), normal) > 0.0);
    let up = |fuzz: f64| ((fuzz, 1.0, 0.0), dot((fuzz, 1.0, 0.0), normal) > 0.0);
    let along = |fuzz: f64| ((fuzz, 0.0, 0.0), dot((fuzz, 0.0, 0.0), normal) > 0.0);
    let out = || (9.0, 9.0, 9.0);
    assert_eq!(
        diffuse.scatter(&out, &down),
        ScatterResult::Scatter((9.0, 9.0, 9.0), (0.1, 0.2, 0.3))
    );
    assert_eq!(
        metal.scatter(&out, &up),
        ScatterResult::Scatter((0.25, 1.0, 0.0), (0.4, 0.5, 0.6))
    );
    assert_eq!(metal.scatter(&out, &down), ScatterResult::Absorb);
    assert_eq!(metal.scatter(&out, &along), ScatterResult::Absorb);
}
