use raytracer::bands::Bands;
use raytracer::framebuffer::{render_band, render_single_thread, Framebuffer};

fn shade(x: usize, row: usize) -> (u32, u32, u32) {
    let base = (row * 100 + x * 10) as u32;
    (base, base + 1, base + 2)
}

#[test]
fn new_image_is_filled() {
    let plan = Bands::new(3, 2, 1).unwrap();
    let image = Framebuffer::new(&plan, 7u8);
    assert_eq!(image.width(), 3);
    assert_eq!(image.height(), 2);
    assert_eq!(image.channels(), &vec![7u8; 18]);
}

#[test]
fn new_image_of_floats() {
    let plan = Bands::new(2, 2, 2).unwrap();
    let image = Framebuffer::new(&plan, 0.0f64);
    assert_eq!(image.into_vec(), vec![0.0f64; 12]);
}

#[test]
fn band_is_rendered_in_reading_order() {
    let plan = Bands::new(2, 4, 2).unwrap();
    let local = render_band(&plan, 1, &shade);
    assert_eq!(
        local,
        vec![200, 201, 202, 210, 211, 212, 300, 301, 302, 310, 311, 312]
    );
}

#[test]
fn first_band_starts_at_the_first_row() {
    let plan = Bands::new(2, 4, 2).unwrap();
    let local = render_band(&plan, 0, &shade);
    assert_eq!(
        local,
        vec![0, 1, 2, 10, 11, 12, 100, 101, 102, 110, 111, 112]
    );
}

#[test]
fn written_band_replaces_its_rows_only() {
    let plan = Bands::new(2, 4, 2).unwrap();
    let mut image = Framebuffer::new(&plan, 9u32);
    let local = render_band(&plan, 1, &shade);
    image.write_band(&plan, 1, &local);
    let mut expected = vec![9u32; 12];
    expected.extend_from_slice(&local);
    assert_eq!(image.channels(), &expected);
    assert_eq!(image.pixel(1, 3), (310, 311, 312));
    assert_eq!(image.pixel(1, 1), (9, 9, 9));
}

#[test]
fn bands_may_arrive_in_any_order() {
    let plan = Bands::new(3, 6, 3).unwrap();
    let locals: Vec<Vec<u32>> = (0..3).map(|band| render_band(&plan, band, &shade)).collect();
    let orders = [[0, 1, 2], [0, 2, 1], [1, 0, 2], [1, 2, 0], [2, 0, 1], [2, 1, 0]];
    let mut results = Vec::new();
    for order in orders.iter() {
        let mut image = Framebuffer::new(&plan, 0u32);
        for &band in order.iter() {
            image.write_band(&plan, band, &locals[band]);
        }
        results.push(image.into_vec());
    }
    for result in results.iter() {
        assert_eq!(result, &results[0]);
    }
}

#[test]
fn every_pixel_is_shaded_once_all_bands_are_written() {
    let plan = Bands::new(3, 6, 3).unwrap();
    let mut image = Framebuffer::new(&plan, 0u32);
    for band in [2, 0, 1] {
        let local = render_band(&plan, band, &shade);
        image.write_band(&plan, band, &local);
    }
    for row in 0..6 {
        for x in 0..3 {
            assert_eq!(image.pixel(x, row), shade(x, row));
        }
    }
}

#[test]
fn single_thread_render_shades_every_pixel() {
    let plan = Bands::new(5, 4, 4).unwrap();
    let image = render_single_thread(&plan, 0u32, &shade);
    assert_eq!(image.width(), 5);
    assert_eq!(image.height(), 4);
    for row in 0..4 {
        for x in 0..5 {
            assert_eq!(image.pixel(x, row), shade(x, row));
        }
    }
}

#[test]
fn single_thread_render_does_not_depend_on_the_bands() {
    let one = render_single_thread(&Bands::new(4, 6, 1).unwrap(), 0u32, &shade);
    let three = render_single_thread(&Bands::new(4, 6, 3).unwrap(), 0u32, &shade);
    let six = render_single_thread(&Bands::new(4, 6, 6).unwrap(), 0u32, &shade);
    assert_eq!(one.channels(), three.channels());
    assert_eq!(one.channels(), six.channels());
}

#[test]
fn repeated_renders_of_a_fixed_shader_are_equal() {
    let plan = Bands::new(4, 4, 2).unwrap();
    let first = render_single_thread(&plan, 0u32, &shade);
    let second = render_single_thread(&plan, 0u32, &shade);
    assert_eq!(first.into_vec(), second.into_vec());
}

#[test]
fn shader_is_called_once_for_each_pixel_of_the_band() {
    let plan = Bands::new(3, 4, 2).unwrap();
    let calls = std::cell::RefCell::new(Vec::new());
    let local = render_band(&plan, 1, &|x: usize, row: usize| {
        calls.borrow_mut().push((x, row));
        (0u8, 0u8, 0u8)
    });
    assert_eq!(local.len(), 18);
    assert_eq!(
        calls.into_inner(),
        vec![(0, 2), (1, 2), (2, 2), (0, 3), (1, 3), (2, 3)]
    );
}

#[test]
fn image_from_channel_values() {
    let image = Framebuffer::from_vec(2, 1, vec![1u8, 2, 3, 4, 5, 6]).unwrap();
    assert_eq!(image.width(), 2);
    assert_eq!(image.height(), 1);
    assert_eq!(image.pixel(0, 0), (1, 2, 3));
    assert_eq!(image.pixel(1, 0), (4, 5, 6));
}

#[test]
fn image_from_too_few_or_too_many_values() {
    assert!(Framebuffer::from_vec(2, 1, vec![1u8, 2, 3, 4, 5]).is_none());
    assert!(Framebuffer::from_vec(2, 1, vec![1u8, 2, 3, 4, 5, 6, 7]).is_none());
    assert!(Framebuffer::from_vec(0, 3, vec![1u8]).is_none());
    assert!(Framebuffer::from_vec(0, 3, Vec::<u8>::new()).is_some());
}

#[test]
fn image_from_sizes_beyond_the_limits() {
    assert!(Framebuffer::from_vec(1 << 33, 0, Vec::<u8>::new()).is_none());
    assert!(Framebuffer::from_vec(0, 1 << 33, Vec::<u8>::new()).is_none());
}

#[test]
fn mapped_image_converts_every_channel() {
    let plan = Bands::new(2, 2, 1).unwrap();
    let linear = render_single_thread(&plan, 0.0f64, &|x: usize, row: usize| {
        (x as f64 * 0.25, row as f64 * 0.25, 1.0)
    });
    let display = linear.map(&|v: f64| (255.0 * v.sqrt()) as u8);
    assert_eq!(display.width(), 2);
    assert_eq!(display.height(), 2);
    assert_eq!(
        display.channels(),
        &vec![0, 0, 255, 127, 0, 255, 0, 127, 255, 127, 127, 255]
    );
}
