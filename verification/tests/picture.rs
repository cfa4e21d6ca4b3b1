use raytracer::framebuffer::Framebuffer;
use image::error::{ImageError, LimitError, LimitErrorKind};
use raytracer::picture::{encoded, to_picture, EncodeError};

fn sample(width: usize, height: usize) -> Framebuffer<u8> {
    let channels: Vec<u8> = (0..3 * width * height).map(|i| (i * 7 % 251) as u8).collect();
    Framebuffer::from_vec(width, height, channels).unwrap()
}

#[test]
fn picture_has_the_sizes_of_the_image() {
    let picture = to_picture(&sample(5, 3));
    assert_eq!(picture.width(), 5);
    assert_eq!(picture.height(), 3);
}

#[test]
fn picture_holds_the_channels_of_the_image() {
    let image = sample(5, 3);
    let expected = image.channels().clone();
    assert_eq!(to_picture(&image).into_vec(), expected);
}

#[test]
fn picture_of_an_image_that_is_not_blank() {
    let image = Framebuffer::from_vec(1, 2, vec![1u8, 2, 3, 4, 5, 6]).unwrap();
    assert_eq!(to_picture(&image).into_vec(), vec![1, 2, 3, 4, 5, 6]);
}

#[test]
fn picture_of_an_empty_image() {
    let picture = to_picture(&sample(0, 0));
    assert_eq!(picture.width(), 0);
    assert_eq!(picture.height(), 0);
    assert!(picture.into_vec().is_empty());
}

#[test]
fn encoded_picture_decodes_to_the_image() {
    let image = sample(6, 4);
    let bytes = to_picture(&image).to_png().unwrap();
    assert_eq!(&bytes[..8], &[0x89, b'P', b'N', b'G', 0x0d, 0x0a, 0x1a, 0x0a]);
    let decoded = image::load_from_memory(&bytes).unwrap().into_rgb8();
    assert_eq!(decoded.width(), 6);
    assert_eq!(decoded.height(), 4);
    for row in 0..4u32 {
        for x in 0..6u32 {
            let (r, g, b) = image.pixel(x as usize, row as usize);
            assert_eq!(decoded.get_pixel(x, row).0, [r, g, b]);
        }
    }
}

#[test]
fn empty_picture_is_not_encoded() {
    assert_eq!(to_picture(&sample(0, 0)).to_png(), Err(EncodeError));
    assert_eq!(to_picture(&sample(0, 5)).to_png(), Err(EncodeError));
}

#[test]
fn bytes_of_the_encoder_are_handed_on() {
    assert_eq!(encoded(Ok(vec![137, 80, 78, 71])), Ok(vec![137, 80, 78, 71]));
    assert_eq!(encoded(Ok(Vec::new())), Ok(Vec::new()));
}

#[test]
fn error_of_the_encoder_becomes_an_encode_error() {
    let limits = ImageError::Limits(LimitError::from_kind(LimitErrorKind::DimensionError));
    assert_eq!(encoded(Err(limits)), Err(EncodeError));
    let io = ImageError::IoError(std::io::Error::new(std::io::ErrorKind::Other, "full"));
    assert_eq!(encoded(Err(io)), Err(EncodeError));
}
