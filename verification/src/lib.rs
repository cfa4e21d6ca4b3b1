//! The verified core of a ray tracer.
//!
//! A render follows rays from a camera through a scene and fills an image
//! with what they bring back. The arithmetic of light is floating point and
//! stands outside this library; what is here is the part that decides and
//! keeps the books, proved for every answer that the arithmetic may give:
//!
//! - [`scene`]: the choice between the roots of a ray with a primitive, and
//!   the scan of a scene's primitives for the nearest hit;
//! - [`material`]: the surfaces, and when one scatters or absorbs;
//! - [`path`]: the walk of a ray from bounce to bounce, as deep as allowed;
//! - [`bands`]: the split of the image into bands, one for each worker;
//! - [`framebuffer`]: the image buffer, and how the bands make it up;
//! - [`ppm`] and [`decimal`]: the image as text, written and read back;
//! - [`picture`]: the image handed to the `image` crate;
//! - [`obj`]: the text of a mesh.
//!
//! The floating-point kernels reach the library as closures: one that asks a
//! primitive for its hit, one that says where a surface sends a ray, one that
//! bounces a ray, one that shades a pixel.
pub mod bands;
pub mod decimal;
pub mod framebuffer;
pub mod material;
pub mod obj;
pub mod path;
pub mod picture;
pub mod ppm;
pub mod scene;
