//! Decoding of Radiance HDR (`.hdr`, `.pic`) images from a byte stream.
//!
//! A stream starts with the signature `#?RADIANCE`, goes on with a header in
//! text that gives the size of the image, and ends with the scanlines. Each
//! scanline is run-length encoded in one of two ways, pixel by pixel
//! ([`runs`]) or plane by plane ([`planes`]), and says for itself in which
//! ([`scanline`]).
//!
//! [`load`] decodes a stream that lies in memory. Every pixel is decoded
//! exactly: its three mantissas and the power of two that scales them, as an
//! [`RGB`]. No floating-point number is computed here.
//!
//! ```
//! use radiant::{load, ByteReader, RGB};
//!
//! let bytes = b"#?RADIANCE\n\n-Y 1 +X 2\n\x80\x40\x20\x81\x01\x01\x01\x01";
//! let mut reader = ByteReader::new(bytes);
//! let image = load(&mut reader).unwrap();
//! assert_eq!((image.width, image.height), (2, 1));
//! assert_eq!(*image.pixel(1, 0), RGB { r: 128, g: 64, b: 32, expo: 1 });
//! ```
//!
//! # What is proved
//!
//! Every function here is verified with Verus. What a decoder returns is
//! stated by a function of the bytes before it: [`stream::load_spec`] for
//! [`load`], and so on down to [`planes::segment_spec`]. A decoder returns
//! what that function says, for every input; where it succeeds it has read
//! the bytes that the function says it takes, and no others. No function
//! panics on an input that meets its `requires`, and no arithmetic overflows.
//!
//! [`truncation`] proves of these functions that a stream cut short decodes
//! as the whole stream does or fails with [`LoadError::Eof`].

pub mod error;
pub mod header;
pub mod image;
pub mod outcome;
pub mod pixel;
pub mod planes;
pub mod reader;
pub mod runs;
pub mod scanline;
pub mod stream;
pub mod truncation;

pub use error::{IoErrorKind, LoadError};
pub use image::{Image, ImageView};
pub use pixel::{Channel, RGB, RGBE};
pub use reader::ByteReader;
pub use stream::{load, read_image, MAGIC_LEN};
