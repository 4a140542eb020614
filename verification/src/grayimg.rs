use vstd::prelude::*;

verus! {

/// An owned grayscale pixel buffer backed by `image::GrayImage`.
///
/// The buffer is opaque to the verifier; its dimensions and its row-major
/// sample sequence are exposed through the two names below, and every
/// access goes through the trusted wrappers in this module.
#[verifier::external_body]
pub struct GrayBuffer {
    inner: image::GrayImage,
}

/// The `(width, height)` of the underlying buffer.
pub uninterp spec fn gray_dims(b: GrayBuffer) -> (u32, u32);

/// The samples of the underlying buffer, row-major: the pixel at
/// `(x, y)` sits at index `y * width + x`.
pub uninterp spec fn gray_pixels(b: GrayBuffer) -> Seq<u8>;

/// Relies on `image::ImageBuffer::new`: allocates a `width x height`
/// buffer with every sample zero.
#[verifier::external_body]
pub fn gray_new(width: u32, height: u32) -> (r: GrayBuffer)
    requires
        (width as nat) * (height as nat) <= u32::MAX as nat,
    ensures
        gray_dims(r) == (width, height),
        gray_pixels(r) == Seq::new((width as nat) * (height as nat), |i: int| 0u8),
{
    GrayBuffer { inner: image::GrayImage::new(width, height) }
}

/// Relies on `image::ImageBuffer::from_raw`: wraps an existing row-major
/// sample vector of exactly `width * height` bytes.
#[verifier::external_body]
pub fn gray_from_vec(width: u32, height: u32, data: Vec<u8>) -> (r: GrayBuffer)
    requires
        data@.len() == (width as nat) * (height as nat),
    ensures
        gray_dims(r) == (width, height),
        gray_pixels(r) == data@,
{
    GrayBuffer { inner: image::GrayImage::from_raw(width, height, data).unwrap() }
}

/// Relies on `image::ImageBuffer::into_raw`: returns the row-major
/// sample vector.
#[verifier::external_body]
pub fn gray_into_vec(b: GrayBuffer) -> (r: Vec<u8>)
    ensures
        r@ == gray_pixels(b),
{
    b.inner.into_raw()
}

/// Relies on `image::ImageBuffer::dimensions`: returns `(width, height)`.
#[verifier::external_body]
pub fn gray_dimensions(b: &GrayBuffer) -> (r: (u32, u32))
    ensures
        r == gray_dims(*b),
{
    b.inner.dimensions()
}

/// Relies on `image::ImageBuffer::get_pixel`: reads the sample at
/// `(x, y)`; out-of-bounds coordinates would panic and are excluded.
#[verifier::external_body]
pub fn gray_get(b: &GrayBuffer, x: u32, y: u32) -> (r: u8)
    requires
        x < gray_dims(*b).0,
        y < gray_dims(*b).1,
    ensures
        r == gray_pixels(*b)[(y as int) * (gray_dims(*b).0 as int) + (x as int)],
{
    b.inner.get_pixel(x, y).0[0]
}

/// Relies on `image::ImageBuffer::put_pixel`: overwrites the sample at
/// `(x, y)`; out-of-bounds coordinates would panic and are excluded.
#[verifier::external_body]
pub fn gray_put(b: &mut GrayBuffer, x: u32, y: u32, v: u8)
    requires
        x < gray_dims(*old(b)).0,
        y < gray_dims(*old(b)).1,
    ensures
        gray_dims(*final(b)) == gray_dims(*old(b)),
        gray_pixels(*final(b)) == gray_pixels(*old(b)).update(
            (y as int) * (gray_dims(*old(b)).0 as int) + (x as int),
            v,
        ),
{
    b.inner.put_pixel(x, y, image::Luma([v]));
}

} // verus!
