//! An RGBA raster: the image model every renderer works on.

use vstd::prelude::*;

verus! {

/// One RGBA pixel, 8 bits per channel.
#[derive(Clone, Copy, Debug, PartialEq, Eq, Structural)]
pub struct Rgba {
    pub r: u8,
    pub g: u8,
    pub b: u8,
    pub a: u8,
}

/// What an [`Image`] is: its dimensions and its raw RGBA bytes, row-major.
pub struct ImageView {
    pub width: u32,
    pub height: u32,
    pub data: Seq<u8>,
}

impl ImageView {
    /// Number of pixels.
    pub open spec fn len(self) -> nat {
        (self.width * self.height) as nat
    }

    /// The raw buffer holds exactly four bytes per pixel.
    pub open spec fn wf(self) -> bool {
        self.data.len() == 4 * self.len()
    }

    /// The pixel at row-major index `i`.
    pub open spec fn at(self, i: int) -> Rgba {
        Rgba {
            r: self.data[4 * i],
            g: self.data[4 * i + 1],
            b: self.data[4 * i + 2],
            a: self.data[4 * i + 3],
        }
    }

    /// The pixel at column `x`, row `y`.
    pub open spec fn pixel(self, x: int, y: int) -> Rgba {
        self.at(y * self.width + x)
    }

    /// All pixels, row-major.
    pub open spec fn pixels(self) -> Seq<Rgba> {
        Seq::new(self.len(), |i: int| self.at(i))
    }
}

/// Channel `c` (0 = red, 1 = green, 2 = blue, 3 = alpha) of a pixel.
pub open spec fn channel(p: Rgba, c: int) -> u8 {
    if c == 0 {
        p.r
    } else if c == 1 {
        p.g
    } else if c == 2 {
        p.b
    } else {
        p.a
    }
}

/// The `width × height` image whose pixel at row-major index `i` is `f(i)`.
pub open spec fn from_pixels(width: u32, height: u32, f: spec_fn(int) -> Rgba) -> ImageView {
    ImageView {
        width,
        height,
        data: Seq::new(4 * (width * height) as nat, |k: int| channel(f(k / 4), k % 4)),
    }
}

/// `from_pixels` holds the pixels it is given.
pub proof fn lemma_from_pixels(width: u32, height: u32, f: spec_fn(int) -> Rgba)
    ensures
        from_pixels(width, height, f).wf(),
        forall|i: int|
            0 <= i < width * height ==> #[trigger] from_pixels(width, height, f).at(i) == f(i),
{
    let v = from_pixels(width, height, f);
    assert forall|i: int| 0 <= i < width * height implies #[trigger] v.at(i) == f(i) by {
        vstd::arithmetic::div_mod::lemma_fundamental_div_mod_converse(4 * i, 4, i, 0);
        vstd::arithmetic::div_mod::lemma_fundamental_div_mod_converse(4 * i + 1, 4, i, 1);
        vstd::arithmetic::div_mod::lemma_fundamental_div_mod_converse(4 * i + 2, 4, i, 2);
        vstd::arithmetic::div_mod::lemma_fundamental_div_mod_converse(4 * i + 3, 4, i, 3);
    }
}

/// A well-formed image is determined by its dimensions and pixels.
pub proof fn lemma_view_from_pixels(v: ImageView, f: spec_fn(int) -> Rgba)
    requires
        v.wf(),
        forall|i: int| 0 <= i < v.width * v.height ==> #[trigger] v.at(i) == f(i),
    ensures
        v == from_pixels(v.width, v.height, f),
{
    let u = from_pixels(v.width, v.height, f);
    assert forall|k: int| 0 <= k < v.data.len() implies v.data[k] == u.data[k] by {
        let i = k / 4;
        let c = k % 4;
        vstd::arithmetic::div_mod::lemma_fundamental_div_mod(k, 4);
        assert(0 <= i < v.width * v.height);
        assert(v.at(i) == f(i));
        assert(k == 4 * i + c);
    }
    assert(v.data =~= u.data);
}

/// A width × height RGBA raster stored as raw bytes, row-major.
pub struct Image {
    width: u32,
    height: u32,
    data: Vec<u8>,
}

impl View for Image {
    type V = ImageView;

    closed spec fn view(&self) -> ImageView {
        ImageView { width: self.width, height: self.height, data: self.data@ }
    }
}

impl Image {
    #[verifier::type_invariant]
    spec fn inv(&self) -> bool {
        self.data.len() == 4 * (self.width * self.height)
    }

    /// A black, fully transparent image (all bytes zero).
    pub fn new(width: u32, height: u32) -> (r: Image)
        requires
            4 * (width * height) <= usize::MAX,
        ensures
            r@.wf(),
            r@.width == width,
            r@.height == height,
            r@.data == Seq::new(4 * (width * height) as nat, |i: int| 0u8),
    {
        let n: usize = 4 * ((width as usize) * (height as usize));
        let data: Vec<u8> = vec![0u8; n];
        Image { width, height, data }
    }

    /// An image over a raw RGBA buffer, or `None` when the buffer does not
    /// hold exactly four bytes per pixel.
    pub fn from_raw(width: u32, height: u32, data: Vec<u8>) -> (r: Option<Image>)
        ensures
            match r {
                Some(img) => img@ == (ImageView { width, height, data: data@ }) && img@.wf(),
                None => data@.len() != 4 * (width * height),
            },
    {
        assert((width as int) * (height as int) <= 0xffff_ffff * 0xffff_ffff) by (nonlinear_arith)
            requires
                width <= 0xffff_ffff,
                height <= 0xffff_ffff,
        ;
        let n: u128 = 4 * ((width as u128) * (height as u128));
        if (data.len() as u128) == n {
            Some(Image { width, height, data })
        } else {
            None
        }
    }

    pub fn width(&self) -> (r: u32)
        ensures
            r == self@.width,
            self@.wf(),
    {
        proof {
            use_type_invariant(self);
        }
        self.width
    }

    pub fn height(&self) -> (r: u32)
        ensures
            r == self@.height,
            self@.wf(),
    {
        proof {
            use_type_invariant(self);
        }
        self.height
    }

    /// `(width, height)`.
    pub fn dimensions(&self) -> (r: (u32, u32))
        ensures
            r == (self@.width, self@.height),
            self@.wf(),
    {
        proof {
            use_type_invariant(self);
        }
        (self.width, self.height)
    }

    /// The raw RGBA bytes, row-major.
    pub fn as_raw(&self) -> (r: &Vec<u8>)
        ensures
            r@ == self@.data,
            self@.wf(),
    {
        proof {
            use_type_invariant(self);
        }
        &self.data
    }

    /// The pixel at row-major index `i`.
    pub fn at(&self, i: usize) -> (p: Rgba)
        requires
            i < self@.len(),
        ensures
            p == self@.at(i as int),
    {
        proof {
            use_type_invariant(self);
        }
        let k: usize = 4 * i;
        Rgba { r: self.data[k], g: self.data[k + 1], b: self.data[k + 2], a: self.data[k + 3] }
    }

    /// The pixel at column `x`, row `y`.
    pub fn get_pixel(&self, x: u32, y: u32) -> (p: Rgba)
        requires
            x < self@.width,
            y < self@.height,
        ensures
            p == self@.pixel(x as int, y as int),
    {
        proof {
            use_type_invariant(self);
            lemma_index_in_grid(x as int, y as int, self.width as int, self.height as int);
        }
        let i: usize = (y as usize) * (self.width as usize) + (x as usize);
        self.at(i)
    }

    /// Overwrite the pixel at column `x`, row `y`.
    pub fn put_pixel(&mut self, x: u32, y: u32, p: Rgba)
        requires
            x < old(self)@.width,
            y < old(self)@.height,
        ensures
            final(self)@.width == old(self)@.width,
            final(self)@.height == old(self)@.height,
            final(self)@.wf(),
            forall|i: int|
                0 <= i < old(self)@.len() ==> #[trigger] final(self)@.at(i) == (if i == y
                    * old(self)@.width + x {
                    p
                } else {
                    old(self)@.at(i)
                }),
    {
        proof {
            use_type_invariant(&*self);
            lemma_index_in_grid(x as int, y as int, self.width as int, self.height as int);
        }
        let i: usize = (y as usize) * (self.width as usize) + (x as usize);
        let k: usize = 4 * i;
        let mut taken = Image { width: 0, height: 0, data: Vec::new() };
        std::mem::swap(self, &mut taken);
        let Image { width, height, data } = taken;
        let ghost before = data@;
        let mut data = data;
        data.set(k, p.r);
        data.set(k + 1, p.g);
        data.set(k + 2, p.b);
        data.set(k + 3, p.a);
        *self = Image { width, height, data };
        proof {
            let old_view = ImageView { width, height, data: before };
            assert forall|j: int| 0 <= j < old_view.len() implies #[trigger] self@.at(j) == (if j
                == i {
                p
            } else {
                old_view.at(j)
            }) by {}
        }
    }
}

/// The RGBA bytes that `image::imageops::resize` with the triangle filter
/// makes of a `src_width × src_height` RGBA buffer at `width × height`.
pub uninterp spec fn triangle_resized(
    src: Seq<u8>,
    src_width: u32,
    src_height: u32,
    width: u32,
    height: u32,
) -> Seq<u8>;

/// Resample with `image::imageops::resize` and `FilterType::Triangle`.
///
/// Trusted: the result has the requested dimensions (the crate allocates a
/// `width × height` buffer, and panics when that buffer's length, or that
/// of its intermediate float buffer of the source width by `height`,
/// overflows `usize`; `requires` leaves those out); a resize to the source's own dimensions is a
/// copy, and a resize of an empty source is all zero (both read off the
/// crate's `resize`). The filtered values themselves are only named, by
/// `triangle_resized`.
#[verifier::external_body]
pub(crate) fn resize_exact(img: &Image, width: u32, height: u32) -> (out: Image)
    requires
        4 * (width * height) <= usize::MAX,
        img@.len() > 0 && !(width == img@.width && height == img@.height) ==> 4 * (img@.width
            * height) <= usize::MAX,
    ensures
        out@.width == width,
        out@.height == height,
        out@.wf(),
        out@.data == triangle_resized(img@.data, img@.width, img@.height, width, height),
        width == img@.width && height == img@.height ==> out@.data == img@.data,
        img@.len() == 0 ==> out@.data == Seq::new(4 * (width * height) as nat, |k: int| 0u8),
{
    let src = image::RgbaImage::from_raw(img.width, img.height, img.data.clone()).unwrap();
    let scaled = image::imageops::resize(&src, width, height, image::imageops::FilterType::Triangle);
    Image { width, height, data: scaled.into_raw() }
}

/// A grid position `(x, y)` inside a `w × h` grid has row-major index below `w * h`.
pub proof fn lemma_index_in_grid(x: int, y: int, w: int, h: int)
    requires
        0 <= x < w,
        0 <= y < h,
    ensures
        0 <= y * w + x < w * h,
        y * w + x + 1 <= w * h,
{
    assert(y * w + x < w * h) by (nonlinear_arith)
        requires
            0 <= x < w,
            0 <= y < h,
    ;
    assert(0 <= y * w) by (nonlinear_arith)
        requires
            0 <= y,
            0 <= w,
    ;
}

} // verus!
