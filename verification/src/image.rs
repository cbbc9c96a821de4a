use vstd::prelude::*;

use crate::types::Color;

verus! {

/// Channel `k` (0 = red, 1 = green, 2 = blue, 3 = alpha) of a color.
pub open spec fn channel(c: Color, k: int) -> u8 {
    if k == 0 {
        c.0
    } else if k == 1 {
        c.1
    } else if k == 2 {
        c.2
    } else {
        c.3
    }
}

/// Number of bytes in a row-major RGBA buffer of `width × height` pixels.
pub open spec fn buffer_len(width: u32, height: u32) -> int {
    width as int * height as int * 4
}

/// The color stored at linear pixel index `q` (four bytes starting at `4q`).
pub open spec fn pixel_at_index(data: Seq<u8>, q: int) -> Color {
    Color(data[4 * q], data[4 * q + 1], data[4 * q + 2], data[4 * q + 3])
}

/// The buffer with the four bytes of linear pixel `q` replaced by `c`.
pub open spec fn with_pixel_at(data: Seq<u8>, q: int, c: Color) -> Seq<u8> {
    data.update(4 * q, c.0).update(4 * q + 1, c.1).update(4 * q + 2, c.2).update(4 * q + 3, c.3)
}

/// Whether (x, y) lies inside a `width × height` image.
pub open spec fn in_bounds(width: u32, height: u32, x: int, y: int) -> bool {
    0 <= x < width && 0 <= y < height
}

/// The color of pixel (x, y); out-of-bounds coordinates read as `Color(0, 0, 0, 0)`.
pub open spec fn pixel_of(data: Seq<u8>, width: u32, height: u32, x: int, y: int) -> Color {
    if in_bounds(width, height, x, y) {
        pixel_at_index(data, y * width + x)
    } else {
        Color(0, 0, 0, 0)
    }
}

/// The buffer after writing `c` at pixel (x, y); out-of-bounds writes change nothing.
pub open spec fn with_pixel(
    data: Seq<u8>,
    width: u32,
    height: u32,
    x: int,
    y: int,
    c: Color,
) -> Seq<u8> {
    if in_bounds(width, height, x, y) {
        with_pixel_at(data, y * width + x, c)
    } else {
        data
    }
}

/// Over-blended color channel: `src · a/255 + dst · (1 − a/255)`, rounded down.
pub open spec fn blend_channel(src: u8, dst: u8, a: u8) -> int {
    (src * a + dst * (255 - a)) / 255
}

/// Over-blended alpha: `dst_a + a − dst_a · a / 255`, the division rounded down.
pub open spec fn blend_alpha(dst_a: u8, a: u8) -> int {
    dst_a + a - (dst_a * a) / 255
}

/// The result of compositing `src` with coverage `a` over the pixel `dst`.
/// A zero coverage leaves the pixel as it was.
pub open spec fn composite(dst: Color, a: u8, src: Color) -> Color {
    if a == 0 {
        dst
    } else {
        Color(
            blend_channel(src.0, dst.0, a) as u8,
            blend_channel(src.1, dst.1, a) as u8,
            blend_channel(src.2, dst.2, a) as u8,
            blend_alpha(dst.3, a) as u8,
        )
    }
}

/// Whether the mask element at column `mx`, row `my` lands inside the image
/// when the mask's top-left corner is placed at (ox, oy).
pub open spec fn mask_lands(width: u32, height: u32, ox: int, oy: int, mx: int, my: int) -> bool {
    in_bounds(width, height, ox + mx, oy + my)
}

/// The coverage that a `mask_width × mask_height` mask placed at (ox, oy)
/// gives pixel (x, y); zero where the mask does not reach.
pub open spec fn mask_alpha_at(
    mask: Seq<u8>,
    mask_width: u32,
    mask_height: u32,
    ox: int,
    oy: int,
    x: int,
    y: int,
) -> u8 {
    let mx = x - ox;
    let my = y - oy;
    if 0 <= mx < mask_width && 0 <= my < mask_height {
        mask[my * mask_width + mx]
    } else {
        0
    }
}

/// Every mask element that lands inside the image has an entry in `mask`.
pub open spec fn mask_covers_landing(
    mask: Seq<u8>,
    mask_width: u32,
    mask_height: u32,
    width: u32,
    height: u32,
    ox: int,
    oy: int,
) -> bool {
    forall|mx: int, my: int|
        0 <= mx < mask_width && 0 <= my < mask_height && #[trigger] mask_lands(
            width,
            height,
            ox,
            oy,
            mx,
            my,
        ) ==> my * mask_width + mx < mask.len()
}

/// Distinct in-bounds coordinates have distinct linear pixel indices, and
/// every linear index of an in-bounds pixel is below `width · height`.
pub proof fn lemma_pixel_index(width: u32, height: u32, x: int, y: int, x2: int, y2: int)
    requires
        in_bounds(width, height, x, y),
        in_bounds(width, height, x2, y2),
    ensures
        0 <= y * width + x < width as int * height as int,
        (y * width + x == y2 * width + x2) ==> (x == x2 && y == y2),
{
    let w = width as int;
    let h = height as int;
    assert(0 <= y * w) by (nonlinear_arith)
        requires
            0 <= y,
            0 <= w,
    ;
    assert(y * w + x < w * h) by (nonlinear_arith)
        requires
            0 <= y < h,
            0 <= x < w,
    ;
    if y < y2 {
        assert(y * w + x < y2 * w + x2) by (nonlinear_arith)
            requires
                0 <= y < y2,
                0 <= x < w,
                0 <= x2,
        ;
    } else if y2 < y {
        assert(y2 * w + x2 < y * w + x) by (nonlinear_arith)
            requires
                0 <= y2 < y,
                0 <= x2 < w,
                0 <= x,
        ;
    }
}

/// Writing a pixel makes it read back as the written color and leaves every
/// other pixel as it was.
pub proof fn lemma_get_after_set(
    data: Seq<u8>,
    width: u32,
    height: u32,
    x: int,
    y: int,
    c: Color,
    x2: int,
    y2: int,
)
    requires
        data.len() == buffer_len(width, height),
    ensures
        in_bounds(width, height, x, y) ==> pixel_of(with_pixel(data, width, height, x, y, c), width, height, x, y) == c,
        (x2 != x || y2 != y) ==> pixel_of(with_pixel(data, width, height, x, y, c), width, height, x2, y2)
            == pixel_of(data, width, height, x2, y2),
        with_pixel(data, width, height, x, y, c).len() == data.len(),
{
    if in_bounds(width, height, x, y) {
        lemma_pixel_index(width, height, x, y, x, y);
        if in_bounds(width, height, x2, y2) {
            lemma_pixel_index(width, height, x, y, x2, y2);
            lemma_pixel_index(width, height, x2, y2, x2, y2);
        }
    }
}

/// A second write to the same pixel overrides the first.
pub proof fn lemma_last_write_wins(
    data: Seq<u8>,
    width: u32,
    height: u32,
    x: int,
    y: int,
    c1: Color,
    c2: Color,
)
    requires
        data.len() == buffer_len(width, height),
    ensures
        with_pixel(with_pixel(data, width, height, x, y, c1), width, height, x, y, c2) == with_pixel(
            data,
            width,
            height,
            x,
            y,
            c2,
        ),
{
    if in_bounds(width, height, x, y) {
        let q = y * width + x;
        lemma_pixel_index(width, height, x, y, x, y);
        assert(with_pixel_at(with_pixel_at(data, q, c1), q, c2) =~= with_pixel_at(data, q, c2));
    }
}

/// Compositing with full coverage yields the source color, fully opaque.
pub proof fn lemma_composite_full_coverage(dst: Color, src: Color)
    ensures
        composite(dst, 255, src) == Color(src.0, src.1, src.2, 255),
{
    assert(blend_channel(src.0, dst.0, 255) == src.0 as int);
    assert(blend_channel(src.1, dst.1, 255) == src.1 as int);
    assert(blend_channel(src.2, dst.2, 255) == src.2 as int);
    assert((dst.3 as int * 255) / 255 == dst.3 as int);
}

/// Each colour channel of a composited pixel is the over-blend of the same
/// channel of the source and of the old pixel, `(src·a + dst·(255 − a)) / 255`
/// rounded down, so it depends on no other channel: two pixels that agree
/// on a channel still agree on it after compositing the same source.
pub proof fn lemma_composite_per_channel(dst: Color, other: Color, a: u8, src: Color)
    requires
        a > 0,
    ensures
        composite(dst, a, src).0 == (src.0 * a + dst.0 * (255 - a)) / 255,
        composite(dst, a, src).1 == (src.1 * a + dst.1 * (255 - a)) / 255,
        composite(dst, a, src).2 == (src.2 * a + dst.2 * (255 - a)) / 255,
        dst.0 == other.0 ==> composite(dst, a, src).0 == composite(other, a, src).0,
        dst.1 == other.1 ==> composite(dst, a, src).1 == composite(other, a, src).1,
        dst.2 == other.2 ==> composite(dst, a, src).2 == composite(other, a, src).2,
        dst.3 == other.3 ==> composite(dst, a, src).3 == composite(other, a, src).3,
{
    lemma_blend_bounds(dst, a, src);
    lemma_blend_bounds(other, a, src);
}

/// Compositing onto an opaque pixel keeps it opaque, and the alpha of a
/// composited pixel is never below the coverage nor below the old alpha.
pub proof fn lemma_composite_alpha(dst: Color, a: u8, src: Color)
    ensures
        composite(dst, a, src).3 >= a,
        composite(dst, a, src).3 >= dst.3,
        dst.3 == 255 ==> composite(dst, a, src).3 == 255,
{
    lemma_blend_bounds(dst, a, src);
    if dst.3 == 255 {
        assert((255 * a as int) / 255 == a as int);
    }
}

/// The blended values fit in a byte, and the blended alpha is at least both
/// the coverage and the old alpha.
proof fn lemma_blend_bounds(dst: Color, a: u8, src: Color)
    ensures
        0 <= blend_channel(src.0, dst.0, a) <= 255,
        0 <= blend_channel(src.1, dst.1, a) <= 255,
        0 <= blend_channel(src.2, dst.2, a) <= 255,
        a <= blend_alpha(dst.3, a) <= 255,
        dst.3 <= blend_alpha(dst.3, a),
{
    lemma_channel_bound(src.0, dst.0, a);
    lemma_channel_bound(src.1, dst.1, a);
    lemma_channel_bound(src.2, dst.2, a);
    let d = dst.3 as int;
    let aa = a as int;
    assert(0 <= (d * aa) / 255 <= d) by (nonlinear_arith)
        requires
            0 <= d <= 255,
            0 <= aa <= 255,
    ;
    assert(0 <= (d * aa) / 255 <= aa) by (nonlinear_arith)
        requires
            0 <= d <= 255,
            0 <= aa <= 255,
    ;
    assert(d + aa - (d * aa) / 255 <= 255) by (nonlinear_arith)
        requires
            0 <= d <= 255,
            0 <= aa <= 255,
    ;
}

proof fn lemma_product_bound(u: u32, v: u32)
    requires
        u <= 255,
        v <= 255,
    ensures
        u * v <= 255 * 255,
{
    assert(u * v <= 255 * 255) by (nonlinear_arith)
        requires
            u <= 255,
            v <= 255,
    ;
}

proof fn lemma_channel_bound(s: u8, d: u8, a: u8)
    ensures
        0 <= blend_channel(s, d, a) <= 255,
{
    let ss = s as int;
    let dd = d as int;
    let aa = a as int;
    assert(0 <= ss * aa + dd * (255 - aa) <= 255 * 255) by (nonlinear_arith)
        requires
            0 <= ss <= 255,
            0 <= dd <= 255,
            0 <= aa <= 255,
    ;
}

/// Whether the mask element at column `mx`, row `my` has been visited when a
/// row-major sweep stands at row `row`, column `col`.
pub open spec fn sweep_done(mx: int, my: int, row: int, col: int) -> bool {
    my < row || (my == row && mx < col)
}

/// Every in-bounds pixel holds its composited value if the sweep has passed
/// its mask element, and its earlier value otherwise.
pub open spec fn blend_progress(
    orig: Seq<u8>,
    cur: Seq<u8>,
    width: u32,
    height: u32,
    mask: Seq<u8>,
    mask_width: u32,
    mask_height: u32,
    ox: int,
    oy: int,
    color: Color,
    row: int,
    col: int,
) -> bool {
    forall|x: int, y: int|
        in_bounds(width, height, x, y) ==> #[trigger] pixel_of(cur, width, height, x, y) == if sweep_done(
            x - ox,
            y - oy,
            row,
            col,
        ) {
            composite(
                pixel_of(orig, width, height, x, y),
                mask_alpha_at(mask, mask_width, mask_height, ox, oy, x, y),
                color,
            )
        } else {
            pixel_of(orig, width, height, x, y)
        }
}

/// A CPU-side RGBA pixel buffer, independent of any GPU API.
///
/// Can be uploaded to a GPU texture, written to an image file, or handed to a
/// web canvas — all from the caller's side.
#[derive(Debug, Clone)]
pub struct RgbaImage {
    /// RGBA pixel data, row-major, length = `width * height * 4`.
    pub data: Vec<u8>,
    /// Width in pixels.
    pub width: u32,
    /// Height in pixels.
    pub height: u32,
}

/// Stores `c` as the four bytes of linear pixel `q`.
fn store_pixel(data: &mut Vec<u8>, q: usize, c: Color)
    requires
        4 * q + 3 < old(data)@.len(),
    ensures
        final(data)@ == with_pixel_at(old(data)@, q as int, c),
{
    let _len = data.len();
    let i = 4 * q;
    data.set(i, c.0);
    data.set(i + 1, c.1);
    data.set(i + 2, c.2);
    data.set(i + 3, c.3);
}

impl RgbaImage {
    /// The buffer holds exactly `width · height` pixels of four bytes, and
    /// that byte count fits in a `u32`.
    pub open spec fn wf(&self) -> bool {
        &&& self.data@.len() == buffer_len(self.width, self.height)
        &&& buffer_len(self.width, self.height) <= u32::MAX
    }

    /// Creates a new image filled with the given `color`.
    pub fn new(width: u32, height: u32, color: Color) -> (img: Self)
        requires
            buffer_len(width, height) <= u32::MAX,
        ensures
            img.wf(),
            img.width == width,
            img.height == height,
            forall|x: int, y: int|
                in_bounds(width, height, x, y) ==> #[trigger] pixel_of(
                    img.data@,
                    width,
                    height,
                    x,
                    y,
                ) == color,
    {
        proof {
            assert(width as int * height as int <= width as int * height as int * 4) by (nonlinear_arith)
                requires
                    0 <= width as int * height as int,
            ;
            assert(0 <= width as int * height as int) by (nonlinear_arith);
        }
        let total: u32 = width * height;
        let mut data: Vec<u8> = Vec::with_capacity((total * 4) as usize);
        let mut p: u32 = 0;
        while p < total
            invariant
                total == width as int * height as int,
                p <= total,
                total * 4 <= u32::MAX,
                data@.len() == 4 * p,
                forall|q: int| 0 <= q < p ==> #[trigger] pixel_at_index(data@, q) == color,
            decreases total - p,
        {
            let ghost before = data@;
            data.push(color.0);
            data.push(color.1);
            data.push(color.2);
            data.push(color.3);
            assert forall|q: int| 0 <= q < p + 1 implies #[trigger] pixel_at_index(data@, q)
                == color by {
                if q < p {
                    assert(pixel_at_index(before, q) == color);
                }
            }
            p = p + 1;
        }
        let img = RgbaImage { data, width, height };
        assert forall|x: int, y: int| in_bounds(width, height, x, y) implies #[trigger] pixel_of(
            img.data@,
            width,
            height,
            x,
            y,
        ) == color by {
            lemma_pixel_index(width, height, x, y, x, y);
        }
        img
    }

    /// Returns the raw RGBA byte slice.
    pub fn as_bytes(&self) -> (bytes: &[u8])
        ensures
            bytes@ == self.data@,
    {
        self.data.as_slice()
    }

    /// Returns the raw RGBA byte slice, mutable.
    pub fn as_bytes_mut(&mut self) -> (bytes: &mut [u8])
        ensures
            bytes@ == old(self).data@,
            final(self).data@ == final(bytes)@,
            final(self).width == old(self).width,
            final(self).height == old(self).height,
    {
        self.data.as_mut_slice()
    }

    /// Gets the RGBA color at the given pixel coordinate.
    ///
    /// Returns `Color(0, 0, 0, 0)` if the coordinate is out of bounds.
    pub fn get_pixel(&self, x: u32, y: u32) -> (c: Color)
        requires
            self.wf(),
        ensures
            c == pixel_of(self.data@, self.width, self.height, x as int, y as int),
    {
        if x >= self.width || y >= self.height {
            return Color(0, 0, 0, 0);
        }
        proof {
            lemma_pixel_index(self.width, self.height, x as int, y as int, x as int, y as int);
        }
        let idx = ((y * self.width + x) * 4) as usize;
        Color(self.data[idx], self.data[idx + 1], self.data[idx + 2], self.data[idx + 3])
    }

    /// Blends an alpha mask onto the image with the mask's top-left corner at
    /// pixel (ox, oy).
    ///
    /// `alpha_mask` is a row-major `u8` array (`mask_width × mask_height`
    /// values). Each byte is used as the alpha channel for `color`,
    /// composited over the existing pixel via standard over-blending. Mask
    /// elements that fall outside the image, and zero coverage, leave pixels
    /// untouched.
    pub fn blend_alpha_mask(
        &mut self,
        ox: i32,
        oy: i32,
        alpha_mask: &[u8],
        mask_width: u32,
        mask_height: u32,
        color: Color,
    )
        requires
            old(self).wf(),
            mask_covers_landing(
                alpha_mask@,
                mask_width,
                mask_height,
                old(self).width,
                old(self).height,
                ox as int,
                oy as int,
            ),
        ensures
            final(self).wf(),
            final(self).width == old(self).width,
            final(self).height == old(self).height,
            forall|x: int, y: int|
                in_bounds(old(self).width, old(self).height, x, y) ==> #[trigger] pixel_of(
                    final(self).data@,
                    old(self).width,
                    old(self).height,
                    x,
                    y,
                ) == composite(
                    pixel_of(old(self).data@, old(self).width, old(self).height, x, y),
                    mask_alpha_at(alpha_mask@, mask_width, mask_height, ox as int, oy as int, x, y),
                    color,
                ),
    {
        let ghost orig = self.data@;
        let _mask_len = alpha_mask.len();
        let width = self.width;
        let height = self.height;
        let src_r = color.0 as u32;
        let src_g = color.1 as u32;
        let src_b = color.2 as u32;
        let mut my: u32 = 0;
        while my < mask_height
            invariant
                self.wf(),
                self.width == width,
                self.height == height,
                orig.len() == self.data@.len(),
                my <= mask_height,
                src_r == color.0 as u32,
                src_g == color.1 as u32,
                src_b == color.2 as u32,
                mask_covers_landing(alpha_mask@, mask_width, mask_height, width, height, ox as int, oy as int),
                alpha_mask@.len() <= usize::MAX,
                blend_progress(
                    orig,
                    self.data@,
                    width,
                    height,
                    alpha_mask@,
                    mask_width,
                    mask_height,
                    ox as int,
                    oy as int,
                    color,
                    my as int,
                    0,
                ),
            decreases mask_height - my,
        {
            let py: i64 = oy as i64 + my as i64;
            if 0 <= py && py < height as i64 {
                let mut mx: u32 = 0;
                while mx < mask_width
                    invariant
                        self.wf(),
                        self.width == width,
                        self.height == height,
                        orig.len() == self.data@.len(),
                        my < mask_height,
                        mx <= mask_width,
                        py == oy + my,
                        0 <= py < height,
                        src_r == color.0 as u32,
                        src_g == color.1 as u32,
                        src_b == color.2 as u32,
                        mask_covers_landing(alpha_mask@, mask_width, mask_height, width, height, ox as int, oy as int),
                        alpha_mask@.len() <= usize::MAX,
                        blend_progress(
                            orig,
                            self.data@,
                            width,
                            height,
                            alpha_mask@,
                            mask_width,
                            mask_height,
                            ox as int,
                            oy as int,
                            color,
                            my as int,
                            mx as int,
                        ),
                    decreases mask_width - mx,
                {
                    let px: i64 = ox as i64 + mx as i64;
                    if 0 <= px && px < width as i64 {
                        proof {
                            assert(mask_lands(width, height, ox as int, oy as int, mx as int, my as int));
                            assert(0 <= my as int * mask_width as int) by (nonlinear_arith);
                            assert(my as int * mask_width as int + mx < alpha_mask@.len());
                            assert(alpha_mask@.len() <= usize::MAX);
                        }
                        let mask_idx = (my as u64 * mask_width as u64 + mx as u64) as usize;
                        let a_byte = alpha_mask[mask_idx];
                        let ghost before = self.data@;
                        proof {
                            assert(mask_alpha_at(alpha_mask@, mask_width, mask_height, ox as int, oy as int, px as int, py as int) == a_byte);
                        }
                        if a_byte != 0 {
                            self.blend_one(px as u32, py as u32, a_byte, color, src_r, src_g, src_b);
                        }
                        proof {
                            let c = composite(pixel_of(before, width, height, px as int, py as int), a_byte, color);
                            assert forall|x: int, y: int| in_bounds(width, height, x, y) implies
                                #[trigger] pixel_of(self.data@, width, height, x, y) == if sweep_done(
                                    x - ox, y - oy, my as int, mx + 1) {
                                    composite(pixel_of(orig, width, height, x, y),
                                        mask_alpha_at(alpha_mask@, mask_width, mask_height, ox as int, oy as int, x, y), color)
                                } else {
                                    pixel_of(orig, width, height, x, y)
                                } by {
                                lemma_get_after_set(before, width, height, px as int, py as int, c, x, y);
                                assert(pixel_of(before, width, height, x, y) == if sweep_done(
                                    x - ox, y - oy, my as int, mx as int) {
                                    composite(pixel_of(orig, width, height, x, y),
                                        mask_alpha_at(alpha_mask@, mask_width, mask_height, ox as int, oy as int, x, y), color)
                                } else {
                                    pixel_of(orig, width, height, x, y)
                                });
                            }
                        }
                    } else {
                        proof {
                            assert forall|x: int, y: int| in_bounds(width, height, x, y) implies
                                #[trigger] pixel_of(self.data@, width, height, x, y) == if sweep_done(
                                    x - ox, y - oy, my as int, mx + 1) {
                                    composite(pixel_of(orig, width, height, x, y),
                                        mask_alpha_at(alpha_mask@, mask_width, mask_height, ox as int, oy as int, x, y), color)
                                } else {
                                    pixel_of(orig, width, height, x, y)
                                } by {
                                assert(x != px || y != py);
                            }
                        }
                    }
                    mx = mx + 1;
                }
                proof {
                    assert forall|x: int, y: int| in_bounds(width, height, x, y) implies
                        #[trigger] pixel_of(self.data@, width, height, x, y) == if sweep_done(
                            x - ox, y - oy, my + 1, 0) {
                            composite(pixel_of(orig, width, height, x, y),
                                mask_alpha_at(alpha_mask@, mask_width, mask_height, ox as int, oy as int, x, y), color)
                        } else {
                            pixel_of(orig, width, height, x, y)
                        } by {
                        assert(sweep_done(x - ox, y - oy, my as int, mask_width as int) ==> true);
                    }
                }
            } else {
                proof {
                    assert forall|x: int, y: int| in_bounds(width, height, x, y) implies
                        #[trigger] pixel_of(self.data@, width, height, x, y) == if sweep_done(
                            x - ox, y - oy, my + 1, 0) {
                            composite(pixel_of(orig, width, height, x, y),
                                mask_alpha_at(alpha_mask@, mask_width, mask_height, ox as int, oy as int, x, y), color)
                        } else {
                            pixel_of(orig, width, height, x, y)
                        } by {
                        assert(y != py);
                    }
                }
            }
            my = my + 1;
        }
        proof {
            assert forall|x: int, y: int| in_bounds(width, height, x, y) implies #[trigger] pixel_of(
                self.data@, width, height, x, y) == composite(
                    pixel_of(orig, width, height, x, y),
                    mask_alpha_at(alpha_mask@, mask_width, mask_height, ox as int, oy as int, x, y),
                    color,
                ) by {
                assert(pixel_of(self.data@, width, height, x, y) == if sweep_done(x - ox, y - oy, mask_height as int, 0) {
                    composite(pixel_of(orig, width, height, x, y),
                        mask_alpha_at(alpha_mask@, mask_width, mask_height, ox as int, oy as int, x, y), color)
                } else {
                    pixel_of(orig, width, height, x, y)
                });
            }
        }
    }

    /// Composites `color` with coverage `a` over the in-bounds pixel (x, y).
    fn blend_one(&mut self, x: u32, y: u32, a_byte: u8, color: Color, src_r: u32, src_g: u32, src_b: u32)
        requires
            old(self).wf(),
            in_bounds(old(self).width, old(self).height, x as int, y as int),
            a_byte != 0,
            src_r == color.0 as u32,
            src_g == color.1 as u32,
            src_b == color.2 as u32,
        ensures
            final(self).wf(),
            final(self).width == old(self).width,
            final(self).height == old(self).height,
            final(self).data@ == with_pixel(
                old(self).data@,
                old(self).width,
                old(self).height,
                x as int,
                y as int,
                composite(
                    pixel_of(old(self).data@, old(self).width, old(self).height, x as int, y as int),
                    a_byte,
                    color,
                ),
            ),
    {
        proof {
            lemma_pixel_index(self.width, self.height, x as int, y as int, x as int, y as int);
        }
        let q = (y * self.width + x) as usize;
        let dst_idx = q * 4;
        let dst = Color(self.data[dst_idx], self.data[dst_idx + 1], self.data[dst_idx + 2], self.data[dst_idx + 3]);
        let a = a_byte as u32;
        let dst_r = dst.0 as u32;
        let dst_g = dst.1 as u32;
        let dst_b = dst.2 as u32;
        let dst_a = dst.3 as u32;
        proof {
            lemma_blend_bounds(dst, a_byte, color);
            lemma_product_bound(dst_a, a);
            lemma_product_bound(src_r, a);
            lemma_product_bound(src_g, a);
            lemma_product_bound(src_b, a);
            lemma_product_bound(dst_r, (255 - a) as u32);
            lemma_product_bound(dst_g, (255 - a) as u32);
            lemma_product_bound(dst_b, (255 - a) as u32);
        }
        // sRGB over: out = src * a/255 + dst * (1 - a/255)
        let out_a = dst_a + a - (dst_a * a) / 255;
        let out_r = (src_r * a + dst_r * (255 - a)) / 255;
        let out_g = (src_g * a + dst_g * (255 - a)) / 255;
        let out_b = (src_b * a + dst_b * (255 - a)) / 255;
        store_pixel(&mut self.data, q, Color(out_r as u8, out_g as u8, out_b as u8, out_a as u8));
    }

    /// Sets the pixel at the given coordinate to `color`.
    ///
    /// Does nothing if the coordinate is out of bounds.
    pub fn set_pixel(&mut self, x: u32, y: u32, color: Color)
        requires
            old(self).wf(),
        ensures
            final(self).wf(),
            final(self).width == old(self).width,
            final(self).height == old(self).height,
            final(self).data@ == with_pixel(
                old(self).data@,
                old(self).width,
                old(self).height,
                x as int,
                y as int,
                color,
            ),
    {
        if x >= self.width || y >= self.height {
            return;
        }
        proof {
            lemma_pixel_index(self.width, self.height, x as int, y as int, x as int, y as int);
        }
        let q = (y * self.width + x) as usize;
        store_pixel(&mut self.data, q, color);
    }
}

} // verus!
