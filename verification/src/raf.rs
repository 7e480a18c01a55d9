//! Fuji RAF files: the decoder state, the search for the compressed raw
//! data, the detection of empty borders in the decoded image and the
//! rotation of SuperCCD images.

use vstd::prelude::*;
use crate::basics::Endian;
use crate::fuji_compressed::{decode_fuji_compressed, spec_decode_fuji, spec_decode_message};
use crate::text::{push_dec, spec_dec};
use crate::tiff::{Tag, TiffIFD, spec_find_entry, spec_get_u32, spec_ifds_with};

verus! {

/// A RAF file being decoded: its bytes and its parsed directory tree.
pub struct RafDecoder<'a> {
    buffer: &'a [u8],
    tiff: TiffIFD<'a>,
}

impl<'a> RafDecoder<'a> {
    /// The bytes of the file.
    pub closed spec fn buffer(&self) -> Seq<u8> {
        self.buffer@
    }

    /// The directory tree of the file.
    pub closed spec fn tiff(&self) -> TiffIFD<'a> {
        self.tiff
    }

    /// A decoder for the file `buf` whose directory tree is `tiff`.
    pub fn new(buf: &'a [u8], tiff: TiffIFD<'a>) -> (r: RafDecoder<'a>)
        ensures
            r.buffer() == buf@,
            r.tiff() == tiff,
    {
        RafDecoder { buffer: buf, tiff: tiff }
    }
}

// ---------------------------------------------------------------------------
// Compressed data header search
// ---------------------------------------------------------------------------

/// Whether the four bytes at `i` open a Fuji compressed stream: the
/// signature 0x49 0x53, version 0 or 1, and raw type 0 or 16.
pub open spec fn is_compressed_header_at(s: Seq<u8>, i: int) -> bool {
    &&& s[i] == 0x49
    &&& s[i + 1] == 0x53
    &&& (s[i + 2] == 0 || s[i + 2] == 1)
    &&& (s[i + 3] == 0 || s[i + 3] == 16)
}

/// How far the header is searched for: the first 100000 positions, and none
/// of the last 16 bytes.
pub open spec fn header_search_limit(len: int) -> int {
    let l = if len >= 16 {
        len - 16
    } else {
        0
    };
    if l < 100000 {
        l
    } else {
        100000
    }
}

/// The first position where a Fuji compressed stream starts in the raw data
/// `src`, searched within `header_search_limit`.
pub fn find_fuji_compressed_header(src: &[u8]) -> (r: Option<usize>)
    ensures
        match r {
            Some(i) => i < header_search_limit(src@.len() as int) && is_compressed_header_at(
                src@,
                i as int,
            ) && forall|j: int| 0 <= j < i ==> !is_compressed_header_at(src@, j),
            None => forall|j: int|
                0 <= j < header_search_limit(src@.len() as int) ==> !is_compressed_header_at(
                    src@,
                    j,
                ),
        },
{
    let l = if src.len() >= 16 { src.len() - 16 } else { 0 };
    let limit = if l < 100000 { l } else { 100000 };
    let mut i: usize = 0;
    while i < limit
        invariant
            limit == header_search_limit(src@.len() as int),
            limit + 16 <= src@.len() || limit == 0,
            i <= limit,
            forall|j: int| 0 <= j < i ==> !is_compressed_header_at(src@, j),
        decreases limit - i,
    {
        if src[i] == 0x49 && src[i + 1] == 0x53 && (src[i + 2] == 0 || src[i + 2] == 1) && (src[i
            + 3] == 0 || src[i + 3] == 16) {
            return Some(i);
        }
        i = i + 1;
    }
    None
}

/// A position opens a compressed stream exactly when its four bytes are the
/// signature 0x49 0x53, a version of 0 or 1 and a raw type of 0 or 16,
/// wherever it lies: two positions holding the same four bytes are both
/// headers or neither.
pub proof fn lemma_header_by_bytes(s: Seq<u8>, i: int, t: Seq<u8>, j: int)
    requires
        0 <= i,
        i + 4 <= s.len(),
        0 <= j,
        j + 4 <= t.len(),
    ensures
        is_compressed_header_at(s, i) <==> (s[i] == 0x49 && s[i + 1] == 0x53 && (s[i + 2] == 0
            || s[i + 2] == 1) && (s[i + 3] == 0 || s[i + 3] == 16)),
        (s[i] == t[j] && s[i + 1] == t[j + 1] && s[i + 2] == t[j + 2] && s[i + 3] == t[j + 3])
            ==> (is_compressed_header_at(s, i) <==> is_compressed_header_at(t, j)),
{
}

/// The search covers positions 0 up to 16 bytes before the end, at most
/// 100000 of them; so data longer than 16 bytes that opens with a header
/// gives position 0.
pub proof fn lemma_header_at_start(s: Seq<u8>)
    ensures
        header_search_limit(s.len() as int) == if s.len() <= 16 {
            0
        } else if s.len() - 16 < 100000 {
            s.len() - 16
        } else {
            100000
        },
        s.len() > 16 && s[0] == 0x49 && s[1] == 0x53 && (s[2] == 0 || s[2] == 1) && (s[3] == 0
            || s[3] == 16) ==> spec_first_header(s, 0),
{
}

// ---------------------------------------------------------------------------
// Zero borders of decoded compressed images
// ---------------------------------------------------------------------------

/// Whether row `y` of a `w`-wide image is all zero.
pub open spec fn zero_row(img: Seq<u16>, w: int, y: int) -> bool {
    forall|x: int| 0 <= x < w ==> #[trigger] img[y * w + x] == 0
}

/// Whether column `x` is zero in every sixth row (rows 0, 6, 12, ...).
pub open spec fn zero_col(img: Seq<u16>, w: int, h: int, x: int) -> bool {
    forall|y: int| 0 <= y < h && y % 6 == 0 ==> #[trigger] img[y * w + x] == 0
}

/// The end of the run of zero rows from `y` on, stopping at `lim`.
pub open spec fn top_from(img: Seq<u16>, w: int, lim: int, y: int) -> int
    decreases lim - y,
{
    if y < lim && zero_row(img, w, y) {
        top_from(img, w, lim, y + 1)
    } else {
        y
    }
}

/// The number of rows from the run of zero rows ending just above `y`,
/// going up no further than `lo`, to the bottom `h`.
pub open spec fn bottom_from(img: Seq<u16>, w: int, h: int, lo: int, y: int) -> int
    decreases y - lo,
{
    if y > lo && zero_row(img, w, y - 1) {
        bottom_from(img, w, h, lo, y - 1)
    } else {
        h - y
    }
}

/// The end of the run of zero columns from `x` on, stopping at `lim`.
pub open spec fn left_from(img: Seq<u16>, w: int, h: int, lim: int, x: int) -> int
    decreases lim - x,
{
    if x < lim && zero_col(img, w, h, x) {
        left_from(img, w, h, lim, x + 1)
    } else {
        x
    }
}

/// The number of columns from the run of zero columns ending just left of
/// `x`, going left no further than `lo`, to the right edge `w`.
pub open spec fn right_from(img: Seq<u16>, w: int, h: int, lo: int, x: int) -> int
    decreases x - lo,
{
    if x > lo && zero_col(img, w, h, x - 1) {
        right_from(img, w, h, lo, x - 1)
    } else {
        w - x
    }
}

/// `a - b`, or 0 where that is negative.
pub open spec fn sat_sub(a: int, b: int) -> int {
    if a >= b {
        a - b
    } else {
        0
    }
}

/// The smaller of `a` and `b`.
pub open spec fn min_int(a: int, b: int) -> int {
    if a <= b {
        a
    } else {
        b
    }
}

/// The crops `[top, right, bottom, left]` that skip the all-zero borders of
/// a decoded compressed image: zero rows among the first and last 24,
/// zero columns (checked on every sixth row) among the first and last 256.
pub open spec fn spec_zero_borders(img: Seq<u16>, w: int, h: int) -> Seq<int> {
    seq![
        top_from(img, w, min_int(h, 24), 0),
        right_from(img, w, h, sat_sub(w, 256), w),
        bottom_from(img, w, h, sat_sub(h, 24), h),
        left_from(img, w, h, min_int(w, 256), 0),
    ]
}

proof fn lemma_top_from(img: Seq<u16>, w: int, lim: int, y: int)
    requires
        0 <= y <= lim,
    ensures
        y <= top_from(img, w, lim, y) <= lim,
        forall|r: int| y <= r < top_from(img, w, lim, y) ==> #[trigger] zero_row(img, w, r),
        top_from(img, w, lim, y) < lim ==> !zero_row(img, w, top_from(img, w, lim, y)),
    decreases lim - y,
{
    if y < lim && zero_row(img, w, y) {
        lemma_top_from(img, w, lim, y + 1);
    }
}

proof fn lemma_bottom_from(img: Seq<u16>, w: int, h: int, lo: int, y: int)
    requires
        lo <= y <= h,
    ensures
        h - y <= bottom_from(img, w, h, lo, y) <= h - lo,
        forall|r: int| h - bottom_from(img, w, h, lo, y) <= r < y ==> #[trigger] zero_row(img, w, r),
        bottom_from(img, w, h, lo, y) < h - lo ==> !zero_row(
            img,
            w,
            h - bottom_from(img, w, h, lo, y) - 1,
        ),
    decreases y - lo,
{
    if y > lo && zero_row(img, w, y - 1) {
        lemma_bottom_from(img, w, h, lo, y - 1);
    }
}

proof fn lemma_left_from(img: Seq<u16>, w: int, h: int, lim: int, x: int)
    requires
        0 <= x <= lim,
    ensures
        x <= left_from(img, w, h, lim, x) <= lim,
        forall|c: int| x <= c < left_from(img, w, h, lim, x) ==> #[trigger] zero_col(img, w, h, c),
        left_from(img, w, h, lim, x) < lim ==> !zero_col(img, w, h, left_from(img, w, h, lim, x)),
    decreases lim - x,
{
    if x < lim && zero_col(img, w, h, x) {
        lemma_left_from(img, w, h, lim, x + 1);
    }
}

proof fn lemma_right_from(img: Seq<u16>, w: int, h: int, lo: int, x: int)
    requires
        lo <= x <= w,
    ensures
        w - x <= right_from(img, w, h, lo, x) <= w - lo,
        forall|c: int| w - right_from(img, w, h, lo, x) <= c < x ==> #[trigger] zero_col(img, w, h, c),
        right_from(img, w, h, lo, x) < w - lo ==> !zero_col(
            img,
            w,
            h,
            w - right_from(img, w, h, lo, x) - 1,
        ),
    decreases x - lo,
{
    if x > lo && zero_col(img, w, h, x - 1) {
        lemma_right_from(img, w, h, lo, x - 1);
    }
}

/// The crops `[top, right, bottom, left]` of a `w` x `h` image are the
/// longest runs of all-zero borders, each at most 24 rows or 256 columns:
/// every pixel of the top `top` rows and of the bottom `bottom` rows is 0,
/// and where a run stops short of its limit, the next row in has a
/// nonzero pixel; every sixth row (0, 6, 12, ...) is 0 in the right
/// `right` and left `left` columns, and where such a run stops short, the
/// next column in has a nonzero pixel in one of those rows.
pub proof fn lemma_zero_borders(img: Seq<u16>, w: int, h: int)
    requires
        0 <= w,
        0 <= h,
    ensures
        ({
            let c = spec_zero_borders(img, w, h);
            let (top, right, bottom, left) = (c[0], c[1], c[2], c[3]);
            let hl = if h < 24 { h } else { 24int };
            let wl = if w < 256 { w } else { 256int };
            &&& c.len() == 4
            &&& 0 <= top <= hl && 0 <= bottom <= hl && 0 <= right <= wl && 0 <= left <= wl
            &&& forall|y: int, x: int| 0 <= y < top && 0 <= x < w ==> #[trigger] img[y * w + x] == 0
            &&& top < hl ==> exists|x: int| 0 <= x < w && #[trigger] img[top * w + x] != 0
            &&& forall|y: int, x: int|
                h - bottom <= y < h && 0 <= x < w ==> #[trigger] img[y * w + x] == 0
            &&& bottom < hl ==> exists|x: int|
                0 <= x < w && #[trigger] img[(h - bottom - 1) * w + x] != 0
            &&& forall|y: int, x: int|
                0 <= y < h && y % 6 == 0 && 0 <= x < left ==> #[trigger] img[y * w + x] == 0
            &&& left < wl ==> exists|y: int|
                0 <= y < h && y % 6 == 0 && #[trigger] img[y * w + left] != 0
            &&& forall|y: int, x: int|
                0 <= y < h && y % 6 == 0 && w - right <= x < w ==> #[trigger] img[y * w + x] == 0
            &&& right < wl ==> exists|y: int|
                0 <= y < h && y % 6 == 0 && #[trigger] img[y * w + (w - right - 1)] != 0
        }),
{
    let hl = if h < 24 { h } else { 24int };
    let wl = if w < 256 { w } else { 256int };
    lemma_top_from(img, w, min_int(h, 24), 0);
    lemma_bottom_from(img, w, h, sat_sub(h, 24), h);
    lemma_left_from(img, w, h, min_int(w, 256), 0);
    lemma_right_from(img, w, h, sat_sub(w, 256), w);
    let c = spec_zero_borders(img, w, h);
    assert forall|y: int, x: int| 0 <= y < c[0] && 0 <= x < w implies #[trigger] img[y * w + x] == 0 by {
        assert(zero_row(img, w, y));
    }
    assert forall|y: int, x: int| h - c[2] <= y < h && 0 <= x < w implies #[trigger] img[y * w + x] == 0 by {
        assert(zero_row(img, w, y));
    }
    assert forall|y: int, x: int|
        0 <= y < h && y % 6 == 0 && 0 <= x < c[3] implies #[trigger] img[y * w + x] == 0 by {
        assert(zero_col(img, w, h, x));
    }
    assert forall|y: int, x: int|
        0 <= y < h && y % 6 == 0 && w - c[1] <= x < w implies #[trigger] img[y * w + x] == 0 by {
        assert(zero_col(img, w, h, x));
    }
}

proof fn lemma_pixel_in(y: int, x: int, w: int, h: int)
    requires
        0 <= y < h,
        0 <= x < w,
    ensures
        0 <= y * w + x < w * h,
{
    assert(0 <= y * w + x < w * h) by (nonlinear_arith)
        requires
            0 <= y < h,
            0 <= x < w,
    ;
}

/// Whether row `y` of the image is all zero.
fn is_zero_row(image: &[u16], width: usize, height: usize, y: usize) -> (r: bool)
    requires
        image.len() >= width * height,
        y < height,
    ensures
        r == zero_row(image@, width as int, y as int),
{
    let mut x: usize = 0;
    while x < width
        invariant
            image.len() >= width * height,
            y < height,
            x <= width,
            forall|q: int| 0 <= q < x ==> #[trigger] image@[y * width + q] == 0,
        decreases width - x,
    {
        proof {
            lemma_pixel_in(y as int, x as int, width as int, height as int);
        }
        if image[y * width + x] != 0 {
            return false;
        }
        x = x + 1;
    }
    true
}

/// Whether column `x` is zero in every sixth row.
fn is_zero_col(image: &[u16], width: usize, height: usize, x: usize) -> (r: bool)
    requires
        image.len() >= width * height,
        x < width,
    ensures
        r == zero_col(image@, width as int, height as int, x as int),
{
    let mut y: usize = 0;
    while y < height
        invariant
            image.len() >= width * height,
            x < width,
            y <= height,
            y % 6 == 0 || y == height,
            forall|q: int| 0 <= q < y && q % 6 == 0 ==> #[trigger] image@[q * width + x] == 0,
        decreases height - y,
    {
        proof {
            lemma_pixel_in(y as int, x as int, width as int, height as int);
        }
        if image[y * width + x] != 0 {
            return false;
        }
        if height - y <= 6 {
            y = height;
        } else {
            y = y + 6;
        }
    }
    true
}

/// The crops `[top, right, bottom, left]` that skip the all-zero borders of
/// a decoded `width` x `height` compressed image (the decompressor fills the
/// optical black margins with zeros).
pub fn detect_zero_borders(image: &[u16], width: usize, height: usize) -> (r: [usize; 4])
    requires
        image.len() >= width * height,
    ensures
        r@.len() == 4,
        r@[0] as int == spec_zero_borders(image@, width as int, height as int)[0],
        r@[1] as int == spec_zero_borders(image@, width as int, height as int)[1],
        r@[2] as int == spec_zero_borders(image@, width as int, height as int)[2],
        r@[3] as int == spec_zero_borders(image@, width as int, height as int)[3],
{
    let ghost img = image@;
    let ghost w = width as int;
    let ghost h = height as int;

    let top_lim = if height < 24 { height } else { 24 };
    let mut top_skip: usize = 0;
    while top_skip < top_lim && is_zero_row(image, width, height, top_skip)
        invariant
            image.len() >= width * height,
            img == image@,
            w == width,
            h == height,
            top_lim <= height,
            top_skip <= top_lim,
            top_from(img, w, top_lim as int, 0) == top_from(img, w, top_lim as int, top_skip as int),
        decreases top_lim - top_skip,
    {
        top_skip = top_skip + 1;
    }

    let bot_lo = if height >= 24 { height - 24 } else { 0 };
    let mut y = height;
    while y > bot_lo && is_zero_row(image, width, height, y - 1)
        invariant
            image.len() >= width * height,
            img == image@,
            w == width,
            h == height,
            bot_lo <= y <= height,
            bottom_from(img, w, h, bot_lo as int, h) == bottom_from(img, w, h, bot_lo as int, y as int),
        decreases y - bot_lo,
    {
        y = y - 1;
    }
    let bot_skip = height - y;

    let right_lo = if width >= 256 { width - 256 } else { 0 };
    let mut x = width;
    while x > right_lo && is_zero_col(image, width, height, x - 1)
        invariant
            image.len() >= width * height,
            img == image@,
            w == width,
            h == height,
            right_lo <= x <= width,
            right_from(img, w, h, right_lo as int, w) == right_from(img, w, h, right_lo as int, x as int),
        decreases x - right_lo,
    {
        x = x - 1;
    }
    let right_skip = width - x;

    let left_lim = if width < 256 { width } else { 256 };
    let mut left_skip: usize = 0;
    while left_skip < left_lim && is_zero_col(image, width, height, left_skip)
        invariant
            image.len() >= width * height,
            img == image@,
            w == width,
            h == height,
            left_lim <= width,
            left_skip <= left_lim,
            left_from(img, w, h, left_lim as int, 0) == left_from(img, w, h, left_lim as int, left_skip as int),
        decreases left_lim - left_skip,
    {
        left_skip = left_skip + 1;
    }

    [top_skip, right_skip, bot_skip, left_skip]
}

// ---------------------------------------------------------------------------
// SuperCCD rotation
// ---------------------------------------------------------------------------

/// Width of the rotated image of a `cw` x `ch` crop (its height is one less).
pub open spec fn rot_width(cw: int, ch: int, alt: bool) -> int {
    if alt {
        ch + cw / 2
    } else {
        cw + ch / 2
    }
}

/// Where pixel `r`, `c` of the crop goes in the rotated image (row, column):
/// the crop is turned 45 degrees, each source row or column pair becoming
/// one diagonal step.
pub open spec fn rot_target(cw: int, ch: int, alt: bool, r: int, c: int) -> (int, int) {
    if alt {
        (rot_width(cw, ch, alt) - (ch + 1 - r + c / 2), (c + 1) / 2 + r)
    } else {
        (cw - 1 - c + r / 2, (r + 1) / 2 + c)
    }
}

/// The crop pixel that lands at row `rr`, column `cc` of the rotated image,
/// if any.
pub open spec fn rot_source(cw: int, ch: int, alt: bool, rr: int, cc: int) -> Option<(int, int)> {
    let (r, c) = if alt {
        let c = cc - rr + rot_width(cw, ch, alt) - ch - 1;
        (cc - (c + 1) / 2, c)
    } else {
        let r = rr + cc - cw + 1;
        (r, cc - (r + 1) / 2)
    };
    if 0 <= r < ch && 0 <= c < cw && rot_target(cw, ch, alt, r, c) == (rr, cc) {
        Some((r, c))
    } else {
        None
    }
}

/// Every crop pixel is found again from where it lands: the rotation moves
/// no two pixels to the same place.
pub proof fn lemma_rot_source_inverts(cw: int, ch: int, alt: bool, r: int, c: int)
    requires
        0 <= r < ch,
        0 <= c < cw,
    ensures
        rot_source(cw, ch, alt, rot_target(cw, ch, alt, r, c).0, rot_target(cw, ch, alt, r, c).1)
            == Some((r, c)),
{
}

/// Whether every crop pixel lands inside the rotated image: for the plain
/// rotation an even crop height, for the alternative one an even crop width.
pub open spec fn rot_fits(cw: int, ch: int, alt: bool) -> bool {
    cw == 0 || ch == 0 || if alt {
        cw % 2 == 0
    } else {
        ch % 2 == 0
    }
}

/// Every crop pixel lands inside the rotated image, where the crop has the
/// parity `rot_fits` asks for.
pub proof fn lemma_rot_target_range(cw: int, ch: int, alt: bool, r: int, c: int)
    requires
        0 <= r < ch,
        0 <= c < cw,
        rot_fits(cw, ch, alt),
    ensures
        0 <= rot_target(cw, ch, alt, r, c).0 < rot_width(cw, ch, alt) - 1,
        0 <= rot_target(cw, ch, alt, r, c).1 < rot_width(cw, ch, alt),
{
}

proof fn lemma_cell_index(rr: int, cc: int, w: int, h: int)
    requires
        0 <= rr < h,
        0 <= cc < w,
    ensures
        0 <= rr * w + cc < w * h,
        (rr * w + cc) / w == rr,
        (rr * w + cc) % w == cc,
{
    assert(0 <= rr * w + cc < w * h) by (nonlinear_arith)
        requires
            0 <= rr < h,
            0 <= cc < w,
    ;
    vstd::arithmetic::div_mod::lemma_fundamental_div_mod_converse(rr * w + cc, w, rr, cc);
}

/// The rotated image of a SuperCCD crop: the `width` x `height` image `src`
/// cropped by `crops` (top, right, bottom, left) and turned 45 degrees as
/// `rot_target` says; places no pixel lands on are 0. Returns the width,
/// height and pixels of the result; with `dummy` set only the size.
pub fn rotate_image(src: &[u16], crops: [usize; 4], alt: bool, width: usize, height: usize, dummy: bool) -> (r: (usize, usize, Vec<u16>))
    requires
        crops@[1] + crops@[3] <= width,
        crops@[0] + crops@[2] <= height,
        rot_width(
            width - crops@[1] - crops@[3],
            height - crops@[0] - crops@[2],
            alt,
        ) >= 1,
        rot_width(width - crops@[1] - crops@[3], height - crops@[0] - crops@[2], alt) <= usize::MAX,
        !dummy ==> rot_width(width - crops@[1] - crops@[3], height - crops@[0] - crops@[2], alt)
            * (rot_width(width - crops@[1] - crops@[3], height - crops@[0] - crops@[2], alt) - 1)
            <= usize::MAX,
        !dummy ==> rot_fits(width - crops@[1] - crops@[3], height - crops@[0] - crops@[2], alt),
        !dummy ==> src.len() >= width * height,
    ensures
        ({
            let x = crops@[3] as int;
            let y = crops@[0] as int;
            let cw = width - crops@[1] - crops@[3];
            let ch = height - crops@[0] - crops@[2];
            let rw = rot_width(cw, ch, alt);
            &&& r.0 == rw
            &&& r.1 == rw - 1
            &&& dummy ==> r.2@ == seq![0u16]
            &&& !dummy ==> r.2@.len() == rw * (rw - 1)
            &&& !dummy ==> forall|rr: int, cc: int|
                0 <= rr < rw - 1 && 0 <= cc < rw ==> #[trigger] r.2@[rr * rw + cc] == match rot_source(
                    cw,
                    ch,
                    alt,
                    rr,
                    cc,
                ) {
                    Some((sr, sc)) => src@[(sr + y) * width + x + sc],
                    None => 0,
                }
        }),
{
    let x = crops[3];
    let y = crops[0];
    let cropwidth = width - crops[1] - x;
    let cropheight = height - crops[2] - y;
    let ghost cw = cropwidth as int;
    let ghost ch = cropheight as int;

    let rotatedwidth = if alt { cropheight + cropwidth / 2 } else { cropwidth + cropheight / 2 };
    let rotatedheight = rotatedwidth - 1;
    let ghost rw = rotatedwidth as int;
    let ghost rh = rotatedheight as int;

    if dummy {
        let mut out: Vec<u16> = Vec::new();
        out.push(0);
        assert(out@ =~= seq![0u16]);
        return (rotatedwidth, rotatedheight, out);
    }
    let mut out: Vec<u16> = Vec::new();
    let n = rotatedwidth * rotatedheight;
    let mut k: usize = 0;
    while k < n
        invariant
            k <= n,
            out@.len() == k,
            forall|j: int| 0 <= j < k ==> out@[j] == 0,
        decreases n - k,
    {
        out.push(0);
        k = k + 1;
    }

    proof {
        assert forall|rr: int, cc: int| 0 <= rr < rh && 0 <= cc < rw implies #[trigger] out@[rr * rw
            + cc] == 0 by {
            lemma_cell_index(rr, cc, rw, rh);
        }
    }
    let mut row: usize = 0;
    while row < cropheight
        invariant
            x == crops@[3],
            y == crops@[0],
            cw == cropwidth,
            ch == cropheight,
            cropwidth == width - crops@[1] - crops@[3],
            cropheight == height - crops@[0] - crops@[2],
            rw == rotatedwidth,
            rh == rotatedheight,
            rotatedwidth == rot_width(cw, ch, alt),
            rotatedheight == rotatedwidth - 1,
            rot_fits(cw, ch, alt),
            src.len() >= width * height,
            out.len() == rw * rh,
            row <= cropheight,
            forall|rr: int, cc: int|
                0 <= rr < rh && 0 <= cc < rw ==> #[trigger] out@[rr * rw + cc] == match rot_source(
                    cw,
                    ch,
                    alt,
                    rr,
                    cc,
                ) {
                    Some((sr, sc)) => if sr < row {
                        src@[(sr + y) * width + x + sc]
                    } else {
                        0
                    },
                    None => 0,
                },
        decreases cropheight - row,
    {
        assert((row + y) * width + x + cropwidth <= width * height) by (nonlinear_arith)
            requires
                row < cropheight,
                cropheight == height - crops@[0] - crops@[2],
                cropwidth == width - crops@[1] - crops@[3],
                x == crops@[3],
                y == crops@[0],
        ;
        let inb = (row + y) * width + x;
        let mut col: usize = 0;
        while col < cropwidth
            invariant
                x == crops@[3],
                y == crops@[0],
                cw == cropwidth,
                ch == cropheight,
                rw == rotatedwidth,
                rh == rotatedheight,
                rotatedwidth == rot_width(cw, ch, alt),
                rotatedheight == rotatedwidth - 1,
                rot_fits(cw, ch, alt),
                src.len() >= width * height,
                inb == (row + y) * width + x,
                inb + cropwidth <= width * height,
                out.len() == rw * rh,
                row < cropheight,
                col <= cropwidth,
                forall|rr: int, cc: int|
                    0 <= rr < rh && 0 <= cc < rw ==> #[trigger] out@[rr * rw + cc] == match rot_source(
                        cw,
                        ch,
                        alt,
                        rr,
                        cc,
                    ) {
                        Some((sr, sc)) => if sr < row || (sr == row && sc < col) {
                            src@[(sr + y) * width + x + sc]
                        } else {
                            0
                        },
                        None => 0,
                    },
            decreases cropwidth - col,
        {
            proof {
                lemma_rot_target_range(cw, ch, alt, row as int, col as int);
            }
            let c1: usize = col + 1;
            let r1: usize = row + 1;
            proof {
                assert(col >> 1 == col / 2) by (bit_vector);
                assert(c1 >> 1 == c1 / 2) by (bit_vector);
                assert(row >> 1 == row / 2) by (bit_vector);
                assert(r1 >> 1 == r1 / 2) by (bit_vector);
            }
            let (out_row, out_col) = if alt {
                (rotatedwidth - (cropheight + 1 - row + (col >> 1)), (c1 >> 1) + row)
            } else {
                (cropwidth - 1 - col + (row >> 1), (r1 >> 1) + col)
            };
            proof {
                assert((out_row as int, out_col as int) == rot_target(cw, ch, alt, row as int, col as int));
                lemma_rot_source_inverts(cw, ch, alt, row as int, col as int);
                lemma_cell_index(out_row as int, out_col as int, rw, rh);
            }
            let ghost prev = out@;
            let v = src[inb + col];
            out.set(out_row * rotatedwidth + out_col, v);
            proof {
                assert forall|rr: int, cc: int|
                    0 <= rr < rh && 0 <= cc < rw implies #[trigger] out@[rr * rw + cc] == match rot_source(
                        cw,
                        ch,
                        alt,
                        rr,
                        cc,
                    ) {
                        Some((sr, sc)) => if sr < row || (sr == row && sc < col + 1) {
                            src@[(sr + y) * width + x + sc]
                        } else {
                            0
                        },
                        None => 0,
                    } by {
                    lemma_cell_index(rr, cc, rw, rh);
                    if rr != out_row || cc != out_col {
                        assert(rr * rw + cc != out_row * rw + out_col);
                        assert(out@[rr * rw + cc] == prev[rr * rw + cc]);
                        if let Some((sr, sc)) = rot_source(cw, ch, alt, rr, cc) {
                            assert(rot_target(cw, ch, alt, sr, sc) == (rr, cc));
                        }
                    }
                }
            }
            col = col + 1;
        }
        row = row + 1;
    }
    proof {
        assert forall|rr: int, cc: int|
            0 <= rr < rw - 1 && 0 <= cc < rw implies #[trigger] out@[rr * rw + cc] == match rot_source(
                cw,
                ch,
                alt,
                rr,
                cc,
            ) {
                Some((sr, sc)) => src@[(sr + y) * width + x + sc],
                None => 0,
            } by {
            if let Some((sr, sc)) = rot_source(cw, ch, alt, rr, cc) {
                assert(sr < ch);
            }
        }
    }
    (rotatedwidth, rotatedheight, out)
}


// ---------------------------------------------------------------------------
// Raw data layout and format
// ---------------------------------------------------------------------------

/// Where the raw data of a RAF file lies and how it is laid out.
pub struct RafLayout {
    pub width: usize,
    pub height: usize,
    pub offset: usize,
    pub bps: usize,
}

/// How the raw data of a RAF file is stored, which decides its decoder.
#[derive(Clone, Copy, Debug, PartialEq, Eq, Structural)]
pub enum RafFormat {
    /// 16-bit little-endian samples with every other line skipped (files
    /// holding a second, darker copy of the image beside the first).
    SkipLines16,
    /// 12-bit big-endian samples packed in 32-bit words.
    Packed12Msb32,
    /// Fuji compressed data.
    Compressed,
    /// 12-bit little-endian packed samples.
    Packed12,
    /// 14-bit little-endian samples, one per 16 bits.
    Unpacked14,
    /// 16-bit little-endian samples.
    Little16,
    /// 16-bit big-endian samples.
    Big16,
}

/// The width and height that directory `raw` gives: its RafImageWidth and
/// RafImageLength entries where it has the first, else the second and the
/// first value of its ImageWidth entry.
pub open spec fn spec_raw_size(raw: TiffIFD) -> Option<(int, int)> {
    match spec_find_entry(raw, 0xF001) {
        Some(w) => match spec_find_entry(raw, 0xF002) {
            Some(l) => Some((spec_get_u32(w, 0) as int, spec_get_u32(l, 0) as int)),
            None => None,
        },
        None => match spec_find_entry(raw, 0x0100) {
            Some(s) => Some((spec_get_u32(s, 1) as int, spec_get_u32(s, 0) as int)),
            None => None,
        },
    }
}

/// The layout of the raw data of a file whose directory tree is `tiff`:
/// read from the first directory holding a RafOffsets entry, the size as
/// `spec_raw_size` says, the offset of the data (the first RafOffsets
/// value plus the start of that directory's TIFF structure) and the bits
/// per sample (RafBitsPerSample, else 16).
pub open spec fn spec_raf_layout(tiff: TiffIFD) -> Option<(int, int, int, int)> {
    let ifds = spec_ifds_with(tiff, 0xF007);
    if ifds.len() == 0 {
        None
    } else {
        let raw = ifds[0];
        match spec_raw_size(raw) {
            None => None,
            Some((w, h)) => match spec_find_entry(raw, 0xF007) {
                None => None,
                Some(o) => Some(
                    (
                        w,
                        h,
                        spec_get_u32(o, 0) + raw.start(),
                        match spec_find_entry(raw, 0xF003) {
                            Some(b) => spec_get_u32(b, 0) as int,
                            None => 16,
                        },
                    ),
                ),
            },
        }
    }
}

/// The message of the error that reading the layout ends with: the
/// directory or tag that is missing.
pub open spec fn spec_layout_message(tiff: TiffIFD) -> Seq<char> {
    let ifds = spec_ifds_with(tiff, 0xF007);
    if ifds.len() == 0 {
        "Couldn't find ifd with tag RafOffsets"@
    } else {
        let raw = ifds[0];
        if spec_find_entry(raw, 0xF001) is Some && spec_find_entry(raw, 0xF002) is None {
            "Couldn't find tag RafImageLength"@
        } else if spec_find_entry(raw, 0xF001) is None && spec_find_entry(raw, 0x0100) is None {
            "Couldn't find tag ImageWidth"@
        } else {
            "Couldn't find tag RafOffsets"@
        }
    }
}

/// Whether `len` bytes of raw data are too few for uncompressed samples of
/// layout `l`, and so must be compressed.
pub open spec fn spec_is_compressed(len: int, l: RafLayout) -> bool {
    len < (l.bps * l.width * l.height) / 8
}

/// How the raw data of layout `l` is stored in a file of `len` bytes whose
/// TIFF structure has byte order `e`, given the camera's "double_width" and
/// "jpeg32" hints; `None` for an unknown sample size.
pub open spec fn spec_raf_format(len: int, l: RafLayout, e: Endian, double_width: bool, jpeg32: bool) -> Option<
    RafFormat,
> {
    if double_width {
        Some(RafFormat::SkipLines16)
    } else if jpeg32 {
        Some(RafFormat::Packed12Msb32)
    } else if spec_is_compressed(len - l.offset, l) {
        Some(RafFormat::Compressed)
    } else if l.bps == 12 {
        Some(RafFormat::Packed12)
    } else if l.bps == 14 {
        Some(RafFormat::Unpacked14)
    } else if l.bps == 16 {
        Some(
            if e == Endian::Little {
                RafFormat::Little16
            } else {
                RafFormat::Big16
            },
        )
    } else {
        None
    }
}

/// The layout comes from the first directory holding RafOffsets: where that
/// directory has RafImageWidth, the width is its first value and the
/// height the first value of RafImageLength; otherwise the width is the
/// second and the height the first value of ImageWidth. The offset is the
/// first RafOffsets value plus the start of that directory's TIFF
/// structure, and the bits per sample the first RafBitsPerSample value,
/// else 16.
pub proof fn lemma_raf_layout_fields(tiff: TiffIFD)
    requires
        spec_raf_layout(tiff) is Some,
    ensures
        spec_ifds_with(tiff, 0xF007).len() > 0,
        ({
            let (w, h, o, b) = spec_raf_layout(tiff).unwrap();
            let raw = spec_ifds_with(tiff, 0xF007)[0];
            &&& spec_find_entry(raw, 0xF001) matches Some(we) ==> (spec_find_entry(raw, 0xF002) matches Some(
                le,
            ) && w == spec_get_u32(we, 0) && h == spec_get_u32(le, 0))
            &&& spec_find_entry(raw, 0xF001) is None ==> (spec_find_entry(raw, 0x0100) matches Some(
                s,
            ) && w == spec_get_u32(s, 1) && h == spec_get_u32(s, 0))
            &&& spec_find_entry(raw, 0xF007) matches Some(oe) && o == spec_get_u32(oe, 0) + raw.start()
            &&& b == match spec_find_entry(raw, 0xF003) {
                Some(be) => spec_get_u32(be, 0) as int,
                None => 16int,
            }
        }),
{
}

/// How raw data is stored: the "double_width" hint means 16-bit lines
/// with every other one skipped, else the "jpeg32" hint means 12-bit
/// samples in big-endian words; otherwise data shorter than
/// `bps * width * height / 8` bytes is compressed, and uncompressed data
/// is packed 12-bit, 14-bit or 16-bit by its bits per sample, the 16-bit
/// samples little-endian exactly when the file's byte order is, any other
/// sample size unknown.
pub proof fn lemma_raf_format_rules(len: int, l: RafLayout, e: Endian, double_width: bool, jpeg32: bool)
    ensures
        ({
            let f = spec_raf_format(len, l, e, double_width, jpeg32);
            let short = len - l.offset < (l.bps * l.width * l.height) / 8;
            &&& double_width ==> f == Some(RafFormat::SkipLines16)
            &&& !double_width && jpeg32 ==> f == Some(RafFormat::Packed12Msb32)
            &&& !double_width && !jpeg32 ==> (f == Some(RafFormat::Compressed) <==> short)
            &&& !double_width && !jpeg32 && !short ==> {
                &&& l.bps == 12 <==> f == Some(RafFormat::Packed12)
                &&& l.bps == 14 <==> f == Some(RafFormat::Unpacked14)
                &&& (l.bps == 16 && e == Endian::Little) <==> f == Some(RafFormat::Little16)
                &&& (l.bps == 16 && e == Endian::Big) <==> f == Some(RafFormat::Big16)
                &&& (l.bps != 12 && l.bps != 14 && l.bps != 16) <==> f is None
            }
        }),
{
}

/// The byte order decides only between the two 16-bit formats: files that
/// differ only in byte order get the same format, except that uncompressed
/// 16-bit data is read little-endian from one and big-endian from the other.
pub proof fn lemma_raf_format_byte_order(len: int, l: RafLayout, double_width: bool, jpeg32: bool)
    ensures
        ({
            let fl = spec_raf_format(len, l, Endian::Little, double_width, jpeg32);
            let fb = spec_raf_format(len, l, Endian::Big, double_width, jpeg32);
            &&& fl == Some(RafFormat::Little16) <==> fb == Some(RafFormat::Big16)
            &&& fl != Some(RafFormat::Little16) ==> fl == fb
            &&& fl != fb ==> fl == Some(RafFormat::Little16) && fb == Some(RafFormat::Big16)
        }),
{
}

/// Whether the Fuji compressed stream in `src` starts at `i`: the first
/// place the search finds.
pub open spec fn spec_first_header(src: Seq<u8>, i: int) -> bool {
    &&& 0 <= i < header_search_limit(src.len() as int)
    &&& is_compressed_header_at(src, i)
    &&& forall|j: int| 0 <= j < i ==> !is_compressed_header_at(src, j)
}

impl<'a> RafDecoder<'a> {
    /// The layout of the raw data, as `spec_raf_layout` says; an error
    /// where a directory or tag it needs is missing, or where the data's
    /// offset does not fit in a `usize`.
    pub fn raw_layout(&self) -> (r: Result<RafLayout, String>)
        ensures
            match spec_raf_layout(self.tiff()) {
                None => (r matches Err(m) && m@ == spec_layout_message(self.tiff())),
                Some((w, h, o, b)) => if o <= usize::MAX {
                    r matches Ok(l) && l.width == w && l.height == h && l.offset == o && l.bps == b
                } else {
                    r matches Err(m) && m@ == "RAF: raw data offset overflows"@
                },
            },
    {
        let raw = match self.tiff.find_first_ifd(Tag::RafOffsets) {
            Some(v) => v,
            None => return Err(String::from_str("Couldn't find ifd with tag RafOffsets")),
        };
        let (width, height) = match raw.find_entry(Tag::RafImageWidth) {
            Some(w) => match raw.find_entry(Tag::RafImageLength) {
                Some(l) => (w.get_usize(0), l.get_usize(0)),
                None => return Err(String::from_str("Couldn't find tag RafImageLength")),
            },
            None => match raw.find_entry(Tag::ImageWidth) {
                Some(sizes) => (sizes.get_usize(1), sizes.get_usize(0)),
                None => return Err(String::from_str("Couldn't find tag ImageWidth")),
            },
        };
        let offset = match raw.find_entry(Tag::RafOffsets) {
            Some(o) => match o.get_usize(0).checked_add(raw.start_offset()) {
                Some(v) => v,
                None => return Err(String::from_str("RAF: raw data offset overflows")),
            },
            None => return Err(String::from_str("Couldn't find tag RafOffsets")),
        };
        let bps = match raw.find_entry(Tag::RafBitsPerSample) {
            Some(val) => val.get_u32(0) as usize,
            None => 16,
        };
        Ok(RafLayout { width, height, offset, bps })
    }

    /// How the raw data of `layout` is stored, given the camera's
    /// "double_width" and "jpeg32" hints: data too short for its samples is
    /// compressed, else the bits per sample decide.
    pub fn raw_format(&self, layout: &RafLayout, double_width: bool, jpeg32: bool) -> (r: Result<
        RafFormat,
        String,
    >)
        requires
            layout.offset <= self.buffer().len(),
        ensures
            match spec_raf_format(
                self.buffer().len() as int,
                *layout,
                self.tiff().order(),
                double_width,
                jpeg32,
            ) {
                Some(f) => r == Ok::<RafFormat, String>(f),
                None => (r matches Err(m) && m@ == "RAF: Don't know how to decode bps "@ + spec_dec(
                    layout.bps as nat,
                )),
            },
    {
        if double_width {
            return Ok(RafFormat::SkipLines16);
        }
        if jpeg32 {
            return Ok(RafFormat::Packed12Msb32);
        }
        let len = self.buffer.len() - layout.offset;
        assert(layout.bps * layout.width <= 0xffff_ffff_ffff_ffffu128 * 0xffff_ffff_ffff_ffffu128) by (nonlinear_arith)
            requires
                layout.bps <= 0xffff_ffff_ffff_ffffu128,
                layout.width <= 0xffff_ffff_ffff_ffffu128,
        ;
        let bw: u128 = (layout.bps as u128) * (layout.width as u128);
        let compressed = match bw.checked_mul(layout.height as u128) {
            Some(total) => (len as u128) < total / 8,
            None => true,
        };
        if compressed {
            return Ok(RafFormat::Compressed);
        }
        match layout.bps {
            12 => Ok(RafFormat::Packed12),
            14 => Ok(RafFormat::Unpacked14),
            16 => {
                if self.tiff.little_endian() {
                    Ok(RafFormat::Little16)
                } else {
                    Ok(RafFormat::Big16)
                }
            },
            _ => {
                let mut m = String::from_str("RAF: Don't know how to decode bps ");
                push_dec(&mut m, layout.bps as u128);
                Err(m)
            },
        }
    }

    /// Decodes compressed raw data: the Fuji compressed stream is searched
    /// for in the raw data of `layout` and decoded; unless `dummy`, the
    /// crops that skip the image's all-zero borders come with it.
    pub fn decode_compressed(&self, layout: &RafLayout, dummy: bool) -> (r: Result<
        (Vec<u16>, Option<[usize; 4]>),
        String,
    >)
        requires
            layout.offset <= self.buffer().len(),
            !dummy ==> layout.width * layout.height <= usize::MAX,
        ensures
            ({
                let src = self.buffer().subrange(layout.offset as int, self.buffer().len() as int);
                let w = layout.width as int;
                let h = layout.height as int;
                &&& (forall|i: int| !spec_first_header(src, i)) ==> (r matches Err(m) && m@
                    == "RAF: Compressed but could not find Fuji compressed header"@)
                &&& forall|i: int|
                    #[trigger] spec_first_header(src, i) ==> {
                        let data = src.subrange(i, src.len() as int);
                        &&& dummy ==> (r matches Ok((v, c)) && v@ == seq![0u16] && c is None)
                        &&& !dummy ==> match spec_decode_fuji(data, w, h) {
                            None => (r matches Err(m) && m@ == spec_decode_message(data, w, h)),
                            Some(img) => r matches Ok((v, c)) && v@ == img && (c matches Some(a)
                                && a@.len() == 4 && forall|j: int|
                                0 <= j < 4 ==> a@[j] as int == #[trigger] spec_zero_borders(img, w, h)[j]),
                        }
                    }
            }),
    {
        let src = vstd::slice::slice_subrange(self.buffer, layout.offset, self.buffer.len());
        match find_fuji_compressed_header(src) {
            Some(off) => {
                proof {
                    assert(spec_first_header(src@, off as int));
                    assert forall|i: int| #[trigger] spec_first_header(src@, i) implies i == off by {
                        if i < off {
                            assert(!is_compressed_header_at(src@, i));
                        } else if i > off {
                            assert(!is_compressed_header_at(src@, off as int));
                        }
                    }
                }
                let data = vstd::slice::slice_subrange(src, off, src.len());
                let image = match decode_fuji_compressed(data, layout.width, layout.height, dummy) {
                    Ok(v) => v,
                    Err(e) => return Err(e),
                };
                if dummy {
                    return Ok((image, None));
                }
                let crops = detect_zero_borders(image.as_slice(), layout.width, layout.height);
                Ok((image, Some(crops)))
            },
            None => Err(String::from_str("RAF: Compressed but could not find Fuji compressed header")),
        }
    }
}

} // verus!
