use vstd::prelude::*;

use image::GrayImage;

use crate::geometry::Point;
use crate::supercover::{
    lemma_supercover_endpoints, prev_cell, supercover_cells, supercover_path, walkable, Walker,
};

verus! {

/// A grayscale map: it holds an `image::GrayImage`, and `gray_pixels` names
/// the luma value of each of its pixels. The image is private: it is read
/// only through `image_dimensions` and `pixel_luma`, and made only by
/// `GrayMap::from_luma`.
#[verifier::external_body]
pub struct GrayMap {
    img: GrayImage,
}

/// The luma value of each pixel of a grayscale map, keyed by `(x, y)`.
pub uninterp spec fn gray_pixels(map: GrayMap) -> Map<(u32, u32), u8>;

/// The map of a `width` x `height` image whose rows lie one after another in
/// `buf`, one byte per pixel.
pub open spec fn raster_pixels(width: u32, height: u32, buf: Seq<u8>) -> Map<(u32, u32), u8> {
    Map::new(
        |k: (u32, u32)| k.0 < width && k.1 < height,
        |k: (u32, u32)| buf[k.1 * width + k.0],
    )
}

/// Calls `ImageBuffer::from_raw` for a `GrayImage`. Claimed, as its source
/// shows: it gives an image exactly when `buf` holds at least
/// `width * height` bytes, and then the pixel at `(x, y)` is
/// `buf[y * width + x]` for `x < width`, `y < height`.
#[verifier::external_body]
fn gray_from_raw(width: u32, height: u32, buf: Vec<u8>) -> (r: Option<GrayMap>)
    ensures
        r is Some <==> width * height <= buf@.len(),
        r matches Some(m) ==> gray_pixels(m) == raster_pixels(width, height, buf@),
{
    GrayImage::from_raw(width, height, buf).map(|img| GrayMap { img })
}

/// Calls `ImageBuffer::dimensions`. Claimed: the pixels of the image are
/// exactly those at `(x, y)` with `x` below the returned width and `y` below
/// the returned height (the bounds that `get_pixel` checks).
#[verifier::external_body]
fn image_dimensions(map: &GrayMap) -> (dims: (u32, u32))
    ensures
        forall|x: u32, y: u32|
            #[trigger] gray_pixels(*map).dom().contains((x, y)) <==> x < dims.0 && y < dims.1,
{
    map.img.dimensions()
}

/// Calls `ImageBuffer::get_pixel` and reads the pixel's one channel.
/// Claimed: it returns the luma value at `(x, y)`. `get_pixel` panics outside
/// the image, so `(x, y)` must be one of its pixels.
#[verifier::external_body]
fn pixel_luma(map: &GrayMap, x: u32, y: u32) -> (v: u8)
    requires
        gray_pixels(*map).dom().contains((x, y)),
    ensures
        v == gray_pixels(*map)[(x, y)],
{
    map.img.get_pixel(x, y)[0]
}

impl GrayMap {
    /// The `width` x `height` map whose rows lie one after another in
    /// `pixels`, one luma byte per pixel; `None` when `pixels` is too short.
    pub fn from_luma(width: u32, height: u32, pixels: Vec<u8>) -> (r: Option<GrayMap>)
        ensures
            r is Some <==> width * height <= pixels@.len(),
            r matches Some(m) ==> gray_pixels(m) == raster_pixels(width, height, pixels@),
    {
        gray_from_raw(width, height, pixels)
    }
}

/// The pixel that stands for a cell: its coordinates taken as `u32`, as a
/// cast wraps them.
pub open spec fn pixel_key(c: (int, int)) -> (u32, u32) {
    (c.0 as u32, c.1 as u32)
}

/// The cell's pixel is in the image.
pub open spec fn in_image(pixels: Map<(u32, u32), u8>, c: (int, int)) -> bool {
    pixels.dom().contains(pixel_key(c))
}

/// The cell's pixel is black: a wall that stops a ray.
pub open spec fn blocked(pixels: Map<(u32, u32), u8>, c: (int, int)) -> bool {
    pixels[pixel_key(c)] == 0
}

/// A walk through `cells` stays inside the image up to and including the
/// first blocked cell, or to its end when no cell is blocked.
pub open spec fn stays_in_image(cells: Seq<(int, int)>, pixels: Map<(u32, u32), u8>) -> bool
    decreases cells.len(),
{
    cells.len() == 0 || (in_image(pixels, cells[0]) && (blocked(pixels, cells[0])
        || stays_in_image(cells.drop_first(), pixels)))
}

/// Where a walk standing at `cur` and going on through `cells` stops: at the
/// first blocked cell, or at its last cell when none is blocked.
pub open spec fn stop_cell(cur: (int, int), cells: Seq<(int, int)>, pixels: Map<(u32, u32), u8>) -> (int, int)
    decreases cells.len(),
{
    if cells.len() == 0 {
        cur
    } else if blocked(pixels, cells[0]) {
        cells[0]
    } else {
        stop_cell(cells[0], cells.drop_first(), pixels)
    }
}

/// The index in `cells` of the first blocked cell, or `cells.len()` when no
/// cell is blocked.
pub open spec fn stop_index(cells: Seq<(int, int)>, pixels: Map<(u32, u32), u8>) -> nat
    decreases cells.len(),
{
    if cells.len() == 0 {
        0
    } else if blocked(pixels, cells[0]) {
        0
    } else {
        1 + stop_index(cells.drop_first(), pixels)
    }
}

/// A walk from `start` through `cells` that stays in the image stops at the
/// first blocked cell it enters, having passed only free cells of the image
/// before it; when no cell is blocked it stops at its last cell (at `start`
/// when there is none). The returned `k` is the index of the stop, or
/// `cells.len()` when no cell is blocked.
pub proof fn lemma_stop_cell(start: (int, int), cells: Seq<(int, int)>, pixels: Map<(u32, u32), u8>) -> (k: int)
    requires
        stays_in_image(cells, pixels),
    ensures
        k == stop_index(cells, pixels),
        0 <= k <= cells.len(),
        forall|j: int|
            0 <= j < k ==> in_image(pixels, #[trigger] cells[j]) && !blocked(pixels, cells[j]),
        k < cells.len() ==> in_image(pixels, cells[k]) && blocked(pixels, cells[k])
            && stop_cell(start, cells, pixels) == cells[k],
        k == cells.len() ==> stop_cell(start, cells, pixels) == prev_cell(start, cells, k),
    decreases cells.len(),
{
    if cells.len() == 0 {
        0
    } else if blocked(pixels, cells[0]) {
        0
    } else {
        let rest = cells.drop_first();
        let k0 = lemma_stop_cell(cells[0], rest, pixels);
        assert forall|j: int| 0 <= j < k0 + 1 implies in_image(pixels, #[trigger] cells[j])
            && !blocked(pixels, cells[j]) by {
            if j > 0 {
                assert(cells[j] == rest[j - 1]);
            }
        }
        if k0 < rest.len() {
            assert(cells[k0 + 1] == rest[k0]);
        } else if rest.len() > 0 {
            assert(prev_cell(cells[0], rest, k0) == cells[k0]);
        }
        k0 + 1
    }
}

/// Black pixels only ever shorten a walk: on a map of the same size that is
/// black wherever `pixels` is black, a walk through `cells` that stayed in
/// the image still does, and stops no later.
pub proof fn lemma_more_walls_stop_sooner(
    cells: Seq<(int, int)>,
    pixels: Map<(u32, u32), u8>,
    walled: Map<(u32, u32), u8>,
)
    requires
        stays_in_image(cells, pixels),
        walled.dom() == pixels.dom(),
        forall|k: (u32, u32)| #[trigger] pixels.dom().contains(k) && pixels[k] == 0 ==> walled[k] == 0,
    ensures
        stays_in_image(cells, walled),
        stop_index(cells, walled) <= stop_index(cells, pixels),
    decreases cells.len(),
{
    if cells.len() > 0 {
        assert(pixels.dom().contains(pixel_key(cells[0])));
        if !blocked(walled, cells[0]) {
            lemma_more_walls_stop_sooner(cells.drop_first(), pixels, walled);
        }
    }
}

/// More black pixels can only shorten a ray: with walls added to the map,
/// the ray from `p0` towards `p1` still stays in the image, and stops at the
/// same cell of its line or at an earlier one.
pub proof fn lemma_walls_shorten_ray(
    p0: (int, int),
    p1: (int, int),
    pixels: Map<(u32, u32), u8>,
    walled: Map<(u32, u32), u8>,
)
    requires
        stays_in_image(supercover_path(p0, p1), pixels),
        walled.dom() == pixels.dom(),
        forall|k: (u32, u32)| #[trigger] pixels.dom().contains(k) && pixels[k] == 0 ==> walled[k] == 0,
    ensures
        stays_in_image(supercover_path(p0, p1), walled),
        stop_index(supercover_path(p0, p1), walled) <= stop_index(supercover_path(p0, p1), pixels),
{
    lemma_more_walls_stop_sooner(supercover_path(p0, p1), pixels, walled);
}

/// A ray over a map with no black pixel on its line reaches its target:
/// the walk from `p0` towards `p1` then stops at `p1`.
pub proof fn lemma_clear_ray_reaches_target(p0: (int, int), p1: (int, int), pixels: Map<(u32, u32), u8>)
    requires
        stays_in_image(supercover_path(p0, p1), pixels),
        forall|i: int|
            0 <= i < supercover_path(p0, p1).len() ==> !blocked(
                pixels,
                #[trigger] supercover_path(p0, p1)[i],
            ),
    ensures
        stop_cell(p0, supercover_path(p0, p1), pixels) == p1,
{
    let path = supercover_path(p0, p1);
    let k = lemma_stop_cell(p0, path, pixels);
    lemma_supercover_endpoints(p0, p1);
    if k < path.len() {
        assert(!blocked(pixels, path[k]));
    }
    let cells = supercover_cells(p0, p1);
    if path.len() > 0 {
        assert(cells.last() == path.last());
    }
}

/// A walk through `cells` stays inside the image exactly when every cell it
/// enters before meeting a black pixel, and the black one it stops at, is a
/// pixel of the image: each cell whose predecessors are all free lies in the
/// image.
pub proof fn lemma_stays_in_image_iff(cells: Seq<(int, int)>, pixels: Map<(u32, u32), u8>)
    ensures
        stays_in_image(cells, pixels) <==> forall|i: int|
            0 <= i < cells.len() && (forall|j: int| 0 <= j < i ==> !blocked(pixels, #[trigger] cells[j]))
                ==> in_image(pixels, #[trigger] cells[i]),
    decreases cells.len(),
{
    if cells.len() > 0 {
        let rest = cells.drop_first();
        lemma_stays_in_image_iff(rest, pixels);
        let rhs = forall|i: int|
            0 <= i < cells.len() && (forall|j: int| 0 <= j < i ==> !blocked(pixels, #[trigger] cells[j]))
                ==> in_image(pixels, #[trigger] cells[i]);
        if stays_in_image(cells, pixels) {
            assert forall|i: int|
                0 <= i < cells.len() && (forall|j: int| 0 <= j < i ==> !blocked(pixels, #[trigger] cells[j]))
                implies in_image(pixels, #[trigger] cells[i]) by {
                if i > 0 {
                    assert(!blocked(pixels, cells[0]));
                    assert(cells[i] == rest[i - 1]);
                    assert forall|j: int| 0 <= j < i - 1 implies !blocked(pixels, #[trigger] rest[j]) by {
                        assert(rest[j] == cells[j + 1]);
                    }
                }
            }
        }
        if rhs {
            assert(in_image(pixels, cells[0]));
            if !blocked(pixels, cells[0]) {
                assert forall|i: int|
                    0 <= i < rest.len() && (forall|j: int| 0 <= j < i ==> !blocked(pixels, #[trigger] rest[j]))
                    implies in_image(pixels, #[trigger] rest[i]) by {
                    assert(rest[i] == cells[i + 1]);
                    assert forall|j: int| 0 <= j < i + 1 implies !blocked(pixels, #[trigger] cells[j]) by {
                        if j > 0 {
                            assert(cells[j] == rest[j - 1]);
                        }
                    }
                }
            }
        }
    }
}

/// Where a walk from `p0` towards `p1` that stays in the image stops: at the
/// first black cell of the line after `p0`, every cell before it being free;
/// or, when no cell of the line after `p0` is black, at `p1`.
pub open spec fn stops_at_first_wall_or_target(
    p0: (int, int),
    p1: (int, int),
    pixels: Map<(u32, u32), u8>,
    p: (int, int),
) -> bool {
    let path = supercover_path(p0, p1);
    ||| exists|k: int|
        0 <= k < path.len() && p == #[trigger] path[k] && blocked(pixels, p) && (forall|j: int|
            0 <= j < k ==> !blocked(pixels, #[trigger] path[j]))
    ||| (forall|j: int| 0 <= j < path.len() ==> !blocked(pixels, #[trigger] path[j])) && p == p1
}

/// The stop of a ray that stays in the image is its first wall, or its
/// target when it meets none.
pub proof fn lemma_ray_stop(p0: (int, int), p1: (int, int), pixels: Map<(u32, u32), u8>)
    requires
        stays_in_image(supercover_path(p0, p1), pixels),
    ensures
        stops_at_first_wall_or_target(p0, p1, pixels, stop_cell(p0, supercover_path(p0, p1), pixels)),
{
    let path = supercover_path(p0, p1);
    let s = stop_cell(p0, path, pixels);
    let k = lemma_stop_cell(p0, path, pixels);
    if k < path.len() {
        assert(s == path[k]);
    } else {
        lemma_clear_ray_reaches_target(p0, p1, pixels);
    }
}

/// Walks the supercover line from `p0` towards `p1` through `img` and
/// returns where it stops: the first black (zero) pixel entered after `p0`,
/// or `p1` when every pixel on the way is lit.
pub fn supercover_line(p0: Point, p1: Point, img: &GrayMap) -> (p: Point)
    requires
        walkable(p0, p1),
        stays_in_image(supercover_path(p0@, p1@), gray_pixels(*img)),
    ensures
        p@ == stop_cell(p0@, supercover_path(p0@, p1@), gray_pixels(*img)),
        stops_at_first_wall_or_target(p0@, p1@, gray_pixels(*img), p@),
{
    proof {
        lemma_ray_stop(p0@, p1@, gray_pixels(*img));
    }
    let ghost pixels = gray_pixels(*img);
    let ghost path = supercover_path(p0@, p1@);
    let mut w = Walker::new(p0, p1);
    while !w.is_done()
        invariant
            w.wf(),
            pixels == gray_pixels(*img),
            path == supercover_path(p0@, p1@),
            stays_in_image(w.remaining(), pixels),
            stop_cell(p0@, path, pixels) == stop_cell(w.pos@, w.remaining(), pixels),
            stops_at_first_wall_or_target(p0@, p1@, pixels, stop_cell(p0@, path, pixels)),
        decreases w.remaining().len(),
    {
        let ghost rest = w.remaining();
        w.advance();
        assert(rest[0] == w.pos@);
        assert(rest.drop_first() =~= w.remaining());
        let x = #[verifier::truncate] (w.pos.x as u32);
        let y = #[verifier::truncate] (w.pos.y as u32);
        let v = pixel_luma(img, x, y);
        if v == 0 {
            return w.pos;
        }
    }
    w.pos
}

/// Whether the supercover walk from `p0` towards `p1` stays inside `img`
/// until it stops.
fn walk_stays_in_image(p0: Point, p1: Point, img: &GrayMap) -> (b: bool)
    requires
        walkable(p0, p1),
    ensures
        b == stays_in_image(supercover_path(p0@, p1@), gray_pixels(*img)),
{
    let ghost pixels = gray_pixels(*img);
    let ghost path = supercover_path(p0@, p1@);
    let (width, height) = image_dimensions(img);
    let mut w = Walker::new(p0, p1);
    while !w.is_done()
        invariant
            w.wf(),
            pixels == gray_pixels(*img),
            path == supercover_path(p0@, p1@),
            forall|x: u32, y: u32|
                #[trigger] pixels.dom().contains((x, y)) <==> x < width && y < height,
            stays_in_image(path, pixels) == stays_in_image(w.remaining(), pixels),
        decreases w.remaining().len(),
    {
        let ghost rest = w.remaining();
        w.advance();
        assert(rest[0] == w.pos@);
        assert(rest.drop_first() =~= w.remaining());
        let x = #[verifier::truncate] (w.pos.x as u32);
        let y = #[verifier::truncate] (w.pos.y as u32);
        if !(x < width && y < height) {
            assert(!pixels.dom().contains((x, y)));
            return false;
        }
        let v = pixel_luma(img, x, y);
        if v == 0 {
            return true;
        }
    }
    true
}

/// Like `supercover_line`, for any image: `None` when the walk would leave
/// the image before it stops, else the cell where it stops.
pub fn try_supercover_line(p0: Point, p1: Point, img: &GrayMap) -> (r: Option<Point>)
    requires
        walkable(p0, p1),
    ensures
        r is Some <==> stays_in_image(supercover_path(p0@, p1@), gray_pixels(*img)),
        r is Some <==> forall|i: int|
            0 <= i < supercover_path(p0@, p1@).len() && (forall|j: int|
                0 <= j < i ==> !blocked(gray_pixels(*img), #[trigger] supercover_path(p0@, p1@)[j]))
                ==> in_image(gray_pixels(*img), #[trigger] supercover_path(p0@, p1@)[i]),
        r matches Some(p) ==> p@ == stop_cell(p0@, supercover_path(p0@, p1@), gray_pixels(*img)),
        r matches Some(p) ==> stops_at_first_wall_or_target(p0@, p1@, gray_pixels(*img), p@),
{
    proof {
        lemma_stays_in_image_iff(supercover_path(p0@, p1@), gray_pixels(*img));
    }
    if walk_stays_in_image(p0, p1, img) {
        Some(supercover_line(p0, p1, img))
    } else {
        None
    }
}

} // verus!
