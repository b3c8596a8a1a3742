//! Nearest sampling of YUV420 pictures, with aligned corners and square stretching.
use vstd::prelude::*;

verus! {

/// One sample of each plane.
#[derive(Clone, Copy, Debug, PartialEq, Eq, Structural)]
pub struct Yuv {
    pub y: u8,
    pub u: u8,
    pub v: u8,
}

/// A picture's width and height.
#[derive(Clone, Copy, Debug, PartialEq, Eq, Structural)]
pub struct Size {
    pub width: usize,
    pub height: usize,
}

/// The place along one side of the source that place `at` along a side of the destination
/// shows: the first shows the first and the last the last.
pub open spec fn source_of(at: int, destination: int, source: int) -> int {
    if destination > 1 {
        at * (source - 1) / (destination - 1)
    } else {
        0
    }
}

/// Half of a side, rounded up: the side of a chroma plane.
pub open spec fn chroma_side(side: int) -> int {
    (side + 1) / 2
}

/// The bytes from one row of a plane to the next: its share of the plane, and no less than
/// the row holds.
pub open spec fn stride_of(len: int, rows: int, columns: int) -> int {
    if len / rows >= columns {
        len / rows
    } else {
        columns
    }
}

/// The sample at a place of a plane, or `absent` where the plane does not reach that far.
pub open spec fn sample_at(plane: Seq<u8>, row: int, column: int, stride: int, absent: u8) -> u8 {
    if row * stride + column < plane.len() {
        plane[row * stride + column]
    } else {
        absent
    }
}

/// What the destination shows in column `dx` of row `dy`. Missing luma reads as black,
/// missing chroma as neutral.
pub open spec fn pixel_of(
    y: Seq<u8>,
    u: Seq<u8>,
    v: Seq<u8>,
    source: Size,
    destination: Size,
    dx: int,
    dy: int,
) -> Yuv {
    let sx = source_of(dx, destination.width as int, source.width as int);
    let sy = source_of(dy, destination.height as int, source.height as int);
    let chroma_w = chroma_side(source.width as int);
    let chroma_h = chroma_side(source.height as int);
    Yuv {
        y: sample_at(
            y,
            sy,
            sx,
            stride_of(y.len() as int, source.height as int, source.width as int),
            16,
        ),
        u: sample_at(u, sy / 2, sx / 2, stride_of(u.len() as int, chroma_h, chroma_w), 128),
        v: sample_at(v, sy / 2, sx / 2, stride_of(v.len() as int, chroma_h, chroma_w), 128),
    }
}

/// The destination, row by row.
pub open spec fn resized(
    y: Seq<u8>,
    u: Seq<u8>,
    v: Seq<u8>,
    source: Size,
    destination: Size,
) -> Seq<Yuv> {
    Seq::new(
        (destination.width * destination.height) as nat,
        |i: int|
            pixel_of(
                y,
                u,
                v,
                source,
                destination,
                i % destination.width as int,
                i / destination.width as int,
            ),
    )
}

/// The products that sampling forms fit a machine word.
pub open spec fn sizes_fit(source: Size, destination: Size) -> bool {
    &&& source.width * source.height <= usize::MAX
    &&& destination.width * destination.height <= usize::MAX
    &&& destination.width * source.width <= usize::MAX
    &&& destination.height * source.height <= usize::MAX
}

proof fn lemma_source_inside(at: int, destination: int, source: int)
    requires
        0 <= at < destination,
        0 < source,
    ensures
        0 <= source_of(at, destination, source) < source,
        destination > 1 ==> 0 <= at * (source - 1) <= destination * source,
{
    if destination > 1 {
        let scaled = at * (source - 1);
        let last = destination - 1;
        assert(0 <= scaled <= last * (source - 1)) by (nonlinear_arith)
            requires
                0 <= at <= last,
                source >= 1,
                scaled == at * (source - 1),
        ;
        assert(scaled / last <= source - 1) by (nonlinear_arith)
            requires
                0 <= scaled <= last * (source - 1),
                last >= 1,
        ;
        assert(scaled / last >= 0) by (nonlinear_arith)
            requires
                0 <= scaled,
                last >= 1,
        ;
        assert(scaled <= destination * source) by (nonlinear_arith)
            requires
                0 <= at < destination,
                source >= 1,
                scaled == at * (source - 1),
        ;
    }
}

/// The place along one side of the source that `at` shows.
fn find_source(at: usize, destination: usize, source: usize) -> (place: usize)
    requires
        at < destination,
        0 < source,
        destination * source <= usize::MAX,
    ensures
        place == source_of(at as int, destination as int, source as int),
        place < source,
{
    proof {
        lemma_source_inside(at as int, destination as int, source as int);
    }
    if destination > 1 {
        at * (source - 1) / (destination - 1)
    } else {
        0
    }
}

/// The sample at a place of a plane.
fn read_sample(plane: &[u8], row: usize, column: usize, rows: usize, columns: usize, absent: u8) -> (sample:
    u8)
    requires
        row < rows,
        column < columns,
        rows * columns <= usize::MAX,
    ensures
        sample == sample_at(
            plane@,
            row as int,
            column as int,
            stride_of(plane@.len() as int, rows as int, columns as int),
            absent,
        ),
{
    let len: usize = plane.len();
    let stride: usize = (len / rows).max(columns);
    proof {
        let share = len as int / rows as int;
        assert(share * rows <= len) by (nonlinear_arith)
            requires
                share == len as int / rows as int,
                rows > 0,
        ;
        assert(0 <= row * stride <= row * stride + column <= usize::MAX) by (nonlinear_arith)
            requires
                row < rows,
                column < columns,
                columns <= stride,
                stride == columns || stride == share,
                share * rows <= len <= usize::MAX,
                rows * columns <= usize::MAX,
                row >= 0,
                column >= 0,
        ;
    }
    let place: usize = row * stride + column;
    if place < len {
        plane[place]
    } else {
        absent
    }
}

/// Samples a YUV420 picture for a destination of another size. A picture without a row or a
/// column, on either side, has nothing to show.
pub fn resize_planes(y: &[u8], u: &[u8], v: &[u8], source: Size, destination: Size) -> (out: Option<
    Vec<Yuv>,
>)
    requires
        sizes_fit(source, destination),
    ensures
        match out {
            None => source.width == 0 || source.height == 0 || destination.width == 0
                || destination.height == 0,
            Some(out) => {
                &&& source.width > 0 && source.height > 0
                &&& destination.width > 0 && destination.height > 0
                &&& out@ == resized(y@, u@, v@, source, destination)
            },
        },
{
    if source.width == 0 || source.height == 0 || destination.width == 0 || destination.height
        == 0 {
        return None;
    }
    let chroma_w: usize = source.width / 2 + source.width % 2;
    let chroma_h: usize = source.height / 2 + source.height % 2;
    assert(chroma_h * chroma_w <= usize::MAX) by (nonlinear_arith)
        requires
            0 < chroma_w <= source.width,
            0 < chroma_h <= source.height,
            source.width * source.height <= usize::MAX,
    ;
    assert(source.height * source.width <= usize::MAX) by (nonlinear_arith)
        requires
            source.width * source.height <= usize::MAX,
    ;
    let ghost all = resized(y@, u@, v@, source, destination);
    let mut out: Vec<Yuv> = Vec::new();
    let mut dy: usize = 0;
    while dy < destination.height
        invariant
            dy <= destination.height,
            0 < source.width,
            0 < source.height,
            0 < destination.width,
            sizes_fit(source, destination),
            chroma_w == chroma_side(source.width as int),
            chroma_h == chroma_side(source.height as int),
            chroma_h * chroma_w <= usize::MAX,
            source.height * source.width <= usize::MAX,
            all == resized(y@, u@, v@, source, destination),
            out@.len() == dy * destination.width,
            out@ == all.take(out@.len() as int),
            out@.len() <= all.len(),
        decreases destination.height - dy,
    {
        let sy: usize = find_source(dy, destination.height, source.height);
        let mut dx: usize = 0;
        assert(dy * destination.width + destination.width <= destination.width
            * destination.height) by (nonlinear_arith)
            requires
                dy < destination.height,
        ;
        while dx < destination.width
            invariant
                dx <= destination.width,
                dy < destination.height,
                0 < source.width,
                0 < source.height,
                sizes_fit(source, destination),
                chroma_w == chroma_side(source.width as int),
                chroma_h == chroma_side(source.height as int),
                chroma_h * chroma_w <= usize::MAX,
                source.height * source.width <= usize::MAX,
                sy == source_of(dy as int, destination.height as int, source.height as int),
                sy < source.height,
                all == resized(y@, u@, v@, source, destination),
                dy * destination.width + destination.width <= all.len(),
                out@.len() == dy * destination.width + dx,
                out@ == all.take(out@.len() as int),
            decreases destination.width - dx,
        {
            let sx: usize = find_source(dx, destination.width, source.width);
            let pixel = Yuv {
                y: read_sample(y, sy, sx, source.height, source.width, 16),
                u: read_sample(u, sy / 2, sx / 2, chroma_h, chroma_w, 128),
                v: read_sample(v, sy / 2, sx / 2, chroma_h, chroma_w, 128),
            };
            proof {
                let i = dy * destination.width + dx;
                let w = destination.width as int;
                assert(i % w == dx && i / w == dy) by {
                    vstd::arithmetic::div_mod::lemma_fundamental_div_mod_converse(
                        i,
                        w,
                        dy as int,
                        dx as int,
                    );
                }
                assert(pixel == all[i]);
            }
            out.push(pixel);
            dx += 1;
            assert(out@ =~= all.take(out@.len() as int));
        }
        assert((dy + 1) * destination.width == dy * destination.width + destination.width)
            by (nonlinear_arith);
        dy += 1;
    }
    assert(destination.height * destination.width == destination.width * destination.height)
        by (nonlinear_arith);
    assert(out@ =~= all);
    Some(out)
}

/// The corners of the destination show the corners of the source, places in between keep
/// their order, and a picture of the same size is shown as it is.
pub proof fn law_corners_align(destination: int, source: int, a: int, b: int)
    requires
        1 < destination,
        0 < source,
        0 <= a <= b < destination,
    ensures
        source_of(0, destination, source) == 0,
        source_of(destination - 1, destination, source) == source - 1,
        source_of(a, destination, source) <= source_of(b, destination, source),
        destination == source ==> source_of(a, destination, source) == a,
{
    let last = destination - 1;
    assert(0 * (source - 1) / last == 0) by (nonlinear_arith)
        requires
            last >= 1,
    ;
    assert(last * (source - 1) / last == source - 1) by (nonlinear_arith)
        requires
            last >= 1,
            source >= 1,
    ;
    assert(a * (source - 1) <= b * (source - 1)) by (nonlinear_arith)
        requires
            a <= b,
            source >= 1,
    ;
    vstd::arithmetic::div_mod::lemma_div_is_ordered(a * (source - 1), b * (source - 1), last);
    if destination == source {
        assert(a * last / last == a) by (nonlinear_arith)
            requires
                last >= 1,
                a >= 0,
        ;
    }
}

/// The bytes of a luma plane and of one chroma plane, where a picture of `len` bytes in one
/// piece holds just one of the first and two of the second.
pub open spec fn planes_of(len: int, source: Size) -> Option<(int, int)> {
    let luma = source.width * source.height;
    let chroma = chroma_side(source.width as int) * chroma_side(source.height as int);
    if len == luma + 2 * chroma {
        Some((luma, chroma))
    } else {
        None
    }
}

/// Where the planes of a contiguous picture of `len` bytes end, if they fill it.
pub fn split_planes(len: usize, source: Size) -> (planes: Option<(usize, usize)>)
    requires
        (source.width + 1) * (source.height + 1) * 2 <= usize::MAX,
    ensures
        match planes {
            Some((luma, chroma)) => planes_of(len as int, source) == Some(
                (luma as int, chroma as int),
            ),
            None => planes_of(len as int, source) is None,
        },
{
    let chroma_w: usize = source.width / 2 + source.width % 2;
    let chroma_h: usize = source.height / 2 + source.height % 2;
    proof {
        let w = source.width as int;
        let h = source.height as int;
        assert(w * h <= (w + 1) * (h + 1)) by (nonlinear_arith)
            requires
                w >= 0,
                h >= 0,
        ;
        assert(4 * (chroma_w * chroma_h) <= (w + 1) * (h + 1)) by (nonlinear_arith)
            requires
                0 <= 2 * chroma_w <= w + 1,
                0 <= 2 * chroma_h <= h + 1,
        ;
    }
    let luma: usize = source.width * source.height;
    let chroma: usize = chroma_w * chroma_h;
    if len == luma + 2 * chroma {
        Some((luma, chroma))
    } else {
        None
    }
}

/// Every pixel of the destination shows the place of the source that stands as far along each
/// side, corner on corner and rounded down, and takes its chroma from the sample that covers
/// that place, one sample standing for two columns and two rows. The rows of a plane are an
/// equal share of it apart, but no less than a row's samples. Where a plane does not reach
/// that far, luma is black and chroma neutral.
pub proof fn law_pixel_shows_its_place(
    planes: (Seq<u8>, Seq<u8>, Seq<u8>),
    source: Size,
    destination: Size,
    at: (int, int),
    place: (int, int),
    chroma: (int, int),
    strides: (int, int, int),
)
    requires
        source.width > 0 && source.height > 0,
        0 <= at.0 && at.0 < destination.width,
        0 <= at.1 && at.1 < destination.height,
        // The place that is shown.
        destination.width == 1 ==> place.0 == 0,
        destination.width > 1 ==> place.0 * (destination.width - 1) <= at.0 * (source.width - 1)
            && at.0 * (source.width - 1) < (place.0 + 1) * (destination.width - 1),
        destination.height == 1 ==> place.1 == 0,
        destination.height > 1 ==> place.1 * (destination.height - 1) <= at.1 * (source.height - 1)
            && at.1 * (source.height - 1) < (place.1 + 1) * (destination.height - 1),
        // The chroma sample that covers it.
        2 * chroma.0 <= place.0 && place.0 <= 2 * chroma.0 + 1,
        2 * chroma.1 <= place.1 && place.1 <= 2 * chroma.1 + 1,
        // The strides of the planes.
        is_row_share(planes.0.len() as int, source.height as int, source.width as int, strides.0),
        is_row_share(
            planes.1.len() as int,
            (source.height as int + 1) / 2,
            (source.width as int + 1) / 2,
            strides.1,
        ),
        is_row_share(
            planes.2.len() as int,
            (source.height as int + 1) / 2,
            (source.width as int + 1) / 2,
            strides.2,
        ),
    ensures
        ({
            let all = resized(planes.0, planes.1, planes.2, source, destination);
            let pixel = all[at.1 * destination.width + at.0];
            let y = place.1 * strides.0 + place.0;
            let u = chroma.1 * strides.1 + chroma.0;
            let v = chroma.1 * strides.2 + chroma.0;
            &&& all.len() == destination.width * destination.height
            &&& pixel.y == if y < planes.0.len() {
                planes.0[y]
            } else {
                16
            }
            &&& pixel.u == if u < planes.1.len() {
                planes.1[u]
            } else {
                128
            }
            &&& pixel.v == if v < planes.2.len() {
                planes.2[v]
            } else {
                128
            }
        }),
{
    let dw = destination.width as int;
    let dh = destination.height as int;
    let i = at.1 * dw + at.0;
    assert(0 <= i < dw * dh) by (nonlinear_arith)
        requires
            0 <= at.0 < dw,
            0 <= at.1 < dh,
            i == at.1 * dw + at.0,
    ;
    vstd::arithmetic::div_mod::lemma_fundamental_div_mod_converse(i, dw, at.1, at.0);
    lemma_place(at.0, dw, source.width as int, place.0);
    lemma_place(at.1, dh, source.height as int, place.1);
    assert(place.0 / 2 == chroma.0);
    assert(place.1 / 2 == chroma.1);
    lemma_row_share(
        planes.0.len() as int,
        source.height as int,
        source.width as int,
        strides.0,
    );
    lemma_row_share(
        planes.1.len() as int,
        (source.height as int + 1) / 2,
        (source.width as int + 1) / 2,
        strides.1,
    );
    lemma_row_share(
        planes.2.len() as int,
        (source.height as int + 1) / 2,
        (source.width as int + 1) / 2,
        strides.2,
    );
}

/// The rows of a plane of `len` bytes are `stride` apart: its whole share for each row, where
/// the row's samples fit into it, and the row's samples otherwise.
pub open spec fn is_row_share(len: int, rows: int, columns: int, stride: int) -> bool {
    &&& stride >= columns
    &&& len < (stride + 1) * rows
    &&& stride == columns || stride * rows <= len
}

proof fn lemma_place(at: int, destination: int, source: int, place: int)
    requires
        destination >= 1,
        destination == 1 ==> place == 0,
        destination > 1 ==> place * (destination - 1) <= at * (source - 1) && at * (source - 1) < (
        place + 1) * (destination - 1),
    ensures
        source_of(at, destination, source) == place,
{
    if destination > 1 {
        let last = destination - 1;
        let scaled = at * (source - 1);
        assert((place + 1) * last == place * last + last) by (nonlinear_arith);
        vstd::arithmetic::div_mod::lemma_fundamental_div_mod_converse(
            scaled,
            last,
            place,
            scaled - place * last,
        );
    }
}

proof fn lemma_row_share(len: int, rows: int, columns: int, stride: int)
    requires
        is_row_share(len, rows, columns, stride),
        rows > 0,
        len >= 0,
    ensures
        stride_of(len, rows, columns) == stride,
{
    let share = len / rows;
    assert(share <= stride) by (nonlinear_arith)
        requires
            share == len / rows,
            len < (stride + 1) * rows,
            rows > 0,
    ;
    if stride * rows <= len {
        assert(share >= stride) by (nonlinear_arith)
            requires
                share == len / rows,
                stride * rows <= len,
                rows > 0,
        ;
    }
}

/// A picture shown at its own size, from planes without padding, shows every luma sample in
/// its place, and in column `x` of row `y` the chroma of column `x / 2` of row `y / 2`.
pub proof fn law_own_size_shows_itself(
    planes: (Seq<u8>, Seq<u8>, Seq<u8>),
    size: Size,
    x: int,
    y: int,
)
    requires
        0 <= x && x < size.width,
        0 <= y && y < size.height,
        planes.0.len() == size.width * size.height,
        planes.1.len() == ((size.width as int + 1) / 2) * ((size.height as int + 1) / 2),
        planes.2.len() == planes.1.len(),
    ensures
        ({
            let pixel = resized(planes.0, planes.1, planes.2, size, size)[y * size.width + x];
            let c = (y / 2) * ((size.width as int + 1) / 2) + x / 2;
            &&& pixel.y == planes.0[y * size.width + x]
            &&& pixel.u == planes.1[c]
            &&& pixel.v == planes.2[c]
        }),
{
    let w = size.width as int;
    let h = size.height as int;
    let cw = (w + 1) / 2;
    let ch = (h + 1) / 2;
    assert(h < w * h + h && cw * ch < (cw + 1) * ch && w * h < (w + 1) * h) by (nonlinear_arith)
        requires
            w > 0,
            h > 0,
            cw > 0,
            ch > 0,
    ;
    assert((x + 1) * (w - 1) == x * (w - 1) + (w - 1)) by (nonlinear_arith);
    assert((y + 1) * (h - 1) == y * (h - 1) + (h - 1)) by (nonlinear_arith);
    let c = (y / 2) * cw + x / 2;
    assert(0 <= c < cw * ch) by (nonlinear_arith)
        requires
            0 <= x / 2 < cw,
            0 <= y / 2 < ch,
            c == (y / 2) * cw + x / 2,
    ;
    assert(0 <= y * w + x < w * h) by (nonlinear_arith)
        requires
            0 <= x < w,
            0 <= y < h,
    ;
    law_pixel_shows_its_place(
        planes,
        size,
        size,
        (x, y),
        (x, y),
        (x / 2, y / 2),
        (w, cw, cw),
    );
}

/// A picture in one piece is split exactly where it holds a luma sample for every place and
/// two chroma samples for every two columns and two rows, odd sides rounded up.
pub proof fn law_planes_fill_the_picture(len: int, source: Size, columns: int, rows: int)
    requires
        2 * columns == source.width || 2 * columns == source.width + 1,
        2 * rows == source.height || 2 * rows == source.height + 1,
    ensures
        planes_of(len, source) is Some <==> len == source.width * source.height + columns * rows
            + columns * rows,
        planes_of(len, source) matches Some((luma, chroma)) ==> luma == source.width
            * source.height && chroma == columns * rows,
{
}

} // verus!
