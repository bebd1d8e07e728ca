//! Ambient colour extraction from a captured frame.
//!
//! A frame is a buffer of 4-byte pixels in B, G, R, A order, `stride` bytes per row.
//! Every tenth row and every tenth column is sampled. A sampled pixel is weighted by its
//! brightness plus the square of its saturation, so that colourful pixels dominate.
//! The left quarter and the right quarter of the frame each give one colour: per channel,
//! the square root of the weighted mean of the squared channel values.
use vstd::prelude::*;

verus! {

/// Number of sampled positions among `0..n` when every tenth one is taken.
pub open spec fn sampled_count(n: int) -> int {
    (n + 9) / 10
}

/// Column `x` lies in the left quarter of a frame `width` pixels wide.
pub open spec fn in_left(width: int, x: int) -> bool {
    x < width / 4
}

/// Column `x` lies in the right quarter of a frame `width` pixels wide.
pub open spec fn in_right(width: int, x: int) -> bool {
    x >= (3 * width) / 4
}

/// Column `x` lies in the region asked for: the left quarter when `left`, else the right one.
pub open spec fn in_region(width: int, x: int, left: bool) -> bool {
    if left {
        in_left(width, x)
    } else {
        in_right(width, x)
    }
}

pub open spec fn max3(r: int, g: int, b: int) -> int {
    if r >= g && r >= b {
        r
    } else if g >= b {
        g
    } else {
        b
    }
}

pub open spec fn min3(r: int, g: int, b: int) -> int {
    if r <= g && r <= b {
        r
    } else if g <= b {
        g
    } else {
        b
    }
}

/// The weight of a pixel: its brightness `r + g + b` plus its saturation squared.
pub open spec fn pixel_weight(r: int, g: int, b: int) -> int {
    let s = max3(r, g, b) - min3(r, g, b);
    r + g + b + s * s
}

/// Byte offset of pixel (`x`, `y`).
pub open spec fn pixel_offset(stride: int, x: int, y: int) -> int {
    y * stride + 4 * x
}

/// The whole 4-byte pixel (`x`, `y`) lies inside the buffer.
pub open spec fn pixel_present(data: Seq<u8>, stride: int, x: int, y: int) -> bool {
    pixel_offset(stride, x, y) + 4 <= data.len()
}

/// What pixel (`x`, `y`) adds to its region: red, green and blue squared, each times the
/// pixel's weight, and the weight. A pixel outside the buffer adds nothing.
pub open spec fn sample_sums(data: Seq<u8>, stride: int, x: int, y: int) -> (int, int, int, int) {
    if pixel_present(data, stride, x, y) {
        let o = pixel_offset(stride, x, y);
        let b = data[o] as int;
        let g = data[o + 1] as int;
        let r = data[o + 2] as int;
        let w = pixel_weight(r, g, b);
        (r * r * w, g * g * w, b * b * w, w)
    } else {
        (0, 0, 0, 0)
    }
}

pub open spec fn add_sums(a: (int, int, int, int), b: (int, int, int, int)) -> (int, int, int, int) {
    (a.0 + b.0, a.1 + b.1, a.2 + b.2, a.3 + b.3)
}

/// The sums of the region's pixels among the first `n` sampled columns of row `y`.
pub open spec fn row_sums(data: Seq<u8>, width: int, stride: int, y: int, n: nat, left: bool) -> (
    int,
    int,
    int,
    int,
)
    decreases n,
{
    if n == 0 {
        (0, 0, 0, 0)
    } else {
        let prev = row_sums(data, width, stride, y, (n - 1) as nat, left);
        let x = 10 * (n - 1);
        if in_region(width, x, left) {
            add_sums(prev, sample_sums(data, stride, x, y))
        } else {
            prev
        }
    }
}

/// The sums of the region's pixels over the first `m` sampled rows.
pub open spec fn rows_sums(data: Seq<u8>, width: int, stride: int, m: nat, left: bool) -> (
    int,
    int,
    int,
    int,
)
    decreases m,
{
    if m == 0 {
        (0, 0, 0, 0)
    } else {
        add_sums(
            rows_sums(data, width, stride, (m - 1) as nat, left),
            row_sums(data, width, stride, 10 * (m - 1), sampled_count(width) as nat, left),
        )
    }
}

/// The sums of one region (the left quarter when `left`, else the right quarter)
/// over all sampled pixels of the frame.
pub open spec fn region_sums(data: Seq<u8>, width: int, height: int, stride: int, left: bool) -> (
    int,
    int,
    int,
    int,
) {
    rows_sums(data, width, stride, sampled_count(height) as nat, left)
}

/// `c` is the channel value that a weighted sum `acc` of squares over total weight
/// `weight` gives: the floor of the square root of the weighted mean, or 0 when
/// nothing was weighed.
pub open spec fn channel_level(c: int, acc: int, weight: int) -> bool {
    if weight > 0 {
        c * c <= acc / weight < (c + 1) * (c + 1)
    } else {
        c == 0
    }
}

/// `colour` is the colour of a region whose sums are `sums`.
pub open spec fn region_colour(colour: (u8, u8, u8), sums: (int, int, int, int)) -> bool {
    &&& channel_level(colour.0 as int, sums.0, sums.3)
    &&& channel_level(colour.1 as int, sums.1, sums.3)
    &&& channel_level(colour.2 as int, sums.2, sums.3)
}

fn square(x: u64) -> (sq: u64)
    requires
        x <= 256,
    ensures
        sq == x * x,
{
    assert(x * x <= 65536) by (nonlinear_arith)
        requires
            x <= 256,
    ;
    x * x
}

/// The floor of the square root of `q`, for `q` of at most 255 squared.
fn floor_sqrt(q: u128) -> (s: u8)
    requires
        q <= 65025,
    ensures
        (s as int) * (s as int) <= q < (s as int + 1) * (s as int + 1),
{
    let mut s: u64 = 0;
    while square(s + 1) <= q as u64
        invariant
            s <= 255,
            s * s <= q,
            q <= 65025,
        decreases 256 - s,
    {
        assert(s + 1 <= 255) by (nonlinear_arith)
            requires
                (s + 1) * (s + 1) <= 65025,
                s >= 0,
        ;
        s = s + 1;
    }
    s as u8
}

/// The level of one channel from its weighted sum of squares and the total weight.
fn channel_of(acc: u128, weight: u128) -> (c: u8)
    requires
        acc <= 65025 * weight,
    ensures
        channel_level(c as int, acc as int, weight as int),
{
    if weight == 0 {
        0
    } else {
        let q = acc / weight;
        assert(q <= 65025) by (nonlinear_arith)
            requires
                acc <= 65025 * weight,
                weight > 0,
                q == acc / weight,
        ;
        floor_sqrt(q)
    }
}

/// The pixel's weight, computed for channel values that are bytes.
fn weight_of(r: u64, g: u64, b: u64) -> (w: u64)
    requires
        r <= 255,
        g <= 255,
        b <= 255,
    ensures
        w == pixel_weight(r as int, g as int, b as int),
        w <= 65790,
{
    let mx = if r >= g && r >= b {
        r
    } else if g >= b {
        g
    } else {
        b
    };
    let mn = if r <= g && r <= b {
        r
    } else if g <= b {
        g
    } else {
        b
    };
    let s = mx - mn;
    assert(s * s <= 65025) by (nonlinear_arith)
        requires
            s <= 255,
    ;
    (r + g + b) + s * s
}


/// `c * c * w` for a channel value `c` and a pixel weight `w`.
fn weighted_square(c: u64, w: u64) -> (p: u128)
    requires
        c <= 255,
        w <= 65790,
    ensures
        p == c * c * w,
        p <= 65025 * w,
{
    assert(c * c <= 65025) by (nonlinear_arith)
        requires
            c <= 255,
    ;
    assert(c * c * w <= 65025 * w) by (nonlinear_arith)
        requires
            c * c <= 65025,
    ;
    let sq = (c * c) as u128;
    sq * (w as u128)
}

/// Running sums of one region.
struct Accum {
    red: u128,
    green: u128,
    blue: u128,
    weight: u128,
}

impl Accum {
    spec fn sums(&self) -> (int, int, int, int) {
        (self.red as int, self.green as int, self.blue as int, self.weight as int)
    }

    /// Each channel's sum is at most 255 squared times the weight, and the weight is
    /// at most `limit`.
    spec fn within(&self, limit: int) -> bool {
        &&& self.weight <= limit
        &&& self.red <= 65025 * self.weight
        &&& self.green <= 65025 * self.weight
        &&& self.blue <= 65025 * self.weight
    }

    fn new() -> (a: Accum)
        ensures
            a.sums() == (0int, 0int, 0int, 0int),
            a.within(0),
    {
        Accum { red: 0, green: 0, blue: 0, weight: 0 }
    }

    fn add(&mut self, r: u64, g: u64, b: u64, w: u64, Ghost(limit): Ghost<int>)
        requires
            r <= 255,
            g <= 255,
            b <= 255,
            w <= 65790,
            old(self).within(limit),
            limit <= 0x100_0000_0000_0000_0000_0000,
        ensures
            final(self).sums() == add_sums(
                old(self).sums(),
                (r * r * w, g * g * w, b * b * w, w as int),
            ),
            final(self).within(limit + 65790),
    {
        let pr = weighted_square(r, w);
        let pg = weighted_square(g, w);
        let pb = weighted_square(b, w);
        self.red = self.red + pr;
        self.green = self.green + pg;
        self.blue = self.blue + pb;
        self.weight = self.weight + w as u128;
    }

    fn colour(&self) -> (c: (u8, u8, u8))
        requires
            self.within(self.weight as int),
        ensures
            region_colour(c, self.sums()),
    {
        (
            channel_of(self.red, self.weight),
            channel_of(self.green, self.weight),
            channel_of(self.blue, self.weight),
        )
    }
}

/// Adds the sampled pixels of row `y` to the sums of the left and the right region.
fn scan_row(
    data: &[u8],
    width: u32,
    stride: u32,
    y: u64,
    left: &mut Accum,
    right: &mut Accum,
    Ghost(limit): Ghost<int>,
)
    requires
        y <= u32::MAX,
        old(left).within(limit),
        old(right).within(limit),
        0 <= limit <= 0x1_0000_0000_0000_0000_0000,
    ensures
        final(left).sums() == add_sums(
            old(left).sums(),
            row_sums(data@, width as int, stride as int, y as int, sampled_count(width as int) as nat, true),
        ),
        final(right).sums() == add_sums(
            old(right).sums(),
            row_sums(data@, width as int, stride as int, y as int, sampled_count(width as int) as nat, false),
        ),
        final(left).within(limit + 35320737300480),
        final(right).within(limit + 35320737300480),
{
    let ghost left0 = left.sums();
    let ghost right0 = right.sums();
    let left_boundary: u64 = (width as u64) / 4;
    let right_boundary: u64 = (3 * (width as u64)) / 4;
    let row_start: u128 = {
        assert((y as int) * (stride as int) <= 0xffff_ffff_ffff_ffff) by (nonlinear_arith)
            requires
                y <= 0xffff_ffff,
                stride <= 0xffff_ffff,
        ;
        (y as u128) * (stride as u128)
    };
    let len: u128 = data.len() as u128;
    let mut x: u64 = 0;
    let ghost mut k: nat = 0;
    while x < width as u64
        invariant
            x == 10 * k,
            k <= sampled_count(width as int),
            x < width + 10,
            len == data@.len(),
            len <= usize::MAX,
            row_start == (y as int) * (stride as int),
            row_start <= 0xffff_ffff_ffff_ffff,
            left_boundary == (width as int) / 4,
            right_boundary == (3 * (width as int)) / 4,
            left.sums() == add_sums(
                left0,
                row_sums(data@, width as int, stride as int, y as int, k, true),
            ),
            right.sums() == add_sums(
                right0,
                row_sums(data@, width as int, stride as int, y as int, k, false),
            ),
            left.within(limit + k * 65790),
            right.within(limit + k * 65790),
            0 <= limit <= 0x1_0000_0000_0000_0000_0000,
        decreases width + 10 - x,
    {
        let ghost prev_left = row_sums(data@, width as int, stride as int, y as int, k, true);
        let ghost prev_right = row_sums(data@, width as int, stride as int, y as int, k, false);
        let ghost s = sample_sums(data@, stride as int, x as int, y as int);
        let offset: u128 = row_start + 4 * (x as u128);
        assert(offset == pixel_offset(stride as int, x as int, y as int));
        if offset + 4 <= len {
            let o = offset as usize;
            let b = data[o] as u64;
            let g = data[o + 1] as u64;
            let r = data[o + 2] as u64;
            let w = weight_of(r, g, b);
            assert(s == (r * r * w, g * g * w, b * b * w, w as int));
            if w != 0 {
                if x < left_boundary {
                    left.add(r, g, b, w, Ghost(limit + k * 65790));
                    assert(!in_right(width as int, x as int));
                } else if x >= right_boundary {
                    right.add(r, g, b, w, Ghost(limit + k * 65790));
                }
            } else {
                assert(s == (0int, 0int, 0int, 0int));
            }
        } else {
            assert(s == (0int, 0int, 0int, 0int));
        }
        proof {
            assert(row_sums(data@, width as int, stride as int, y as int, k + 1, true) == if in_left(width as int, x as int) {
                add_sums(prev_left, s)
            } else {
                prev_left
            });
            assert(row_sums(data@, width as int, stride as int, y as int, k + 1, false) == if in_right(width as int, x as int) {
                add_sums(prev_right, s)
            } else {
                prev_right
            });
            k = k + 1;
        }
        x = x + 10;
    }
    assert(k == sampled_count(width as int));
}

/// The colours of the left and the right quarter of a frame of `width` by `height`
/// pixels, in B, G, R, A byte order with `stride` bytes per row.
///
/// Every tenth row and every tenth column is sampled; a sampled pixel that does not
/// lie wholly inside `data` is passed over. Each channel of a region's colour is the
/// floor of the square root of the weighted mean of that channel's squared values,
/// a pixel weighing its brightness plus its saturation squared; a region with no weight
/// is black.
pub fn calculate_colors(data: &[u8], width: u32, height: u32, stride: u32) -> (colours: (
    (u8, u8, u8),
    (u8, u8, u8),
))
    ensures
        region_colour(colours.0, region_sums(data@, width as int, height as int, stride as int, true)),
        region_colour(colours.1, region_sums(data@, width as int, height as int, stride as int, false)),
{
    let mut left = Accum::new();
    let mut right = Accum::new();
    let mut y: u64 = 0;
    let ghost mut j: nat = 0;
    while y < height as u64
        invariant
            y == 10 * j,
            j <= sampled_count(height as int),
            y < height + 10,
            left.sums() == rows_sums(data@, width as int, stride as int, j, true),
            right.sums() == rows_sums(data@, width as int, stride as int, j, false),
            left.within((j * 35320737300480) as int),
            right.within((j * 35320737300480) as int),
        decreases height + 10 - y,
    {
        scan_row(data, width, stride, y, &mut left, &mut right, Ghost((j * 35320737300480) as int));
        proof {
            j = j + 1;
        }
        y = y + 10;
    }
    assert(j == sampled_count(height as int));
    (left.colour(), right.colour())
}


/// The sampled pixel in column `10 * k` of row `10 * j` belongs to the region and lies
/// inside the buffer.
pub open spec fn counted(data: Seq<u8>, width: int, stride: int, left: bool, j: int, k: int) -> bool {
    in_region(width, 10 * k, left) && pixel_present(data, stride, 10 * k, 10 * j)
}

/// If the sampled pixel in column `10 * k` of row `10 * j` counts for the region, its
/// red, green and blue bytes are `r`, `g` and `b`.
pub open spec fn pixel_is(
    data: Seq<u8>,
    width: int,
    stride: int,
    left: bool,
    j: int,
    k: int,
    r: u8,
    g: u8,
    b: u8,
) -> bool {
    counted(data, width, stride, left, j, k) ==> {
        let o = pixel_offset(stride, 10 * k, 10 * j);
        &&& data[o] == b
        &&& data[o + 1] == g
        &&& data[o + 2] == r
    }
}

/// Every sampled pixel of the region that lies inside the buffer has colour (`r`, `g`, `b`).
pub open spec fn region_uniform(
    data: Seq<u8>,
    width: int,
    height: int,
    stride: int,
    left: bool,
    r: u8,
    g: u8,
    b: u8,
) -> bool {
    forall|j: int, k: int|
        0 <= j < sampled_count(height) && 0 <= k < sampled_count(width) ==> #[trigger] pixel_is(
            data,
            width,
            stride,
            left,
            j,
            k,
            r,
            g,
            b,
        )
}

/// At least one sampled pixel of the region lies inside the buffer.
pub open spec fn region_seen(data: Seq<u8>, width: int, height: int, stride: int, left: bool) -> bool {
    exists|j: int, k: int|
        0 <= j < sampled_count(height) && 0 <= k < sampled_count(width) && #[trigger] counted(
            data,
            width,
            stride,
            left,
            j,
            k,
        )
}

/// Each channel's sum is that channel squared times the total weight.
pub open spec fn sums_of_one_colour(s: (int, int, int, int), r: int, g: int, b: int) -> bool {
    &&& s.0 == r * r * s.3
    &&& s.1 == g * g * s.3
    &&& s.2 == b * b * s.3
    &&& s.3 >= 0
}

proof fn lemma_nothing_is_one_colour(r: int, g: int, b: int)
    ensures
        sums_of_one_colour((0, 0, 0, 0), r, g, b),
{
    assert(r * r * 0 == 0) by (nonlinear_arith);
    assert(g * g * 0 == 0) by (nonlinear_arith);
    assert(b * b * 0 == 0) by (nonlinear_arith);
}

proof fn lemma_add_one_colour(s: (int, int, int, int), t: (int, int, int, int), r: int, g: int, b: int)
    requires
        sums_of_one_colour(s, r, g, b),
        sums_of_one_colour(t, r, g, b),
    ensures
        sums_of_one_colour(add_sums(s, t), r, g, b),
{
    assert(r * r * (s.3 + t.3) == r * r * s.3 + r * r * t.3) by (nonlinear_arith);
    assert(g * g * (s.3 + t.3) == g * g * s.3 + g * g * t.3) by (nonlinear_arith);
    assert(b * b * (s.3 + t.3) == b * b * s.3 + b * b * t.3) by (nonlinear_arith);
}

proof fn lemma_weight_nonnegative(r: int, g: int, b: int)
    requires
        0 <= r,
        0 <= g,
        0 <= b,
    ensures
        pixel_weight(r, g, b) >= 0,
{
    let s = max3(r, g, b) - min3(r, g, b);
    assert(s * s >= 0) by (nonlinear_arith);
}

proof fn lemma_row_uniform(
    data: Seq<u8>,
    width: int,
    stride: int,
    j: int,
    n: nat,
    left: bool,
    r: u8,
    g: u8,
    b: u8,
)
    requires
        forall|k: int| 0 <= k < n ==> #[trigger] pixel_is(data, width, stride, left, j, k, r, g, b),
    ensures
        sums_of_one_colour(row_sums(data, width, stride, 10 * j, n, left), r as int, g as int, b as int),
        pixel_weight(r as int, g as int, b as int) == 0 ==> row_sums(data, width, stride, 10 * j, n, left).3 == 0,
        pixel_weight(r as int, g as int, b as int) > 0 && (exists|k: int| 0 <= k < n && #[trigger] counted(data, width, stride, left, j, k))
            ==> row_sums(data, width, stride, 10 * j, n, left).3 > 0,
    decreases n,
{
    lemma_nothing_is_one_colour(r as int, g as int, b as int);
    lemma_weight_nonnegative(r as int, g as int, b as int);
    if n > 0 {
        let k = n - 1;
        lemma_row_uniform(data, width, stride, j, (n - 1) as nat, left, r, g, b);
        let prev = row_sums(data, width, stride, 10 * j, (n - 1) as nat, left);
        let t = sample_sums(data, stride, 10 * k, 10 * j);
        assert(pixel_is(data, width, stride, left, j, k, r, g, b));
        if in_region(width, 10 * k, left) {
            if pixel_present(data, stride, 10 * k, 10 * j) {
                assert(t == (
                    (r * r) as int * pixel_weight(r as int, g as int, b as int),
                    (g * g) as int * pixel_weight(r as int, g as int, b as int),
                    (b * b) as int * pixel_weight(r as int, g as int, b as int),
                    pixel_weight(r as int, g as int, b as int),
                ));
                assert(sums_of_one_colour(t, r as int, g as int, b as int));
            } else {
                assert(sums_of_one_colour(t, r as int, g as int, b as int));
            }
            lemma_add_one_colour(prev, t, r as int, g as int, b as int);
        }
        if pixel_weight(r as int, g as int, b as int) > 0 && exists|i: int| 0 <= i < n && #[trigger] counted(data, width, stride, left, j, i) {
            let i = choose|i: int| 0 <= i < n && #[trigger] counted(data, width, stride, left, j, i);
            if i < n - 1 {
                assert(prev.3 > 0);
                if in_region(width, 10 * k, left) {
                    if pixel_present(data, stride, 10 * k, 10 * j) {
                        lemma_weight_nonnegative(r as int, g as int, b as int);
                    }
                }
            }
        }
    }
}

proof fn lemma_rows_uniform(
    data: Seq<u8>,
    width: int,
    stride: int,
    m: nat,
    left: bool,
    r: u8,
    g: u8,
    b: u8,
)
    requires
        forall|j: int, k: int|
            0 <= j < m && 0 <= k < sampled_count(width) ==> #[trigger] pixel_is(
                data,
                width,
                stride,
                left,
                j,
                k,
                r,
                g,
                b,
            ),
        width >= 0,
    ensures
        sums_of_one_colour(rows_sums(data, width, stride, m, left), r as int, g as int, b as int),
        pixel_weight(r as int, g as int, b as int) == 0 ==> rows_sums(data, width, stride, m, left).3 == 0,
        pixel_weight(r as int, g as int, b as int) > 0 && (exists|j: int, k: int|
            0 <= j < m && 0 <= k < sampled_count(width) && #[trigger] counted(
                data,
                width,
                stride,
                left,
                j,
                k,
            )) ==> rows_sums(data, width, stride, m, left).3 > 0,
    decreases m,
{
    lemma_nothing_is_one_colour(r as int, g as int, b as int);
    if m > 0 {
        let j = m - 1;
        let n = sampled_count(width) as nat;
        lemma_rows_uniform(data, width, stride, (m - 1) as nat, left, r, g, b);
        assert forall|k: int| 0 <= k < n implies #[trigger] pixel_is(
            data,
            width,
            stride,
            left,
            j,
            k,
            r,
            g,
            b,
        ) by {}
        lemma_row_uniform(data, width, stride, j, n, left, r, g, b);
        let prev = rows_sums(data, width, stride, (m - 1) as nat, left);
        let row = row_sums(data, width, stride, 10 * j, n, left);
        lemma_add_one_colour(prev, row, r as int, g as int, b as int);
        if pixel_weight(r as int, g as int, b as int) > 0 && exists|a: int, c: int|
            0 <= a < m && 0 <= c < sampled_count(width) && #[trigger] counted(
                data,
                width,
                stride,
                left,
                a,
                c,
            ) {
            let (a, c) = choose|a: int, c: int|
                0 <= a < m && 0 <= c < sampled_count(width) && #[trigger] counted(
                    data,
                    width,
                    stride,
                    left,
                    a,
                    c,
                );
            if a == j {
                assert(counted(data, width, stride, left, j, c));
            } else {
                assert(prev.3 > 0);
            }
        }
    }
}

/// A region whose sampled pixels all show one colour that has some weight takes
/// exactly that colour, provided at least one of them lies inside the buffer.
pub proof fn law_uniform_region_keeps_its_colour(
    data: Seq<u8>,
    width: u32,
    height: u32,
    stride: u32,
    left: bool,
    r: u8,
    g: u8,
    b: u8,
)
    requires
        region_uniform(data, width as int, height as int, stride as int, left, r, g, b),
        region_seen(data, width as int, height as int, stride as int, left),
        pixel_weight(r as int, g as int, b as int) > 0,
    ensures
        region_colour((r, g, b), region_sums(data, width as int, height as int, stride as int, left)),
{
    let m = sampled_count(height as int) as nat;
    lemma_rows_uniform(data, width as int, stride as int, m, left, r, g, b);
    let s = region_sums(data, width as int, height as int, stride as int, left);
    let w = s.3;
    assert(w > 0);
    assert forall|c: int| 0 <= c <= 255 implies #[trigger] channel_level(c, c * c * w, w) by {
        assert((c * c * w) / w == c * c) by (nonlinear_arith)
            requires
                w > 0,
        ;
        assert(c * c < (c + 1) * (c + 1)) by (nonlinear_arith)
            requires
                c >= 0,
        ;
    }
    assert(channel_level(r as int, s.0, w));
    assert(channel_level(g as int, s.1, w));
    assert(channel_level(b as int, s.2, w));
}


/// A region whose sampled pixels are all black comes out black.
pub proof fn law_black_region_is_black(
    data: Seq<u8>,
    width: u32,
    height: u32,
    stride: u32,
    left: bool,
)
    requires
        region_uniform(data, width as int, height as int, stride as int, left, 0, 0, 0),
    ensures
        region_sums(data, width as int, height as int, stride as int, left) == (0int, 0int, 0int, 0int),
        region_colour((0, 0, 0), region_sums(data, width as int, height as int, stride as int, left)),
{
    let m = sampled_count(height as int) as nat;
    lemma_rows_uniform(data, width as int, stride as int, m, left, 0, 0, 0);
}

/// Two buffers of one length agree on the region's sampled pixels at column `10 * k`
/// of row `10 * j`: same red, green and blue bytes there.
pub open spec fn agree_at(
    data1: Seq<u8>,
    data2: Seq<u8>,
    width: int,
    stride: int,
    left: bool,
    j: int,
    k: int,
) -> bool {
    counted(data1, width, stride, left, j, k) ==> {
        let o = pixel_offset(stride, 10 * k, 10 * j);
        &&& data1[o] == data2[o]
        &&& data1[o + 1] == data2[o + 1]
        &&& data1[o + 2] == data2[o + 2]
    }
}

proof fn lemma_row_agree(
    data1: Seq<u8>,
    data2: Seq<u8>,
    width: int,
    stride: int,
    j: int,
    n: nat,
    left: bool,
)
    requires
        data1.len() == data2.len(),
        forall|k: int| 0 <= k < n ==> #[trigger] agree_at(data1, data2, width, stride, left, j, k),
    ensures
        row_sums(data1, width, stride, 10 * j, n, left) == row_sums(data2, width, stride, 10 * j, n, left),
    decreases n,
{
    if n > 0 {
        let k = n - 1;
        lemma_row_agree(data1, data2, width, stride, j, (n - 1) as nat, left);
        assert(agree_at(data1, data2, width, stride, left, j, k));
    }
}

proof fn lemma_rows_agree(data1: Seq<u8>, data2: Seq<u8>, width: int, stride: int, m: nat, left: bool)
    requires
        data1.len() == data2.len(),
        width >= 0,
        forall|j: int, k: int|
            0 <= j < m && 0 <= k < sampled_count(width) ==> #[trigger] agree_at(
                data1,
                data2,
                width,
                stride,
                left,
                j,
                k,
            ),
    ensures
        rows_sums(data1, width, stride, m, left) == rows_sums(data2, width, stride, m, left),
    decreases m,
{
    if m > 0 {
        let j = m - 1;
        lemma_rows_agree(data1, data2, width, stride, (m - 1) as nat, left);
        assert forall|k: int| 0 <= k < sampled_count(width) implies #[trigger] agree_at(
            data1,
            data2,
            width,
            stride,
            left,
            j,
            k,
        ) by {}
        lemma_row_agree(data1, data2, width, stride, j, sampled_count(width) as nat, left);
    }
}

/// A region's colour depends only on the colour bytes of its own sampled pixels:
/// two buffers of one length that agree there give the region the same sums, and so
/// the same colour, whatever the rest of the buffers hold.
pub proof fn law_region_sees_only_its_pixels(
    data1: Seq<u8>,
    data2: Seq<u8>,
    width: u32,
    height: u32,
    stride: u32,
    left: bool,
)
    requires
        data1.len() == data2.len(),
        forall|j: int, k: int|
            0 <= j < sampled_count(height as int) && 0 <= k < sampled_count(width as int)
                ==> #[trigger] agree_at(data1, data2, width as int, stride as int, left, j, k),
    ensures
        region_sums(data1, width as int, height as int, stride as int, left) == region_sums(
            data2,
            width as int,
            height as int,
            stride as int,
            left,
        ),
{
    lemma_rows_agree(data1, data2, width as int, stride as int, sampled_count(height as int) as nat, left);
}


/// Channel `ch` of a set of sums: 0 red, 1 green, 2 blue.
pub open spec fn sum_channel(s: (int, int, int, int), ch: int) -> int {
    if ch == 0 {
        s.0
    } else if ch == 1 {
        s.1
    } else {
        s.2
    }
}

/// Channel `ch` of a colour: 0 red, 1 green, 2 blue.
pub open spec fn colour_channel(c: (u8, u8, u8), ch: int) -> int {
    if ch == 0 {
        c.0 as int
    } else if ch == 1 {
        c.1 as int
    } else {
        c.2 as int
    }
}

/// The byte of channel `ch` (0 red, 1 green, 2 blue) of the sampled pixel in column
/// `10 * k` of row `10 * j`.
pub open spec fn pixel_channel(data: Seq<u8>, stride: int, j: int, k: int, ch: int) -> int {
    data[pixel_offset(stride, 10 * k, 10 * j) + 2 - ch] as int
}

/// The weight of the sampled pixel in column `10 * k` of row `10 * j`.
pub open spec fn weight_at(data: Seq<u8>, stride: int, j: int, k: int) -> int {
    let o = pixel_offset(stride, 10 * k, 10 * j);
    pixel_weight(data[o + 2] as int, data[o + 1] as int, data[o] as int)
}

/// If the sampled pixel in column `10 * k` of row `10 * j` counts for the region and has
/// some weight, its channel `ch` lies between `lo` and `hi`.
pub open spec fn channel_within(
    data: Seq<u8>,
    width: int,
    stride: int,
    left: bool,
    j: int,
    k: int,
    ch: int,
    lo: int,
    hi: int,
) -> bool {
    counted(data, width, stride, left, j, k) && weight_at(data, stride, j, k) > 0 ==> lo
        <= pixel_channel(data, stride, j, k, ch) <= hi
}

/// The sampled pixel in column `10 * k` of row `10 * j` counts for the region and has
/// some weight: it is not black.
pub open spec fn weighed(data: Seq<u8>, width: int, stride: int, left: bool, j: int, k: int) -> bool {
    counted(data, width, stride, left, j, k) && weight_at(data, stride, j, k) > 0
}

/// Sums whose channel `ch` lies between `lo` squared and `hi` squared times the weight.
pub open spec fn sums_within(s: (int, int, int, int), ch: int, lo: int, hi: int) -> bool {
    &&& lo * lo * s.3 <= sum_channel(s, ch) <= hi * hi * s.3
    &&& s.3 >= 0
}

proof fn lemma_sums_within_add(s: (int, int, int, int), t: (int, int, int, int), ch: int, lo: int, hi: int)
    requires
        sums_within(s, ch, lo, hi),
        sums_within(t, ch, lo, hi),
    ensures
        sums_within(add_sums(s, t), ch, lo, hi),
{
    assert(lo * lo * (s.3 + t.3) == lo * lo * s.3 + lo * lo * t.3) by (nonlinear_arith);
    assert(hi * hi * (s.3 + t.3) == hi * hi * s.3 + hi * hi * t.3) by (nonlinear_arith);
}

proof fn lemma_sample_within(data: Seq<u8>, width: int, stride: int, left: bool, j: int, k: int, ch: int, lo: int, hi: int)
    requires
        0 <= ch < 3,
        0 <= lo,
        counted(data, width, stride, left, j, k),
        channel_within(data, width, stride, left, j, k, ch, lo, hi),
    ensures
        sums_within(sample_sums(data, stride, 10 * k, 10 * j), ch, lo, hi),
        weighed(data, width, stride, left, j, k) ==> sample_sums(data, stride, 10 * k, 10 * j).3 > 0,
{
    let t = sample_sums(data, stride, 10 * k, 10 * j);
    let o = pixel_offset(stride, 10 * k, 10 * j);
    let w = weight_at(data, stride, j, k);
    let v = pixel_channel(data, stride, j, k, ch);
    lemma_weight_nonnegative(data[o + 2] as int, data[o + 1] as int, data[o] as int);
    assert(t.3 == w);
    assert(sum_channel(t, ch) == v * v * w);
    if w > 0 {
        assert(lo * lo * w <= v * v * w <= hi * hi * w) by (nonlinear_arith)
            requires
                0 <= lo <= v <= hi,
                w > 0,
        ;
    } else {
        assert(lo * lo * w == 0 && v * v * w == 0 && hi * hi * w == 0) by (nonlinear_arith)
            requires
                w == 0,
        ;
    }
}

proof fn lemma_row_within(
    data: Seq<u8>,
    width: int,
    stride: int,
    j: int,
    n: nat,
    left: bool,
    ch: int,
    lo: int,
    hi: int,
)
    requires
        0 <= ch < 3,
        0 <= lo,
        forall|k: int| 0 <= k < n ==> #[trigger] channel_within(data, width, stride, left, j, k, ch, lo, hi),
    ensures
        sums_within(row_sums(data, width, stride, 10 * j, n, left), ch, lo, hi),
        (exists|k: int| 0 <= k < n && #[trigger] weighed(data, width, stride, left, j, k))
            ==> row_sums(data, width, stride, 10 * j, n, left).3 > 0,
    decreases n,
{
    assert(lo * lo * 0 == 0 && hi * hi * 0 == 0) by (nonlinear_arith);
    if n > 0 {
        let k = n - 1;
        lemma_row_within(data, width, stride, j, (n - 1) as nat, left, ch, lo, hi);
        let prev = row_sums(data, width, stride, 10 * j, (n - 1) as nat, left);
        let t = sample_sums(data, stride, 10 * k, 10 * j);
        assert(channel_within(data, width, stride, left, j, k, ch, lo, hi));
        if in_region(width, 10 * k, left) {
            if counted(data, width, stride, left, j, k) {
                lemma_sample_within(data, width, stride, left, j, k, ch, lo, hi);
            } else {
                assert(t == (0int, 0int, 0int, 0int));
            }
            lemma_sums_within_add(prev, t, ch, lo, hi);
        }
        if exists|i: int| 0 <= i < n && #[trigger] weighed(data, width, stride, left, j, i) {
            let i = choose|i: int| 0 <= i < n && #[trigger] weighed(data, width, stride, left, j, i);
            if i < n - 1 {
                assert(prev.3 > 0);
            } else {
                lemma_sample_within(data, width, stride, left, j, k, ch, lo, hi);
            }
        }
    }
}

proof fn lemma_rows_within(
    data: Seq<u8>,
    width: int,
    stride: int,
    m: nat,
    left: bool,
    ch: int,
    lo: int,
    hi: int,
)
    requires
        0 <= ch < 3,
        0 <= lo,
        width >= 0,
        forall|j: int, k: int|
            0 <= j < m && 0 <= k < sampled_count(width) ==> #[trigger] channel_within(
                data,
                width,
                stride,
                left,
                j,
                k,
                ch,
                lo,
                hi,
            ),
    ensures
        sums_within(rows_sums(data, width, stride, m, left), ch, lo, hi),
        (exists|j: int, k: int|
            0 <= j < m && 0 <= k < sampled_count(width) && #[trigger] weighed(
                data,
                width,
                stride,
                left,
                j,
                k,
            )) ==> rows_sums(data, width, stride, m, left).3 > 0,
    decreases m,
{
    assert(lo * lo * 0 == 0 && hi * hi * 0 == 0) by (nonlinear_arith);
    if m > 0 {
        let j = m - 1;
        let n = sampled_count(width) as nat;
        lemma_rows_within(data, width, stride, (m - 1) as nat, left, ch, lo, hi);
        assert forall|k: int| 0 <= k < n implies #[trigger] channel_within(
            data,
            width,
            stride,
            left,
            j,
            k,
            ch,
            lo,
            hi,
        ) by {}
        lemma_row_within(data, width, stride, j, n, left, ch, lo, hi);
        let prev = rows_sums(data, width, stride, (m - 1) as nat, left);
        let row = row_sums(data, width, stride, 10 * j, n, left);
        lemma_sums_within_add(prev, row, ch, lo, hi);
        if exists|a: int, c: int|
            0 <= a < m && 0 <= c < sampled_count(width) && #[trigger] weighed(
                data,
                width,
                stride,
                left,
                a,
                c,
            ) {
            let (a, c) = choose|a: int, c: int|
                0 <= a < m && 0 <= c < sampled_count(width) && #[trigger] weighed(
                    data,
                    width,
                    stride,
                    left,
                    a,
                    c,
                );
            if a == j {
                assert(weighed(data, width, stride, left, j, c));
                assert(row.3 > 0);
            } else {
                assert(prev.3 > 0);
            }
        }
    }
}

/// A region's colour lies within the range of its pixels: where every sampled pixel of
/// the region that is not black has its channel `ch` (0 red, 1 green, 2 blue) between
/// `lo` and `hi`, and at least one such pixel lies inside the buffer, the region's
/// colour has its channel `ch` between `lo` and `hi` too. With `lo` and `hi` the least
/// and the greatest of those pixels' values, the colour lies between them.
pub proof fn law_colour_within_region_range(
    data: Seq<u8>,
    width: u32,
    height: u32,
    stride: u32,
    left: bool,
    ch: int,
    lo: int,
    hi: int,
    colour: (u8, u8, u8),
)
    requires
        0 <= ch < 3,
        forall|j: int, k: int|
            0 <= j < sampled_count(height as int) && 0 <= k < sampled_count(width as int)
                ==> #[trigger] channel_within(data, width as int, stride as int, left, j, k, ch, lo, hi),
        exists|j: int, k: int|
            0 <= j < sampled_count(height as int) && 0 <= k < sampled_count(width as int)
                && #[trigger] weighed(data, width as int, stride as int, left, j, k),
        region_colour(colour, region_sums(data, width as int, height as int, stride as int, left)),
    ensures
        lo <= colour_channel(colour, ch) <= hi,
{
    let m = sampled_count(height as int) as nat;
    let lo0: int = if lo < 0 { 0 } else { lo };
    assert forall|j: int, k: int|
        0 <= j < sampled_count(height as int) && 0 <= k < sampled_count(width as int) implies #[trigger] channel_within(
        data,
        width as int,
        stride as int,
        left,
        j,
        k,
        ch,
        lo0,
        hi,
    ) by {
        assert(channel_within(data, width as int, stride as int, left, j, k, ch, lo, hi));
    }
    lemma_rows_within(data, width as int, stride as int, m, left, ch, lo0, hi);
    let s = region_sums(data, width as int, height as int, stride as int, left);
    let w = s.3;
    let acc = sum_channel(s, ch);
    let c = colour_channel(colour, ch);
    assert(w > 0);
    assert(c * c <= acc / w < (c + 1) * (c + 1));
    assert(lo0 * lo0 <= acc / w) by (nonlinear_arith)
        requires
            lo0 * lo0 * w <= acc,
            w > 0,
    ;
    assert(acc / w <= hi * hi) by (nonlinear_arith)
        requires
            acc <= hi * hi * w,
            w > 0,
    ;
    assert(lo0 <= c) by (nonlinear_arith)
        requires
            lo0 * lo0 < (c + 1) * (c + 1),
            lo0 >= 0,
            c >= 0,
    ;
    let (wj, wk) = choose|j: int, k: int|
        0 <= j < sampled_count(height as int) && 0 <= k < sampled_count(width as int)
            && #[trigger] weighed(data, width as int, stride as int, left, j, k);
    assert(channel_within(data, width as int, stride as int, left, wj, wk, ch, lo, hi));
    assert(hi >= 0);
    assert(c <= hi) by (nonlinear_arith)
        requires
            c * c <= hi * hi,
            c >= 0,
            hi >= 0,
    ;
}

/// Two buffers of one length, where the sampled pixel in column `10 * k` of row `10 * j`,
/// if it counts for the region in the first, has its red and blue bytes exchanged in
/// the second and its green byte kept.
pub open spec fn swapped_at(
    data1: Seq<u8>,
    data2: Seq<u8>,
    width: int,
    stride: int,
    left: bool,
    j: int,
    k: int,
) -> bool {
    counted(data1, width, stride, left, j, k) ==> {
        let o = pixel_offset(stride, 10 * k, 10 * j);
        &&& data2[o] == data1[o + 2]
        &&& data2[o + 1] == data1[o + 1]
        &&& data2[o + 2] == data1[o]
    }
}

/// Sums with red and blue exchanged.
pub open spec fn swap_red_blue(s: (int, int, int, int)) -> (int, int, int, int) {
    (s.2, s.1, s.0, s.3)
}

proof fn lemma_row_swapped(data1: Seq<u8>, data2: Seq<u8>, width: int, stride: int, j: int, n: nat, left: bool)
    requires
        data1.len() == data2.len(),
        forall|k: int| 0 <= k < n ==> #[trigger] swapped_at(data1, data2, width, stride, left, j, k),
    ensures
        row_sums(data2, width, stride, 10 * j, n, left) == swap_red_blue(
            row_sums(data1, width, stride, 10 * j, n, left),
        ),
    decreases n,
{
    if n > 0 {
        let k = n - 1;
        lemma_row_swapped(data1, data2, width, stride, j, (n - 1) as nat, left);
        assert(swapped_at(data1, data2, width, stride, left, j, k));
        let o = pixel_offset(stride, 10 * k, 10 * j);
        if counted(data1, width, stride, left, j, k) {
            let r = data1[o + 2] as int;
            let g = data1[o + 1] as int;
            let b = data1[o] as int;
            assert(pixel_weight(b, g, r) == pixel_weight(r, g, b));
        }
    }
}

proof fn lemma_rows_swapped(data1: Seq<u8>, data2: Seq<u8>, width: int, stride: int, m: nat, left: bool)
    requires
        data1.len() == data2.len(),
        width >= 0,
        forall|j: int, k: int|
            0 <= j < m && 0 <= k < sampled_count(width) ==> #[trigger] swapped_at(
                data1,
                data2,
                width,
                stride,
                left,
                j,
                k,
            ),
    ensures
        rows_sums(data2, width, stride, m, left) == swap_red_blue(
            rows_sums(data1, width, stride, m, left),
        ),
    decreases m,
{
    if m > 0 {
        let j = m - 1;
        lemma_rows_swapped(data1, data2, width, stride, (m - 1) as nat, left);
        assert forall|k: int| 0 <= k < sampled_count(width) implies #[trigger] swapped_at(
            data1,
            data2,
            width,
            stride,
            left,
            j,
            k,
        ) by {}
        lemma_row_swapped(data1, data2, width, stride, j, sampled_count(width) as nat, left);
    }
}

/// The weight treats red and blue alike, so exchanging the red and blue bytes of a
/// region's sampled pixels exchanges the red and blue of the region's sums, and of its
/// colour: where `colour` is the first buffer's colour for the region, `colour` with red
/// and blue exchanged is the second's.
pub proof fn law_red_blue_swap(
    data1: Seq<u8>,
    data2: Seq<u8>,
    width: u32,
    height: u32,
    stride: u32,
    left: bool,
    colour: (u8, u8, u8),
)
    requires
        data1.len() == data2.len(),
        forall|j: int, k: int|
            0 <= j < sampled_count(height as int) && 0 <= k < sampled_count(width as int)
                ==> #[trigger] swapped_at(data1, data2, width as int, stride as int, left, j, k),
        region_colour(colour, region_sums(data1, width as int, height as int, stride as int, left)),
    ensures
        region_sums(data2, width as int, height as int, stride as int, left) == swap_red_blue(
            region_sums(data1, width as int, height as int, stride as int, left),
        ),
        region_colour(
            (colour.2, colour.1, colour.0),
            region_sums(data2, width as int, height as int, stride as int, left),
        ),
{
    lemma_rows_swapped(data1, data2, width as int, stride as int, sampled_count(height as int) as nat, left);
}


/// A pixel's weight is its brightness `r + g + b` plus the square of its full spread:
/// its largest channel less its smallest one.
pub proof fn law_weight_is_brightness_plus_spread(r: int, g: int, b: int, hi: int, lo: int)
    requires
        hi >= r && hi >= g && hi >= b,
        hi == r || hi == g || hi == b,
        lo <= r && lo <= g && lo <= b,
        lo == r || lo == g || lo == b,
    ensures
        pixel_weight(r, g, b) == r + g + b + (hi - lo) * (hi - lo),
{
    assert(max3(r, g, b) == hi);
    assert(min3(r, g, b) == lo);
}

/// A column lies in the left quarter exactly when the quarter of the width, rounded
/// down, is past it: `4 * (x + 1) <= width`; it lies in the right quarter exactly when
/// three quarters of the width, rounded down, is not past it: `3 * width <= 4 * x + 3`.
pub proof fn law_quarter_bounds(width: int, x: int)
    requires
        width >= 0,
        x >= 0,
    ensures
        in_left(width, x) <==> 4 * (x + 1) <= width,
        in_right(width, x) <==> 3 * width <= 4 * x + 3,
{
}

/// The sampled positions below `n` are the multiples of ten below `n`: the `k`-th one,
/// at `10 * k`, exists exactly when `10 * k < n`.
pub proof fn law_every_tenth_is_sampled(n: int, k: int)
    requires
        n >= 0,
        k >= 0,
    ensures
        k < sampled_count(n) <==> 10 * k < n,
{
}

/// Pixels are 4 bytes each, rows `stride` bytes apart, starting at byte 0.
pub proof fn law_pixel_layout(stride: int, x: int, y: int)
    ensures
        pixel_offset(stride, 0, 0) == 0,
        pixel_offset(stride, x + 1, y) == pixel_offset(stride, x, y) + 4,
        pixel_offset(stride, x, y + 1) == pixel_offset(stride, x, y) + stride,
{
    assert((y + 1) * stride == y * stride + stride) by (nonlinear_arith);
    assert(0 * stride == 0) by (nonlinear_arith);
}

/// A channel's level is the one value `c` with `c * c * weight <= acc < (c + 1) * (c + 1)
/// * weight`: the floor of the square root of the weighted mean `acc / weight`. So two
/// levels of the same sums are equal.
pub proof fn law_channel_level_is_floor_root(c: int, d: int, acc: int, weight: int)
    requires
        c >= 0,
        d >= 0,
        acc >= 0,
    ensures
        weight > 0 ==> (channel_level(c, acc, weight) <==> (c * c * weight <= acc && acc < (c + 1) * (c
            + 1) * weight)),
        weight <= 0 ==> (channel_level(c, acc, weight) <==> c == 0),
        channel_level(c, acc, weight) && channel_level(d, acc, weight) ==> c == d,
{
    if weight > 0 {
        let q = acc / weight;
        assert(c * c <= q <==> c * c * weight <= acc) by (nonlinear_arith)
            requires
                weight > 0,
                q == acc / weight,
                c >= 0,
        ;
        assert(q < (c + 1) * (c + 1) <==> acc < (c + 1) * (c + 1) * weight) by (nonlinear_arith)
            requires
                weight > 0,
                q == acc / weight,
                c >= 0,
        ;
        if channel_level(c, acc, weight) && channel_level(d, acc, weight) {
            assert(c == d) by (nonlinear_arith)
                requires
                    c >= 0,
                    d >= 0,
                    c * c <= q,
                    q < (c + 1) * (c + 1),
                    d * d <= q,
                    q < (d + 1) * (d + 1),
            {
                if c < d {
                    assert((c + 1) * (c + 1) <= d * d);
                } else if d < c {
                    assert((d + 1) * (d + 1) <= c * c);
                }
            }
        }
    }
}

} // verus!
