//! A frame's pixel grid with its running minimum and maximum, and the
//! snaking scan order over it.
use vstd::prelude::*;
use vstd::arithmetic::div_mod::lemma_fundamental_div_mod_converse;

verus! {

/// Position in the row-major grid of scan index `i` for rows of `w`
/// pixels: left to right on even rows, right to left on odd rows.
pub open spec fn snake_pos(i: int, w: int) -> int {
    if (i / w) % 2 == 0 {
        i
    } else {
        i - i % w + (w - 1 - i % w)
    }
}

/// Column visited at scan index `i` for rows of `w` pixels.
pub open spec fn snake_col(i: int, w: int) -> int {
    if (i / w) % 2 == 0 {
        i % w
    } else {
        w - 1 - i % w
    }
}

/// The scan position of index `i` lies in row `i / w`, at the column that
/// the row's direction gives, and the scan visits it from the same index.
pub proof fn lemma_snake_row(i: int, w: int)
    requires
        0 < w,
        0 <= i,
    ensures
        snake_pos(i, w) / w == i / w,
        snake_pos(i, w) % w == snake_col(i, w),
        snake_pos(i, w) - snake_col(i, w) == i - i % w,
        0 <= snake_pos(i, w),
        snake_pos(snake_pos(i, w), w) == i,
        0 <= i % w < w,
        i % w <= i,
{
    let q = i / w;
    let r = i % w;
    let x = snake_col(i, w);
    assert(i == w * q + r) by {
        vstd::arithmetic::div_mod::lemma_fundamental_div_mod(i, w);
    }
    vstd::arithmetic::div_mod::lemma_mod_pos_bound(i, w);
    vstd::arithmetic::div_mod::lemma_div_pos_is_pos(i, w);
    assert(0 <= w * q) by (nonlinear_arith)
        requires
            0 <= q,
            0 < w,
    ;
    assert(snake_pos(i, w) == w * q + x);
    lemma_fundamental_div_mod_converse(snake_pos(i, w), w, q, x);
}

/// In a `w` × `h` grid the scan position of every index lies in the grid.
pub proof fn lemma_snake_pos(i: int, w: int, h: int)
    requires
        0 < w,
        0 <= i < w * h,
    ensures
        0 <= snake_pos(i, w) < w * h,
        snake_pos(i, w) / w == i / w,
        snake_pos(i, w) % w == snake_col(i, w),
        snake_pos(snake_pos(i, w), w) == i,
        0 <= i % w <= i,
{
    lemma_snake_row(i, w);
    let q = i / w;
    let r = i % w;
    assert(i == w * q + r) by {
        vstd::arithmetic::div_mod::lemma_fundamental_div_mod(i, w);
    }
    assert(q < h) by (nonlinear_arith)
        requires
            i == w * q + r,
            0 <= r,
            i < w * h,
            0 < w,
    ;
    assert(w * q + w <= w * h) by (nonlinear_arith)
        requires
            q < h,
            0 < w,
    ;
}

/// Grid offset of scan index `i` in a grid of `height` rows of `width` pixels.
pub fn snake_offset(i: usize, width: usize, height: usize) -> (r: usize)
    requires
        width > 0,
        i < width * height,
        width * height <= usize::MAX,
    ensures
        r == snake_pos(i as int, width as int),
        r < width * height,
        r as int / width as int == i as int / width as int,
        r as int % width as int == snake_col(i as int, width as int),
{
    let y = i / width;
    let xr = i % width;
    proof {
        lemma_snake_pos(i as int, width as int, height as int);
    }
    if y % 2 == 0 {
        i
    } else {
        assert(xr <= i && xr < width);
        assert(snake_pos(i as int, width as int) == i - xr + (width - 1 - xr));
        i - xr + (width - 1 - xr)
    }
}

/// Smallest value in `s`, or `u16::MAX` for an empty sequence.
pub open spec fn seq_min(s: Seq<u16>) -> u16
    decreases s.len(),
{
    if s.len() == 0 {
        u16::MAX
    } else {
        let m = seq_min(s.drop_last());
        if s.last() < m { s.last() } else { m }
    }
}

/// Largest value in `s`, or `0` for an empty sequence.
pub open spec fn seq_max(s: Seq<u16>) -> u16
    decreases s.len(),
{
    if s.len() == 0 {
        0
    } else {
        let m = seq_max(s.drop_last());
        if s.last() > m { s.last() } else { m }
    }
}

/// The least and greatest pixel of `frame`.
pub fn get_dynamic_range(frame: &FrameData) -> (r: (u16, u16))
    ensures
        r == (seq_min(frame@.pixels), seq_max(frame@.pixels)),
{
    let data = frame.data();
    let mut mn: u16 = u16::MAX;
    let mut mx: u16 = 0;
    let mut i: usize = 0;
    while i < data.len()
        invariant
            i <= data@.len(),
            data@ == frame@.pixels,
            mn == seq_min(data@.subrange(0, i as int)),
            mx == seq_max(data@.subrange(0, i as int)),
        decreases data@.len() - i,
    {
        let v = data[i];
        assert(data@.subrange(0, i + 1).drop_last() =~= data@.subrange(0, i as int));
        if v < mn {
            mn = v;
        }
        if v > mx {
            mx = v;
        }
        i = i + 1;
    }
    assert(data@.subrange(0, data@.len() as int) =~= data@);
    (mn, mx)
}

/// What a frame's pixel grid holds.
pub ghost struct FrameView {
    pub pixels: Seq<u16>,
    pub width: nat,
    pub height: nat,
    pub min: u16,
    pub max: u16,
}

/// A `width` × `height` grid of 16-bit pixels, row by row, with the least and
/// greatest value written into it.
#[derive(Clone)]
pub struct FrameData {
    data: Vec<u16>,
    width: usize,
    height: usize,
    min: u16,
    max: u16,
}

impl View for FrameData {
    type V = FrameView;

    closed spec fn view(&self) -> FrameView {
        FrameView {
            pixels: self.data@,
            width: self.width as nat,
            height: self.height as nat,
            min: self.min,
            max: self.max,
        }
    }
}

impl FrameData {
    /// The grid holds exactly `width` × `height` pixels.
    pub open spec fn wf(&self) -> bool {
        self@.pixels.len() == self@.width * self@.height
    }

    /// An all-zero grid; nothing has been written, so the running minimum
    /// starts at `u16::MAX` and the maximum at `0`.
    pub fn with_dimensions(width: usize, height: usize) -> (r: FrameData)
        requires
            width * height <= usize::MAX,
        ensures
            r.wf(),
            r@.width == width,
            r@.height == height,
            r@.pixels == Seq::new((width * height) as nat, |i: int| 0u16),
            r@.min == u16::MAX,
            r@.max == 0,
    {
        let n = width * height;
        let data = vec![0u16; n];
        assert(data@ =~= Seq::new((width * height) as nat, |i: int| 0u16));
        FrameData { data, width, height, min: u16::MAX, max: 0 }
    }

    /// A grid holding `data`, with its least and greatest value.
    pub fn with_dimensions_and_data(width: usize, height: usize, data: &[u16]) -> (r: FrameData)
        requires
            data@.len() == width * height,
        ensures
            r.wf(),
            r@.width == width,
            r@.height == height,
            r@.pixels == data@,
            r@.min == seq_min(data@),
            r@.max == seq_max(data@),
    {
        let mut mn: u16 = u16::MAX;
        let mut mx: u16 = 0;
        let mut copy: Vec<u16> = Vec::new();
        let mut i: usize = 0;
        while i < data.len()
            invariant
                i <= data@.len(),
                copy@ == data@.subrange(0, i as int),
                mn == seq_min(data@.subrange(0, i as int)),
                mx == seq_max(data@.subrange(0, i as int)),
            decreases data@.len() - i,
        {
            let v = data[i];
            assert(data@.subrange(0, i + 1).drop_last() =~= data@.subrange(0, i as int));
            if v < mn {
                mn = v;
            }
            if v > mx {
                mx = v;
            }
            copy.push(v);
            i = i + 1;
            assert(copy@ =~= data@.subrange(0, i as int));
        }
        assert(data@.subrange(0, data@.len() as int) =~= data@);
        FrameData { data: copy, width, height, min: mn, max: mx }
    }

    pub fn min(&self) -> (r: u16)
        ensures
            r == self@.min,
    {
        self.min
    }

    pub fn max(&self) -> (r: u16)
        ensures
            r == self@.max,
    {
        self.max
    }

    pub fn width(&self) -> (r: usize)
        ensures
            r == self@.width,
    {
        self.width
    }

    pub fn height(&self) -> (r: usize)
        ensures
            r == self@.height,
    {
        self.height
    }

    pub fn data(&self) -> (r: &[u16])
        ensures
            r@ == self@.pixels,
    {
        self.data.as_slice()
    }

    /// Writes `val` at column `x` of row `y` and widens the running range.
    pub fn set(&mut self, x: usize, y: usize, val: u16)
        requires
            old(self).wf(),
            x < old(self)@.width,
            y < old(self)@.height,
        ensures
            final(self).wf(),
            final(self)@.width == old(self)@.width,
            final(self)@.height == old(self)@.height,
            final(self)@.pixels == old(self)@.pixels.update(
                y * old(self)@.width + x,
                val,
            ),
            final(self)@.min == if val < old(self)@.min { val } else { old(self)@.min },
            final(self)@.max == if val > old(self)@.max { val } else { old(self)@.max },
    {
        let n = self.data.len();
        proof {
            assert(y * self.width + x < self.width * self.height) by (nonlinear_arith)
                requires
                    x < self.width,
                    y < self.height,
            ;
        }
        if val > self.max {
            self.max = val;
        }
        if val < self.min {
            self.min = val;
        }
        let at = y * self.width + x;
        self.data.set(at, val);
    }

    /// The pixels as bytes, each pixel low byte first.
    pub fn as_slice(&self) -> (r: Vec<u8>)
        ensures
            r@.len() == 2 * self@.pixels.len(),
            forall|k: int|
                0 <= k < self@.pixels.len() ==> r@[2 * k] as int == self@.pixels[k] as int % 256
                    && r@[2 * k + 1] as int == self@.pixels[k] as int / 256,
    {
        let mut out: Vec<u8> = Vec::new();
        let mut i: usize = 0;
        while i < self.data.len()
            invariant
                i <= self.data@.len(),
                out@.len() == 2 * i,
                forall|k: int|
                    0 <= k < i ==> out@[2 * k] as int == self.data@[k] as int % 256 && out@[2 * k
                        + 1] as int == self.data@[k] as int / 256,
            decreases self.data@.len() - i,
        {
            let p = self.data[i];
            out.push((p % 256) as u8);
            out.push((p / 256) as u8);
            i = i + 1;
        }
        out
    }

    /// A grid of the same size whose pixel `k` is this grid's pixel
    /// `k + offset`, or zero past its end. Nothing is written through the
    /// running range, which starts afresh.
    pub fn offset(&self, offset: usize) -> (r: FrameData)
        requires
            self.wf(),
        ensures
            r.wf(),
            r@.width == self@.width,
            r@.height == self@.height,
            r@.pixels.len() == self@.pixels.len(),
            forall|k: int|
                0 <= k < r@.pixels.len() ==> #[trigger] r@.pixels[k] == if k + offset
                    < self@.pixels.len() {
                    self@.pixels[k + offset]
                } else {
                    0u16
                },
            r@.min == u16::MAX,
            r@.max == 0,
    {
        let n = self.data.len();
        let mut data: Vec<u16> = Vec::new();
        let mut k: usize = 0;
        while k < n
            invariant
                n == self.data@.len(),
                k <= n,
                data@.len() == k,
                forall|j: int|
                    0 <= j < k ==> #[trigger] data@[j] == if j + offset < n {
                        self.data@[j + offset]
                    } else {
                        0u16
                    },
            decreases n - k,
        {
            if offset < n - k {
                data.push(self.data[k + offset]);
            } else {
                data.push(0);
            }
            k = k + 1;
        }
        FrameData { data, width: self.width, height: self.height, min: u16::MAX, max: 0 }
    }

    /// The column of each pixel in snaking order: left to right on even
    /// rows, right to left on odd rows.
    pub fn snaking_iter(&self) -> (r: SnakingColumns)
        requires
            self.wf(),
        ensures
            r.wf(),
            r.total() == self@.pixels.len(),
            r.stride() == self@.width,
            r.index() == 0,
    {
        let n = self.data.len();
        assert(n == self.width * self.height);
        SnakingColumns { stride: self.width, rows: self.height, index: 0 }
    }
}

/// Yields the grid offsets of a frame in snaking order.
pub struct SnakingIterator {
    stride: usize,
    rows: usize,
    offset: usize,
}

impl SnakingIterator {
    /// How many offsets the scan yields in all.
    pub closed spec fn total(&self) -> nat {
        self.stride as nat * self.rows as nat
    }

    pub closed spec fn stride(&self) -> nat {
        self.stride as nat
    }

    /// How many offsets have been yielded.
    pub closed spec fn offset(&self) -> nat {
        self.offset as nat
    }

    pub closed spec fn wf(&self) -> bool {
        &&& self.stride * self.rows <= usize::MAX
        &&& self.offset <= self.stride * self.rows
    }

    pub fn new(frame: &FrameData) -> (r: SnakingIterator)
        requires
            frame.wf(),
        ensures
            r.wf(),
            r.total() == frame@.pixels.len(),
            r.stride() == frame@.width,
            r.offset() == 0,
    {
        let n = frame.data.len();
        assert(n == frame.width * frame.height);
        SnakingIterator { stride: frame.width, rows: frame.height, offset: 0 }
    }

    /// The grid offset at the next scan index, or `None` once every pixel
    /// has been visited.
    pub fn next(&mut self) -> (r: Option<usize>)
        requires
            old(self).wf(),
        ensures
            final(self).wf(),
            final(self).total() == old(self).total(),
            final(self).stride() == old(self).stride(),
            if old(self).offset() < old(self).total() {
                &&& r == Some(snake_pos(old(self).offset() as int, old(self).stride() as int) as usize)
                &&& final(self).offset() == old(self).offset() + 1
            } else {
                &&& r.is_none()
                &&& final(self).offset() == old(self).offset()
            },
    {
        if self.offset < self.stride * self.rows {
            assert(self.stride > 0) by (nonlinear_arith)
                requires
                    self.offset < self.stride * self.rows,
            ;
            let out = snake_offset(self.offset, self.stride, self.rows);
            self.offset = self.offset + 1;
            Some(out)
        } else {
            None
        }
    }
}

/// Yields the column of each scan index of a grid in snaking order.
pub struct SnakingColumns {
    stride: usize,
    rows: usize,
    index: usize,
}

impl SnakingColumns {
    /// How many columns the scan yields in all.
    pub closed spec fn total(&self) -> nat {
        self.stride as nat * self.rows as nat
    }

    pub closed spec fn stride(&self) -> nat {
        self.stride as nat
    }

    /// How many columns have been yielded.
    pub closed spec fn index(&self) -> nat {
        self.index as nat
    }

    pub closed spec fn wf(&self) -> bool {
        &&& self.stride * self.rows <= usize::MAX
        &&& self.index <= self.stride * self.rows
    }

    /// The column at the next scan index, or `None` once every pixel has
    /// been visited.
    pub fn next(&mut self) -> (r: Option<usize>)
        requires
            old(self).wf(),
        ensures
            final(self).wf(),
            final(self).total() == old(self).total(),
            final(self).stride() == old(self).stride(),
            if old(self).index() < old(self).total() {
                &&& r == Some(snake_col(old(self).index() as int, old(self).stride() as int) as usize)
                &&& final(self).index() == old(self).index() + 1
            } else {
                &&& r.is_none()
                &&& final(self).index() == old(self).index()
            },
    {
        if self.index < self.stride * self.rows {
            assert(self.stride > 0) by (nonlinear_arith)
                requires
                    self.index < self.stride * self.rows,
            ;
            let k = self.index;
            let y = k / self.stride;
            let xr = k % self.stride;
            let x = if y % 2 == 0 { xr } else { self.stride - 1 - xr };
            self.index = self.index + 1;
            Some(x)
        } else {
            None
        }
    }
}

} // verus!
