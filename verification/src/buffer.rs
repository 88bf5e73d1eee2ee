use vstd::prelude::*;

use crate::color::Rgba;

verus! {

/// A width x height bitmap of RGBA samples stored as a flat byte row-major
/// array, four bytes per pixel.
pub struct PixelBuffer {
    width: u32,
    height: u32,
    data: Vec<u8>,
}

impl PixelBuffer {
    pub closed spec fn spec_width(&self) -> u32 {
        self.width
    }

    pub closed spec fn spec_height(&self) -> u32 {
        self.height
    }

    pub closed spec fn data(&self) -> Seq<u8> {
        self.data@
    }

    /// The byte array holds exactly four bytes per pixel.
    pub open spec fn wf(&self) -> bool {
        self.data().len() == self.spec_width() * self.spec_height() * 4
    }

    /// The sample at column `x` of row `y`.
    pub open spec fn pixel_at(&self, x: int, y: int) -> Rgba {
        let base = (y * self.spec_width() + x) * 4;
        Rgba {
            r: self.data()[base],
            g: self.data()[base + 1],
            b: self.data()[base + 2],
            a: self.data()[base + 3],
        }
    }

    /// The byte count, and so the pixel extent, of a well-formed bitmap is
    /// machine-representable.
    pub proof fn lemma_byte_len(&self)
        requires
            self.wf(),
        ensures
            self.spec_width() * self.spec_height() * 4 <= usize::MAX,
    {
        broadcast use vstd::std_specs::vec::axiom_spec_len;

        let l = vstd::std_specs::vec::spec_vec_len(&self.data);
        assert(l == self.data@.len());
    }

    /// Wraps a raw byte array as a bitmap; refused unless the length matches
    /// the dimensions exactly.
    pub fn from_raw(width: u32, height: u32, data: Vec<u8>) -> (r: Option<PixelBuffer>)
        ensures
            r is Some <==> data@.len() == width * height * 4,
            r matches Some(buf) ==> buf.wf() && buf.spec_width() == width && buf.spec_height()
                == height && buf.data() == data@,
    {
        proof {
            assert((width as int) * (height as int) * 4 < 340282366920938463463374607431768211455int)
                by (nonlinear_arith)
                requires
                    width <= 4294967295,
                    height <= 4294967295,
            ;
            assert((width as int) * (height as int) >= 0) by (nonlinear_arith)
                requires
                    width >= 0,
                    height >= 0,
            ;
        }
        let expected: u128 = width as u128 * height as u128 * 4;
        if data.len() as u128 == expected {
            Some(PixelBuffer { width, height, data })
        } else {
            None
        }
    }

    /// A fully transparent black bitmap of the given dimensions.
    pub fn zeroed(width: u32, height: u32) -> (buf: PixelBuffer)
        requires
            width * height * 4 <= usize::MAX,
        ensures
            buf.wf(),
            buf.spec_width() == width,
            buf.spec_height() == height,
            forall|i: int| 0 <= i < buf.data().len() ==> buf.data()[i] == 0,
    {
        proof {
            assert((width as int) * (height as int) >= 0) by (nonlinear_arith)
                requires
                    width >= 0,
                    height >= 0,
            ;
            assert((width as int) * (height as int) <= (width as int) * (height as int) * 4);
        }
        let total: usize = (width as usize) * (height as usize) * 4;
        let data = vec![0u8; total];
        PixelBuffer { width, height, data }
    }

    /// Hands the flat byte array back.
    pub fn into_raw(self) -> (data: Vec<u8>)
        ensures
            data@ == self.data(),
    {
        self.data
    }

    pub fn width(&self) -> (w: u32)
        ensures
            w == self.spec_width(),
    {
        self.width
    }

    pub fn height(&self) -> (h: u32)
        ensures
            h == self.spec_height(),
    {
        self.height
    }

    pub proof fn lemma_pixel_base_in_bounds(&self, x: int, y: int)
        requires
            self.wf(),
            0 <= x < self.spec_width(),
            0 <= y < self.spec_height(),
        ensures
            0 <= (y * self.spec_width() + x) * 4,
            (y * self.spec_width() + x) * 4 + 3 < self.data().len(),
    {
        let w = self.spec_width() as int;
        let h = self.spec_height() as int;
        assert(0 <= y * w + x && (y * w + x) * 4 + 3 < w * h * 4) by (nonlinear_arith)
            requires
                0 <= x < w,
                0 <= y < h,
        ;
    }

    /// Reads the sample at `(x, y)`.
    pub fn get_pixel(&self, x: u32, y: u32) -> (c: Rgba)
        requires
            self.wf(),
            x < self.spec_width(),
            y < self.spec_height(),
        ensures
            c == self.pixel_at(x as int, y as int),
    {
        proof {
            self.lemma_pixel_base_in_bounds(x as int, y as int);
            let pbase = (y as int) * (self.spec_width() as int) + (x as int);
            assert((y as int) * (self.spec_width() as int) >= 0) by (nonlinear_arith)
                requires
                    y >= 0,
                    self.spec_width() >= 0,
            ;
            assert(pbase <= pbase * 4 + 3);
        }
        let n_bytes = self.data.len();
        proof {
            assert(n_bytes == self.data().len());
        }
        let base: usize = (y as usize * self.width as usize + x as usize) * 4;
        Rgba {
            r: self.data[base],
            g: self.data[base + 1],
            b: self.data[base + 2],
            a: self.data[base + 3],
        }
    }

    /// Overwrites the sample at `(x, y)`, leaving every other sample as it
    /// was.
    pub fn set_pixel(&mut self, x: u32, y: u32, c: Rgba)
        requires
            old(self).wf(),
            x < old(self).spec_width(),
            y < old(self).spec_height(),
        ensures
            final(self).wf(),
            final(self).spec_width() == old(self).spec_width(),
            final(self).spec_height() == old(self).spec_height(),
            final(self).pixel_at(x as int, y as int) == c,
            forall|x2: int, y2: int|
                0 <= x2 < old(self).spec_width() && 0 <= y2 < old(self).spec_height() && !(x2
                    == x && y2 == y) ==> final(self).pixel_at(x2, y2) == old(self).pixel_at(
                    x2,
                    y2,
                ),
    {
        proof {
            self.lemma_pixel_base_in_bounds(x as int, y as int);
            let pbase = (y as int) * (self.spec_width() as int) + (x as int);
            assert((y as int) * (self.spec_width() as int) >= 0) by (nonlinear_arith)
                requires
                    y >= 0,
                    self.spec_width() >= 0,
            ;
            assert(pbase <= pbase * 4 + 3);
        }
        let n_bytes = self.data.len();
        proof {
            assert(n_bytes == self.data().len());
        }
        let base: usize = (y as usize * self.width as usize + x as usize) * 4;
        self.data[base] = c.r;
        self.data[base + 1] = c.g;
        self.data[base + 2] = c.b;
        self.data[base + 3] = c.a;
        proof {
            let w = self.spec_width() as int;
            let h = self.spec_height() as int;
            assert forall|x2: int, y2: int|
                0 <= x2 < w && 0 <= y2 < h && !(x2 == x && y2 == y) implies self.pixel_at(
                x2,
                y2,
            ) == old(self).pixel_at(x2, y2) by {
                assert(y2 * w + x2 != y as int * w + x as int) by (nonlinear_arith)
                    requires
                        0 <= x2 < w,
                        0 <= y2 < h,
                        0 <= (x as int) && (x as int) < w,
                        0 <= (y as int) && (y as int) < h,
                        !(x2 == x as int && y2 == y as int),
                ;
                let p2 = y2 * w + x2;
                let p1 = y as int * w + x as int;
                assert(p2 * 4 + 3 < w * h * 4 && 0 <= p2 * 4) by (nonlinear_arith)
                    requires
                        0 <= x2 < w,
                        0 <= y2 < h,
                        p2 == y2 * w + x2,
                ;
                assert(p2 * 4 + 4 <= p1 * 4 || p1 * 4 + 4 <= p2 * 4) by (nonlinear_arith)
                    requires
                        p1 != p2,
                ;
            }
        }
    }

    /// The samples of row `y` from column `x` on, at most `w` of them,
    /// clipped to the bitmap.
    pub open spec fn spec_row_pixels(&self, x: int, y: int, w: int) -> Seq<Rgba> {
        if 0 <= y < self.spec_height() && 0 <= x < self.spec_width() {
            let avail = self.spec_width() - x;
            let take_w = if w < avail {
                w
            } else {
                avail as int
            };
            let take_w2 = if take_w < 0 {
                0
            } else {
                take_w
            };
            Seq::new(take_w2 as nat, |dx: int| self.pixel_at(x + dx, y))
        } else {
            Seq::empty()
        }
    }

    /// The samples of the rectangle at `(x, y)` with extent `w` x `h`,
    /// row-major, clipped to the bitmap.
    pub open spec fn spec_rect_pixels(&self, x: int, y: int, w: int, h: int) -> Seq<Rgba>
        decreases h,
    {
        if h <= 0 {
            Seq::empty()
        } else {
            self.spec_rect_pixels(x, y, w, h - 1) + self.spec_row_pixels(x, y + h - 1, w)
        }
    }

    /// Collects the in-bounds samples of a rectangle, row-major.
    pub fn pixels_in_rect(&self, x: u32, y: u32, w: u32, h: u32) -> (out: Vec<Rgba>)
        requires
            self.wf(),
        ensures
            out@ == self.spec_rect_pixels(x as int, y as int, w as int, h as int),
    {
        let mut out: Vec<Rgba> = Vec::new();
        let mut dy: u32 = 0;
        while dy < h
            invariant
                dy <= h,
                self.wf(),
                out@ == self.spec_rect_pixels(x as int, y as int, w as int, dy as int),
            decreases h - dy,
        {
            let py: u64 = y as u64 + dy as u64;
            let ghost row = self.spec_row_pixels(x as int, py as int, w as int);
            if py < self.height as u64 && x < self.width {
                let avail: u32 = self.width - x;
                let max_dx: u32 = if w < avail {
                    w
                } else {
                    avail
                };
                let mut dx: u32 = 0;
                let ghost out_before = out@;
                while dx < max_dx
                    invariant
                        dx <= max_dx,
                        self.wf(),
                        x < self.spec_width(),
                        py < self.spec_height(),
                        py == y as int + dy as int,
                        max_dx as int == (if (w as int) < self.spec_width() - x {
                            w as int
                        } else {
                            self.spec_width() - x
                        }),
                        out@.len() == out_before.len() + dx,
                        forall|k: int| 0 <= k < out_before.len() ==> out@[k] == out_before[k],
                        forall|k: int|
                            0 <= k < dx ==> #[trigger] out@[out_before.len() + k]
                                == self.pixel_at(x + k, py as int),
                    decreases max_dx - dx,
                {
                    let px: u32 = x + dx;
                    out.push(self.get_pixel(px, py as u32));
                    dx = dx + 1;
                }
                proof {
                    assert(row.len() == max_dx);
                    assert forall|i: int| 0 <= i < out@.len() implies out@[i] == (out_before
                        + row)[i] by {
                        if i >= out_before.len() {
                            let k = i - out_before.len();
                            assert(out@[out_before.len() + k] == self.pixel_at(
                                x + k,
                                py as int,
                            ));
                        }
                    }
                    assert(out@ =~= out_before + row);
                }
            } else {
                proof {
                    assert(row =~= Seq::<Rgba>::empty());
                    assert(out@ =~= out@ + row);
                }
            }
            proof {
                assert(self.spec_rect_pixels(x as int, y as int, w as int, dy + 1)
                    == self.spec_rect_pixels(x as int, y as int, w as int, dy as int) + row);
            }
            dy = dy + 1;
        }
        out
    }
}

} // verus!
