use vstd::prelude::*;

verus! {

/// True iff bit `i` (counting from the least significant end) of `b` is set.
pub open spec fn nth_bit(b: u8, i: usize) -> bool {
    b & (1u8 << i) != 0
}

/// `b` with bit `i` forced to `v` and every other bit unchanged.
pub open spec fn with_bit(b: u8, i: usize, v: bool) -> u8 {
    if v {
        b | (1u8 << i)
    } else {
        b & !(1u8 << i)
    }
}

/// The fewest bytes that can pack `w` one-bit pixels: the ceiling of `w / 8`.
pub open spec fn min_row_stride(w: int) -> int {
    (w + 7) / 8
}

/// `s` with the two byte blocks `[ps*a, ps*(a+1))` and `[ps*b, ps*(b+1))`
/// exchanged and every byte outside them unchanged.
pub open spec fn planes_swapped(s: Seq<u8>, ps: int, a: int, b: int) -> Seq<u8> {
    Seq::new(
        s.len(),
        |i: int|
            if ps * a <= i < ps * a + ps {
                s[ps * b + (i - ps * a)]
            } else if ps * b <= i < ps * b + ps {
                s[ps * a + (i - ps * b)]
            } else {
                s[i]
            },
    )
}

/// A packed binary image buffer holding `planes` full-resolution 1-bit-per-pixel
/// images over one contiguous byte region.
///
/// Layout: plane-major, then row-major, then MSB-first packed bits. The byte
/// holding pixel `(plane, x, y)` sits at `plane_stride*plane + row_stride*y + x/8`,
/// and the pixel is bit `7 - x%8` of that byte. Bits of a row byte beyond
/// `width` are padding with no defined meaning.
pub struct Bitplanes {
    width: usize,
    height: usize,
    planes: usize,
    plane_stride: usize,
    row_stride: usize,
    data: Vec<u8>,
}

impl Bitplanes {
    /// Pixel width of every plane.
    pub closed spec fn spec_width(self) -> usize {
        self.width
    }

    /// Pixel height of every plane.
    pub closed spec fn spec_height(self) -> usize {
        self.height
    }

    /// Number of bit-planes held.
    pub closed spec fn spec_planes(self) -> usize {
        self.planes
    }

    /// Bytes from the start of one pixel row to the start of the next.
    pub closed spec fn spec_row_stride(self) -> usize {
        self.row_stride
    }

    /// Bytes from the start of one plane to the start of the next.
    pub closed spec fn spec_plane_stride(self) -> usize {
        self.plane_stride
    }

    /// The raw storage bytes, in the layout documented on the type.
    pub closed spec fn bytes(self) -> Seq<u8> {
        self.data@
    }

    /// Validity of the geometry: every row fits in its stride, every plane
    /// fits in its stride, and the storage covers exactly all planes.
    pub closed spec fn wf(self) -> bool {
        &&& self.width <= 8 * (self.row_stride as int)
        &&& (self.row_stride as int) * (self.height as int) <= self.plane_stride as int
        &&& self.data@.len() == (self.plane_stride as int) * (self.planes as int)
    }

    /// Whether `(plane, x, y)` addresses a pixel of this buffer.
    pub open spec fn in_range(self, plane: int, x: int, y: int) -> bool {
        &&& 0 <= plane < self.spec_planes()
        &&& 0 <= x < self.spec_width()
        &&& 0 <= y < self.spec_height()
    }

    /// Index of the storage byte holding pixel `(plane, x, y)`.
    pub open spec fn byte_index(self, plane: int, x: int, y: int) -> int {
        (self.spec_plane_stride() as int) * plane + (self.spec_row_stride() as int) * y + x / 8
    }

    /// The logical value of pixel `(plane, x, y)`: MSB-first within its byte.
    pub open spec fn bit_at(self, plane: int, x: int, y: int) -> bool {
        nth_bit(self.bytes()[self.byte_index(plane, x, y)], (7 - x % 8) as usize)
    }

    /// Two buffers agree on width, height, plane count and both strides.
    pub open spec fn same_geometry(self, other: Self) -> bool {
        &&& self.spec_width() == other.spec_width()
        &&& self.spec_height() == other.spec_height()
        &&& self.spec_planes() == other.spec_planes()
        &&& self.spec_row_stride() == other.spec_row_stride()
        &&& self.spec_plane_stride() == other.spec_plane_stride()
    }

    pub fn width(&self) -> (r: usize)
        ensures
            r == self.spec_width(),
    {
        self.width
    }

    pub fn height(&self) -> (r: usize)
        ensures
            r == self.spec_height(),
    {
        self.height
    }

    pub fn planes(&self) -> (r: usize)
        ensures
            r == self.spec_planes(),
    {
        self.planes
    }

    pub fn row_stride(&self) -> (r: usize)
        ensures
            r == self.spec_row_stride(),
    {
        self.row_stride
    }

    pub fn plane_stride(&self) -> (r: usize)
        ensures
            r == self.spec_plane_stride(),
    {
        self.plane_stride
    }

    /// Byte and bit position of a pixel, per the layout documented on the type.
    fn calc_indices(&self, plane: usize, x: usize, y: usize) -> (r: (usize, usize))
        requires
            self.wf(),
            self.in_range(plane as int, x as int, y as int),
        ensures
            r.0 == self.byte_index(plane as int, x as int, y as int),
            r.0 < self.bytes().len(),
            r.1 == 7 - (x as int) % 8,
            r.1 < 8,
    {
        proof {
            lemma_byte_index_in_bounds(*self, plane as int, x as int, y as int);
        }
        let byte_idx = self.plane_stride * plane + self.row_stride * y + x / 8;
        let bit_idx = 7 - x % 8;
        (byte_idx, bit_idx)
    }

    /// Reads one pixel.
    pub fn get(&self, plane: usize, x: usize, y: usize) -> (r: bool)
        requires
            self.wf(),
            self.in_range(plane as int, x as int, y as int),
        ensures
            r == self.bit_at(plane as int, x as int, y as int),
    {
        let (byte_idx, bit_idx) = self.calc_indices(plane, x, y);
        (self.data[byte_idx] & (1u8 << bit_idx)) > 0
    }

    /// Bounds-checked read: the pixel's value for an in-range coordinate,
    /// `None` for a coordinate outside the buffer.
    pub fn try_get(&self, plane: usize, x: usize, y: usize) -> (r: Option<bool>)
        requires
            self.wf(),
        ensures
            self.in_range(plane as int, x as int, y as int) ==> r == Some(
                self.bit_at(plane as int, x as int, y as int),
            ),
            !self.in_range(plane as int, x as int, y as int) ==> r.is_none(),
    {
        if plane < self.planes && x < self.width && y < self.height {
            Some(self.get(plane, x, y))
        } else {
            None
        }
    }

    /// Bounds-checked write: writes the pixel and returns `true` for an
    /// in-range coordinate; leaves the buffer untouched and returns `false`
    /// for one outside it.
    pub fn try_set(&mut self, plane: usize, x: usize, y: usize, val: bool) -> (r: bool)
        requires
            old(self).wf(),
        ensures
            final(self).wf(),
            final(self).same_geometry(*old(self)),
            r == old(self).in_range(plane as int, x as int, y as int),
            r ==> final(self).bit_at(plane as int, x as int, y as int) == val,
            forall|p2: int, x2: int, y2: int|
                old(self).in_range(p2, x2, y2) && (p2, x2, y2) != (plane as int, x as int, y as int)
                    ==> final(self).bit_at(p2, x2, y2) == old(self).bit_at(p2, x2, y2),
            !r ==> final(self).bytes() == old(self).bytes(),
    {
        if plane < self.planes && x < self.width && y < self.height {
            self.set(plane, x, y, val);
            true
        } else {
            false
        }
    }

    /// Writes one pixel, leaving every other bit of the storage untouched.
    pub fn set(&mut self, plane: usize, x: usize, y: usize, val: bool)
        requires
            old(self).wf(),
            old(self).in_range(plane as int, x as int, y as int),
        ensures
            final(self).wf(),
            final(self).same_geometry(*old(self)),
            final(self).bit_at(plane as int, x as int, y as int) == val,
            forall|p2: int, x2: int, y2: int|
                old(self).in_range(p2, x2, y2) && (p2, x2, y2) != (plane as int, x as int, y as int)
                    ==> final(self).bit_at(p2, x2, y2) == old(self).bit_at(p2, x2, y2),
            final(self).bytes() == old(self).bytes().update(
                old(self).byte_index(plane as int, x as int, y as int),
                with_bit(
                    old(self).bytes()[old(self).byte_index(plane as int, x as int, y as int)],
                    (7 - (x as int) % 8) as usize,
                    val,
                ),
            ),
    {
        let (byte_idx, bit_idx) = self.calc_indices(plane, x, y);
        let b = self.data[byte_idx];
        let nb = if val {
            b | (1u8 << bit_idx)
        } else {
            b & !(1u8 << bit_idx)
        };
        self.data[byte_idx] = nb;
        proof {
            let pi = plane as int;
            let xi = x as int;
            let yi = y as int;
            let bi = old(self).byte_index(pi, xi, yi);
            lemma_with_bit_same(b, (7 - xi % 8) as usize, val);
            assert forall|p2: int, x2: int, y2: int|
                old(self).in_range(p2, x2, y2) && (p2, x2, y2) != (pi, xi, yi)
                implies final(self).bit_at(p2, x2, y2) == old(self).bit_at(p2, x2, y2) by {
                lemma_byte_index_in_bounds(*old(self), p2, x2, y2);
                if old(self).byte_index(p2, x2, y2) == bi {
                    if x2 % 8 == xi % 8 {
                        lemma_byte_index_injective(*old(self), p2, x2, y2, pi, xi, yi);
                        assert(false);
                    }
                    lemma_with_bit_other(b, (7 - xi % 8) as usize, (7 - x2 % 8) as usize, val);
                }
            }
        }
    }

    /// Builds a zero-filled buffer with explicitly chosen strides. The strides
    /// may pad each row or plane beyond the minimum the pixels need, which is
    /// how buffers of differing alignment policies arise.
    pub fn with_strides(
        planes: usize,
        width: usize,
        height: usize,
        row_stride: usize,
        plane_stride: usize,
    ) -> (r: Bitplanes)
        requires
            width <= 8 * (row_stride as int),
            (row_stride as int) * (height as int) <= plane_stride as int,
            (plane_stride as int) * (planes as int) <= usize::MAX,
        ensures
            r.wf(),
            r.spec_width() == width,
            r.spec_height() == height,
            r.spec_planes() == planes,
            r.spec_row_stride() == row_stride,
            r.spec_plane_stride() == plane_stride,
            r.bytes().len() == (plane_stride as int) * (planes as int),
            forall|i: int| 0 <= i < r.bytes().len() ==> r.bytes()[i] == 0u8,
            forall|p: int, x: int, y: int| r.in_range(p, x, y) ==> !r.bit_at(p, x, y),
    {
        let total = plane_stride * planes;
        let mut data: Vec<u8> = Vec::new();
        let mut i: usize = 0;
        while i < total
            invariant
                i <= total,
                data@.len() == i,
                forall|j: int| 0 <= j < i ==> data@[j] == 0u8,
            decreases total - i,
        {
            data.push(0u8);
            i += 1;
        }
        let r = Bitplanes { width, height, planes, plane_stride, row_stride, data };
        proof {
            assert forall|p: int, x: int, y: int| r.in_range(p, x, y) implies !r.bit_at(
                p,
                x,
                y,
            ) by {
                lemma_byte_index_in_bounds(r, p, x, y);
                vstd::arithmetic::div_mod::lemma_mod_division_less_than_divisor(x, 8);
                lemma_zero_byte((7 - x % 8) as usize);
            }
        }
        r
    }

    /// Allocates a zero-filled owned buffer with the tightest layout: the row
    /// stride is the fewest bytes that pack `width` bits and planes abut.
    /// Every pixel of the new buffer reads as `false`.
    pub fn new(planes: usize, width: usize, height: usize) -> (r: Bitplanes)
        requires
            width + 7 <= usize::MAX,
            min_row_stride(width as int) * (height as int) <= usize::MAX,
            min_row_stride(width as int) * (height as int) * (planes as int) <= usize::MAX,
        ensures
            r.wf(),
            r.spec_width() == width,
            r.spec_height() == height,
            r.spec_planes() == planes,
            r.spec_row_stride() == min_row_stride(width as int),
            r.spec_plane_stride() == min_row_stride(width as int) * (height as int),
            r.bytes().len() == (r.spec_plane_stride() as int) * (planes as int),
            forall|i: int| 0 <= i < r.bytes().len() ==> r.bytes()[i] == 0u8,
            forall|p: int, x: int, y: int| r.in_range(p, x, y) ==> !r.bit_at(p, x, y),
    {
        proof {
            lemma_min_row_stride(width as int);
        }
        let row_stride = (width + 7) / 8;
        let plane_stride = row_stride * height;
        Self::with_strides(planes, width, height, row_stride, plane_stride)
    }

    /// Sets every storage byte to `0xff` (for `true`) or `0x00` (for `false`),
    /// so every pixel — padding bits included — reads as `val` afterwards.
    pub fn fill(&mut self, val: bool)
        requires
            old(self).wf(),
        ensures
            final(self).wf(),
            final(self).same_geometry(*old(self)),
            final(self).bytes().len() == old(self).bytes().len(),
            forall|i: int|
                0 <= i < final(self).bytes().len() ==> final(self).bytes()[i] == (if val {
                    0xffu8
                } else {
                    0u8
                }),
            forall|p: int, x: int, y: int|
                old(self).in_range(p, x, y) ==> final(self).bit_at(p, x, y) == val,
    {
        let b: u8 = if val {
            255
        } else {
            0
        };
        let n = self.data.len();
        let mut i: usize = 0;
        while i < n
            invariant
                i <= n,
                n == self.data@.len(),
                self.width == old(self).width,
                self.height == old(self).height,
                self.planes == old(self).planes,
                self.row_stride == old(self).row_stride,
                self.plane_stride == old(self).plane_stride,
                b == (if val {
                    0xffu8
                } else {
                    0u8
                }),
                forall|j: int| 0 <= j < i ==> self.data@[j] == b,
            decreases n - i,
        {
            self.data[i] = b;
            i += 1;
        }
        proof {
            assert forall|p: int, x: int, y: int|
                old(self).in_range(p, x, y)
                implies final(self).bit_at(p, x, y) == val by {
                lemma_byte_index_in_bounds(*self, p, x, y);
                vstd::arithmetic::div_mod::lemma_mod_division_less_than_divisor(x, 8);
                if val {
                    lemma_full_byte((7 - x % 8) as usize);
                } else {
                    lemma_zero_byte((7 - x % 8) as usize);
                }
            }
        }
    }

    /// The whole storage region, read-only, in the documented layout. This is
    /// the byte region handed to the device collaborator.
    pub fn as_slice(&self) -> (r: &[u8])
        requires
            self.wf(),
        ensures
            r@ == self.bytes(),
            r@.len() == (self.spec_plane_stride() as int) * (self.spec_planes() as int),
    {
        self.data.as_slice()
    }

    /// The whole storage region, writable. Mutations through the slice land in
    /// this buffer's bytes; a slice write cannot change the length, so the
    /// geometry stays valid.
    pub fn as_slice_mut(&mut self) -> (r: &mut [u8])
        requires
            old(self).wf(),
        ensures
            r@ == old(self).bytes(),
            final(self).same_geometry(*old(self)),
            final(self).bytes() == final(r)@,
            final(r)@.len() == old(self).bytes().len() ==> final(self).wf(),
    {
        self.data.as_mut_slice()
    }

    /// A buffer over the planes `[range.start, range.end)` of this one: the
    /// same geometry per plane, holding exactly the bytes
    /// `[range.start * plane_stride, range.end * plane_stride)` of this
    /// storage, so each of its pixels reads as the parent pixel
    /// `range.start` planes further in.
    pub fn plane_range(&self, range: core::ops::Range<usize>) -> (r: Bitplanes)
        requires
            self.wf(),
            range.start <= range.end,
            range.end <= self.spec_planes(),
        ensures
            r.wf(),
            r.spec_width() == self.spec_width(),
            r.spec_height() == self.spec_height(),
            r.spec_row_stride() == self.spec_row_stride(),
            r.spec_plane_stride() == self.spec_plane_stride(),
            r.spec_planes() == range.end - range.start,
            r.bytes() == self.bytes().subrange(
                (self.spec_plane_stride() as int) * (range.start as int),
                (self.spec_plane_stride() as int) * (range.end as int),
            ),
            forall|p: int, x: int, y: int|
                r.in_range(p, x, y) ==> r.bit_at(p, x, y) == self.bit_at(
                    range.start + p,
                    x,
                    y,
                ),
    {
        proof {
            vstd::std_specs::vec::axiom_spec_len(&self.data);
            let ps = self.plane_stride as int;
            let s = range.start as int;
            let e = range.end as int;
            let n = self.planes as int;
            assert(0 <= s * ps <= e * ps <= n * ps && n * ps == ps * n && s * ps == ps * s && e
                * ps == ps * e) by (nonlinear_arith)
                requires
                    0 <= s <= e <= n,
                    0 <= ps,
            ;
        }
        let start = range.start * self.plane_stride;
        let end = range.end * self.plane_stride;
        let mut data: Vec<u8> = Vec::new();
        let mut i: usize = start;
        while i < end
            invariant
                start <= i <= end,
                end <= self.data@.len(),
                data@ == self.data@.subrange(start as int, i as int),
            decreases end - i,
        {
            data.push(self.data[i]);
            proof {
                assert(data@ =~= self.data@.subrange(start as int, i + 1));
            }
            i += 1;
        }
        let r = Bitplanes {
            width: self.width,
            height: self.height,
            planes: range.end - range.start,
            plane_stride: self.plane_stride,
            row_stride: self.row_stride,
            data,
        };
        proof {
            let ps = self.plane_stride as int;
            let s = range.start as int;
            let e = range.end as int;
            assert(s * ps == ps * s && e * ps == ps * e && ps * e - ps * s == ps * (e
                - s)) by (nonlinear_arith);
            assert forall|p: int, x: int, y: int|
                r.in_range(p, x, y)
                implies r.bit_at(p, x, y) == self.bit_at(s + p, x, y) by {
                lemma_byte_index_in_bounds(r, p, x, y);
                lemma_byte_index_in_bounds(*self, s + p, x, y);
                assert(ps * (s + p) == ps * s + ps * p) by (nonlinear_arith);
                assert(self.byte_index(s + p, x, y) == ps * s + r.byte_index(p, x, y));
            }
        }
        r
    }

    /// The single-plane buffer holding plane `n` of this one.
    pub fn plane(&self, n: usize) -> (r: Bitplanes)
        requires
            self.wf(),
            n < self.spec_planes(),
        ensures
            r.wf(),
            r.spec_width() == self.spec_width(),
            r.spec_height() == self.spec_height(),
            r.spec_row_stride() == self.spec_row_stride(),
            r.spec_plane_stride() == self.spec_plane_stride(),
            r.spec_planes() == 1,
            r.bytes() == self.bytes().subrange(
                (self.spec_plane_stride() as int) * (n as int),
                (self.spec_plane_stride() as int) * (n + 1),
            ),
            forall|x: int, y: int|
                0 <= x < r.spec_width() && 0 <= y < r.spec_height() ==> r.bit_at(0, x, y)
                    == self.bit_at(n as int, x, y),
    {
        self.plane_range(n..n + 1)
    }

    /// Splits into the buffer of planes `[0, p)` and the buffer of planes
    /// `[p, planes)`. The two parts cover disjoint byte regions whose
    /// concatenation, in order, is exactly this buffer's storage.
    pub fn split_at_plane(&self, p: usize) -> (r: (Bitplanes, Bitplanes))
        requires
            self.wf(),
            p <= self.spec_planes(),
        ensures
            r.0.wf(),
            r.1.wf(),
            r.0.spec_width() == self.spec_width(),
            r.0.spec_height() == self.spec_height(),
            r.0.spec_row_stride() == self.spec_row_stride(),
            r.0.spec_plane_stride() == self.spec_plane_stride(),
            r.0.spec_planes() == p,
            r.1.spec_width() == self.spec_width(),
            r.1.spec_height() == self.spec_height(),
            r.1.spec_row_stride() == self.spec_row_stride(),
            r.1.spec_plane_stride() == self.spec_plane_stride(),
            r.1.spec_planes() == self.spec_planes() - p,
            r.0.bytes() + r.1.bytes() == self.bytes(),
            forall|q: int, x: int, y: int|
                r.0.in_range(q, x, y) ==> r.0.bit_at(q, x, y) == self.bit_at(q, x, y),
            forall|q: int, x: int, y: int|
                r.1.in_range(q, x, y) ==> r.1.bit_at(q, x, y) == self.bit_at(p + q, x, y),
    {
        let head = self.plane_range(0..p);
        let tail = self.plane_range(p..self.planes);
        proof {
            let ps = self.plane_stride as int;
            let pi = p as int;
            let n = self.planes as int;
            assert(ps * 0 == 0) by (nonlinear_arith);
            assert(0 <= ps * pi <= ps * n) by (nonlinear_arith)
                requires
                    0 <= ps && 0 <= pi <= n,
            ;
            assert(self.bytes().len() == ps * n);
            let joined = head.bytes() + tail.bytes();
            assert forall|i: int| 0 <= i < self.bytes().len() implies joined[i]
                == self.bytes()[i] by {
                if i < ps * pi {
                    assert(joined[i] == head.bytes()[i]);
                    assert(head.bytes()[i] == self.bytes()[0 + i]);
                } else {
                    assert(joined[i] == tail.bytes()[i - ps * pi]);
                    assert(tail.bytes()[i - ps * pi] == self.bytes()[ps * pi + (i - ps * pi)]);
                }
            }
            assert(head.bytes() + tail.bytes() =~= self.bytes());
        }
        (head, tail)
    }

    /// Exchanges the full byte content of plane `p0` with plane `p1` in place,
    /// touching no byte outside the two plane blocks. Swapping a plane with
    /// itself is a caller logic error and is excluded outright.
    pub fn swap_planes(&mut self, p0: usize, p1: usize)
        requires
            old(self).wf(),
            p0 < old(self).spec_planes(),
            p1 < old(self).spec_planes(),
            p0 != p1,
        ensures
            final(self).wf(),
            final(self).same_geometry(*old(self)),
            final(self).bytes() == planes_swapped(
                old(self).bytes(),
                old(self).spec_plane_stride() as int,
                p0 as int,
                p1 as int,
            ),
            forall|p: int, x: int, y: int|
                old(self).in_range(p, x, y) ==> final(self).bit_at(p, x, y) == old(self).bit_at(
                    if p == p0 {
                        p1 as int
                    } else if p == p1 {
                        p0 as int
                    } else {
                        p
                    },
                    x,
                    y,
                ),
    {
        let (lo, hi) = if p0 < p1 {
            (p0, p1)
        } else {
            (p1, p0)
        };
        let ps = self.plane_stride;
        proof {
            vstd::std_specs::vec::axiom_spec_len(&self.data);
            let l = lo as int;
            let h = hi as int;
            let n = self.planes as int;
            let psi = ps as int;
            assert(0 <= l * psi && l * psi + psi <= h * psi && h * psi + psi <= n * psi && l * psi
                == psi * l && h * psi == psi * h && n * psi == psi * n) by (nonlinear_arith)
                requires
                    0 <= l < h < n,
                    0 <= psi,
            ;
        }
        let a = lo * ps;
        let b = hi * ps;
        let mut k: usize = 0;
        while k < ps
            invariant
                k <= ps,
                ps == self.plane_stride,
                a == lo * ps,
                b == hi * ps,
                a + ps <= b,
                b + ps <= self.data@.len(),
                self.data@.len() <= usize::MAX,
                self.data@.len() == old(self).data@.len(),
                self.width == old(self).width,
                self.height == old(self).height,
                self.planes == old(self).planes,
                self.row_stride == old(self).row_stride,
                self.plane_stride == old(self).plane_stride,
                forall|j: int|
                    0 <= j < self.data@.len() ==> self.data@[j] == (if a <= j < a + k {
                        old(self).data@[b + (j - a)]
                    } else if b <= j < b + k {
                        old(self).data@[a + (j - b)]
                    } else {
                        old(self).data@[j]
                    }),
            decreases ps - k,
        {
            let t = self.data[a + k];
            let u = self.data[b + k];
            self.data[a + k] = u;
            self.data[b + k] = t;
            k += 1;
        }
        proof {
            let psi = ps as int;
            let l = lo as int;
            let h = hi as int;
            assert(final(self).bytes() =~= planes_swapped(old(self).bytes(), psi, l, h));
            assert(planes_swapped(old(self).bytes(), psi, l, h) =~= planes_swapped(
                old(self).bytes(),
                psi,
                p0 as int,
                p1 as int,
            ));
            assert forall|p: int, x: int, y: int|
                old(self).in_range(p, x, y)
                implies final(self).bit_at(p, x, y) == old(self).bit_at(
                if p == p0 {
                    p1 as int
                } else if p == p1 {
                    p0 as int
                } else {
                    p
                },
                x,
                y,
            ) by {
                let rs = self.row_stride as int;
                let off = rs * y + x / 8;
                lemma_byte_index_in_bounds(*old(self), p, x, y);
                lemma_plane_block(psi, p, off, p0 as int);
                lemma_plane_block(psi, p, off, p1 as int);
                if p == p0 {
                    lemma_byte_index_in_bounds(*old(self), p1 as int, x, y);
                    assert(psi * (p1 as int) + (psi * p + off - psi * (p0 as int)) == psi * (
                    p1 as int) + off);
                } else if p == p1 {
                    lemma_byte_index_in_bounds(*old(self), p0 as int, x, y);
                    assert(psi * (p0 as int) + (psi * p + off - psi * (p1 as int)) == psi * (
                    p0 as int) + off);
                }
            }
        }
    }

    /// Overwrites every pixel with the generator's value for its coordinate.
    /// Each in-range coordinate is visited exactly once; the stored pixel is a
    /// value the generator may return for that coordinate, so a deterministic
    /// generator pins the buffer's content completely.
    pub fn fill_from_fn<F: Fn(usize, usize, usize) -> bool>(&mut self, f: F)
        requires
            old(self).wf(),
            forall|p: usize, x: usize, y: usize|
                old(self).in_range(p as int, x as int, y as int) ==> #[trigger] call_requires(f, (p, x, y)),
        ensures
            final(self).wf(),
            final(self).same_geometry(*old(self)),
            forall|p: usize, x: usize, y: usize|
                old(self).in_range(p as int, x as int, y as int) ==> #[trigger] call_ensures(
                    f,
                    (p, x, y),
                    final(self).bit_at(p as int, x as int, y as int),
                ),
    {
        let planes = self.planes;
        let height = self.height;
        let width = self.width;
        let mut p: usize = 0;
        while p < planes
            invariant
                p <= planes,
                self.wf(),
                self.same_geometry(*old(self)),
                planes == self.spec_planes(),
                height == self.spec_height(),
                width == self.spec_width(),
                forall|pp: usize, xx: usize, yy: usize|
                    old(self).in_range(pp as int, xx as int, yy as int) ==> #[trigger] call_requires(f, (pp, xx, yy)),
                forall|pp: usize, xx: usize, yy: usize|
                    pp < p && xx < width && yy < height ==> #[trigger] call_ensures(
                        f,
                        (pp, xx, yy),
                        self.bit_at(pp as int, xx as int, yy as int),
                    ),
            decreases planes - p,
        {
            let mut y: usize = 0;
            while y < height
                invariant
                    p < planes,
                    y <= height,
                    self.wf(),
                    self.same_geometry(*old(self)),
                    planes == self.spec_planes(),
                    height == self.spec_height(),
                    width == self.spec_width(),
                    forall|pp: usize, xx: usize, yy: usize|
                        old(self).in_range(pp as int, xx as int, yy as int) ==> #[trigger] call_requires(f, (pp, xx, yy)),
                    forall|pp: usize, xx: usize, yy: usize|
                        pp < p && xx < width && yy < height ==> #[trigger] call_ensures(
                            f,
                            (pp, xx, yy),
                            self.bit_at(pp as int, xx as int, yy as int),
                        ),
                    forall|xx: usize, yy: usize|
                        yy < y && xx < width ==> #[trigger] call_ensures(
                            f,
                            (p, xx, yy),
                            self.bit_at(p as int, xx as int, yy as int),
                        ),
                decreases height - y,
            {
                let mut x: usize = 0;
                while x < width
                    invariant
                        p < planes,
                        y < height,
                        x <= width,
                        self.wf(),
                        self.same_geometry(*old(self)),
                        planes == self.spec_planes(),
                        height == self.spec_height(),
                        width == self.spec_width(),
                        forall|pp: usize, xx: usize, yy: usize|
                            old(self).in_range(pp as int, xx as int, yy as int) ==> #[trigger] call_requires(f, (pp, xx, yy)),
                        forall|pp: usize, xx: usize, yy: usize|
                            pp < p && xx < width && yy < height ==> #[trigger] call_ensures(
                                f,
                                (pp, xx, yy),
                                self.bit_at(pp as int, xx as int, yy as int),
                            ),
                        forall|xx: usize, yy: usize|
                            yy < y && xx < width ==> #[trigger] call_ensures(
                                f,
                                (p, xx, yy),
                                self.bit_at(p as int, xx as int, yy as int),
                            ),
                        forall|xx: usize|
                            xx < x ==> #[trigger] call_ensures(
                                f,
                                (p, xx, y),
                                self.bit_at(p as int, xx as int, y as int),
                            ),
                    decreases width - x,
                {
                    let ghost prev = *self;
                    let v = f(p, x, y);
                    self.set(p, x, y, v);
                    proof {
                        assert forall|pp: usize, xx: usize, yy: usize|
                            prev.in_range(pp as int, xx as int, yy as int) && !(pp == p && xx == x
                                && yy == y)
                            implies #[trigger] self.bit_at(pp as int, xx as int, yy as int)
                                == prev.bit_at(pp as int, xx as int, yy as int) by {
                            assert((pp as int, xx as int, yy as int) != (
                            p as int,
                            x as int,
                            y as int,
                            ));
                        }
                        assert forall|pp: usize, xx: usize, yy: usize|
                            pp < p && xx < width && yy < height
                            implies #[trigger] call_ensures(
                            f,
                            (pp, xx, yy),
                            self.bit_at(pp as int, xx as int, yy as int),
                        ) by {
                            assert(call_ensures(
                                f,
                                (pp, xx, yy),
                                prev.bit_at(pp as int, xx as int, yy as int),
                            ));
                        }
                        assert forall|xx: usize, yy: usize|
                            yy < y && xx < width
                            implies #[trigger] call_ensures(
                            f,
                            (p, xx, yy),
                            self.bit_at(p as int, xx as int, yy as int),
                        ) by {
                            assert(call_ensures(
                                f,
                                (p, xx, yy),
                                prev.bit_at(p as int, xx as int, yy as int),
                            ));
                        }
                        assert forall|xx: usize|
                            xx < x + 1
                            implies #[trigger] call_ensures(
                            f,
                            (p, xx, y),
                            self.bit_at(p as int, xx as int, y as int),
                        ) by {
                            if xx < x {
                                assert(call_ensures(
                                    f,
                                    (p, xx, y),
                                    prev.bit_at(p as int, xx as int, y as int),
                                ));
                            }
                        }
                    }
                    x += 1;
                }
                y += 1;
            }
            p += 1;
        }
    }

    /// Builds an owned buffer with the tight layout of [`Bitplanes::new`] and
    /// every pixel set to the generator's value for its coordinate.
    pub fn from_fn<F: Fn(usize, usize, usize) -> bool>(
        planes: usize,
        width: usize,
        height: usize,
        f: F,
    ) -> (r: Bitplanes)
        requires
            width + 7 <= usize::MAX,
            min_row_stride(width as int) * (height as int) <= usize::MAX,
            min_row_stride(width as int) * (height as int) * (planes as int) <= usize::MAX,
            forall|p: usize, x: usize, y: usize|
                p < planes && x < width && y < height ==> #[trigger] call_requires(f, (p, x, y)),
        ensures
            r.wf(),
            r.spec_width() == width,
            r.spec_height() == height,
            r.spec_planes() == planes,
            r.spec_row_stride() == min_row_stride(width as int),
            r.spec_plane_stride() == min_row_stride(width as int) * (height as int),
            forall|p: usize, x: usize, y: usize|
                p < planes && x < width && y < height ==> #[trigger] call_ensures(
                    f,
                    (p, x, y),
                    r.bit_at(p as int, x as int, y as int),
                ),
    {
        let mut this = Self::new(planes, width, height);
        this.fill_from_fn(f);
        this
    }

    /// Copies every logical pixel of `other` into this buffer, which must have
    /// the same plane count, width and height. When both strides also match,
    /// the whole storage is copied in one pass and the result is byte-identical
    /// to the source, padding included; when only the row strides match, one
    /// pass per plane skips each side's plane padding; otherwise exactly the
    /// bytes that hold real pixels are copied row by row. In every case each
    /// pixel of this buffer afterwards reads as the corresponding pixel of
    /// `other`.
    pub fn copy_from(&mut self, other: &Bitplanes)
        requires
            old(self).wf(),
            other.wf(),
            old(self).spec_planes() == other.spec_planes(),
            old(self).spec_width() == other.spec_width(),
            old(self).spec_height() == other.spec_height(),
        ensures
            final(self).wf(),
            final(self).same_geometry(*old(self)),
            forall|p: int, x: int, y: int|
                old(self).in_range(p, x, y) ==> final(self).bit_at(p, x, y) == other.bit_at(
                    p,
                    x,
                    y,
                ),
            old(self).spec_plane_stride() == other.spec_plane_stride() && old(
                self,
            ).spec_row_stride() == other.spec_row_stride() ==> final(self).bytes()
                == other.bytes(),
    {
        proof {
            vstd::std_specs::vec::axiom_spec_len(&self.data);
            vstd::std_specs::vec::axiom_spec_len(&other.data);
        }
        if self.plane_stride == other.plane_stride && self.row_stride == other.row_stride {
            let n = self.data.len();
            copy_region(&mut self.data, 0, &other.data, 0, n);
            proof {
                assert(self.data@ =~= other.data@);
            }
        } else if self.row_stride == other.row_stride {
            let len = self.row_stride * self.height;
            let dps = self.plane_stride;
            let sps = other.plane_stride;
            let n = self.planes;
            let mut p: usize = 0;
            while p < n
                invariant
                    p <= n,
                    n == self.planes,
                    dps == self.plane_stride,
                    sps == other.plane_stride,
                    len == (self.row_stride as int) * (self.height as int),
                    len <= dps,
                    len <= sps,
                    self.data@.len() == (dps as int) * (n as int),
                    self.data@.len() <= usize::MAX,
                    other.data@.len() == (sps as int) * (n as int),
                    other.data@.len() <= usize::MAX,
                    self.width == old(self).width,
                    self.height == old(self).height,
                    self.planes == old(self).planes,
                    self.row_stride == old(self).row_stride,
                    self.plane_stride == old(self).plane_stride,
                    forall|q: int, k: int|
                        0 <= q < p && 0 <= k < len ==> #[trigger] self.data@[(dps as int) * q
                            + k] == other.data@[(sps as int) * q + k],
                decreases n - p,
            {
                let ghost prev = self.data@;
                proof {
                    let pi = p as int;
                    let di = dps as int;
                    let si = sps as int;
                    let ni = n as int;
                    assert((pi * di == di * pi) && (pi * si == si * pi) && 0 <= di * pi && di * pi
                        + len <= di * ni && 0 <= si * pi && si * pi + len <= si
                        * ni) by (nonlinear_arith)
                        requires
                            0 <= pi < ni,
                            0 <= di,
                            0 <= si,
                            len <= di,
                            len <= si,
                    ;
                }
                copy_region(&mut self.data, p * dps, &other.data, p * sps, len);
                proof {
                    let pi = p as int;
                    let di = dps as int;
                    let si = sps as int;
                    assert forall|q: int, k: int|
                        0 <= q < pi + 1 && 0 <= k < len
                        implies #[trigger] self.data@[di * q + k] == other.data@[si * q + k] by {
                        if q < pi {
                            assert(di * q + k < di * (q + 1) && di * (q + 1) <= di * pi && 0 <= di
                                * q) by (nonlinear_arith)
                                requires
                                    0 <= q < pi,
                                    0 <= k < len,
                                    len <= di,
                            ;
                            assert(self.data@[di * q + k] == prev[di * q + k]);
                        } else {
                            assert(0 <= k < len && di * pi <= di * q + k < di * pi + len);
                        }
                    }
                }
                p += 1;
            }
            proof {
                assert forall|p: int, x: int, y: int|
                    old(self).in_range(p, x, y)
                    implies final(self).bit_at(p, x, y) == other.bit_at(p, x, y) by {
                    lemma_byte_index_in_bounds(*self, p, x, y);
                    lemma_byte_index_in_bounds(*other, p, x, y);
                    let di = dps as int;
                    let si = sps as int;
                    let rs = self.row_stride as int;
                    let k = rs * y + x / 8;
                    assert(0 <= k < len);
                    assert(self.data@[di * p + k] == other.data@[si * p + k]);
                    assert(self.byte_index(p, x, y) == di * p + k);
                    assert(other.byte_index(p, x, y) == si * p + k);
                }
            }
        } else {
            let w = self.width;
            let lenrow = w / 8 + (if w % 8 == 0 {
                0
            } else {
                1
            });
            proof {
                lemma_ceil8_alt(w as int);
                lemma_min_row_stride(w as int);
                assert(8 * min_row_stride(w as int) <= 8 * (self.row_stride as int)
                    && 8 * min_row_stride(w as int) <= 8 * (other.row_stride as int))
                    by (nonlinear_arith)
                    requires
                        w <= 8 * (self.row_stride as int),
                        w <= 8 * (other.row_stride as int),
                        8 * min_row_stride(w as int) <= w + 7,
                        min_row_stride(w as int) * 8 == 8 * min_row_stride(w as int),
                ;
            }
            let drs = self.row_stride;
            let srs = other.row_stride;
            let dps = self.plane_stride;
            let sps = other.plane_stride;
            let h = self.height;
            let n = self.planes;
            let mut p: usize = 0;
            while p < n
                invariant
                    p <= n,
                    n == self.planes,
                    h == self.height,
                    w == self.width,
                    drs == self.row_stride,
                    srs == other.row_stride,
                    dps == self.plane_stride,
                    sps == other.plane_stride,
                    lenrow == min_row_stride(w as int),
                    lenrow <= drs,
                    lenrow <= srs,
                    (drs as int) * (h as int) <= dps as int,
                    (srs as int) * (h as int) <= sps as int,
                    self.data@.len() == (dps as int) * (n as int),
                    self.data@.len() <= usize::MAX,
                    other.data@.len() == (sps as int) * (n as int),
                    other.data@.len() <= usize::MAX,
                    self.width == old(self).width,
                    self.height == old(self).height,
                    self.planes == old(self).planes,
                    self.row_stride == old(self).row_stride,
                    self.plane_stride == old(self).plane_stride,
                    forall|q: int, yy: int, k: int|
                        0 <= q < p && 0 <= yy < h && 0 <= k < lenrow ==> #[trigger] self.data@[(
                        dps as int) * q + (drs as int) * yy + k] == other.data@[(sps as int) * q + (
                        srs as int) * yy + k],
                decreases n - p,
            {
                let mut y: usize = 0;
                while y < h
                    invariant
                        y <= h,
                        p < n,
                        n == self.planes,
                        h == self.height,
                        w == self.width,
                        drs == self.row_stride,
                        srs == other.row_stride,
                        dps == self.plane_stride,
                        sps == other.plane_stride,
                        lenrow == min_row_stride(w as int),
                        lenrow <= drs,
                        lenrow <= srs,
                        (drs as int) * (h as int) <= dps as int,
                        (srs as int) * (h as int) <= sps as int,
                        self.data@.len() == (dps as int) * (n as int),
                        self.data@.len() <= usize::MAX,
                        other.data@.len() == (sps as int) * (n as int),
                        other.data@.len() <= usize::MAX,
                        self.width == old(self).width,
                        self.height == old(self).height,
                        self.planes == old(self).planes,
                        self.row_stride == old(self).row_stride,
                        self.plane_stride == old(self).plane_stride,
                        forall|q: int, yy: int, k: int|
                            0 <= q < p && 0 <= yy < h && 0 <= k < lenrow ==> #[trigger] self.data@[(
                            dps as int) * q + (drs as int) * yy + k] == other.data@[(sps as int) * q
                                + (srs as int) * yy + k],
                        forall|yy: int, k: int|
                            0 <= yy < y && 0 <= k < lenrow ==> #[trigger] self.data@[(dps as int)
                                * (p as int) + (drs as int) * yy + k] == other.data@[(sps as int) * (
                            p as int) + (srs as int) * yy + k],
                    decreases h - y,
                {
                    let ghost prev = self.data@;
                    proof {
                        let pi = p as int;
                        let yi = y as int;
                        if lenrow > 0 {
                            lemma_row_offset(drs as int, h as int, dps as int, yi, lenrow - 1);
                            lemma_row_offset(srs as int, h as int, sps as int, yi, lenrow - 1);
                            lemma_plane_offset(dps as int, n as int, pi, (drs as int) * yi + lenrow
                                - 1);
                            lemma_plane_offset(sps as int, n as int, pi, (srs as int) * yi + lenrow
                                - 1);
                        }
                        assert((pi * (dps as int) == (dps as int) * pi) && (pi * (sps as int) == (
                        sps as int) * pi) && (yi * (drs as int) == (drs as int) * yi) && (yi
                            * (srs as int) == (srs as int) * yi) && 0 <= (dps as int) * pi && (
                        dps as int) * (pi + 1) <= (dps as int) * (n as int) && 0 <= (sps as int) * pi
                            && (sps as int) * (pi + 1) <= (sps as int) * (n as int) && 0 <= (
                        drs as int) * yi && (drs as int) * (yi + 1) <= (drs as int) * (h as int) && 0
                            <= (srs as int) * yi && (srs as int) * (yi + 1) <= (srs as int) * (
                        h as int) && (dps as int) * pi + (drs as int) * yi + lenrow <= (dps as int)
                            * (n as int) && (sps as int) * pi + (srs as int) * yi + lenrow <= (
                        sps as int) * (n as int)) by (nonlinear_arith)
                            requires
                                0 <= pi < n as int,
                                0 <= yi < h as int,
                                0 <= dps as int,
                                0 <= sps as int,
                                0 <= drs as int,
                                0 <= srs as int,
                                0 <= lenrow <= drs as int,
                                lenrow <= srs as int,
                                (drs as int) * (h as int) <= dps as int,
                                (srs as int) * (h as int) <= sps as int,
                        ;
                    }
                    copy_region(
                        &mut self.data,
                        p * dps + y * drs,
                        &other.data,
                        p * sps + y * srs,
                        lenrow,
                    );
                    proof {
                        let pi = p as int;
                        let yi = y as int;
                        let di = dps as int;
                        let si = sps as int;
                        let dr = drs as int;
                        let sr = srs as int;
                        let dst_off = di * pi + dr * yi;
                        assert forall|q: int, yy: int, k: int|
                            (0 <= q < pi && 0 <= yy < h && 0 <= k < lenrow) || (q == pi && 0 <= yy
                                < yi + 1 && 0 <= k < lenrow)
                            implies #[trigger] self.data@[di * q + dr * yy + k] == other.data@[si
                            * q + sr * yy + k] by {
                            if q == pi && yy == yi {
                                assert(dst_off <= di * q + dr * yy + k < dst_off + lenrow);
                            } else {
                                lemma_row_offset(dr, h as int, di, yy, k);
                                if q < pi {
                                    lemma_plane_offset(di, n as int, q, dr * yy + k);
                                    assert(di * (q + 1) <= di * pi) by (nonlinear_arith)
                                        requires
                                            q + 1 <= pi,
                                            0 <= di,
                                    ;
                                    assert(di * q + dr * yy + k < dst_off);
                                } else {
                                    assert(dr * (yy + 1) <= dr * yi) by (nonlinear_arith)
                                        requires
                                            yy + 1 <= yi,
                                            0 <= dr,
                                    ;
                                    assert(di * q + dr * yy + k < dst_off);
                                }
                                assert(self.data@[di * q + dr * yy + k] == prev[di * q + dr * yy
                                    + k]);
                            }
                        }
                    }
                    y += 1;
                }
                p += 1;
            }
            proof {
                assert forall|p: int, x: int, y: int|
                    old(self).in_range(p, x, y)
                    implies final(self).bit_at(p, x, y) == other.bit_at(p, x, y) by {
                    lemma_byte_index_in_bounds(*self, p, x, y);
                    lemma_byte_index_in_bounds(*other, p, x, y);
                    lemma_min_row_stride(w as int);
                    lemma_div8_lt(x, min_row_stride(w as int));
                    let di = dps as int;
                    let si = sps as int;
                    let dr = drs as int;
                    let sr = srs as int;
                    let k = x / 8;
                    assert(0 <= k < lenrow);
                    assert(self.data@[di * p + dr * y + k] == other.data@[si * p + sr * y + k]);
                    assert(self.byte_index(p, x, y) == di * p + dr * y + k);
                    assert(other.byte_index(p, x, y) == si * p + sr * y + k);
                }
            }
        }
    }

    /// A freshly allocated owned buffer with the same geometry and the same
    /// storage bytes as this one.
    pub fn to_owned(&self) -> (r: Bitplanes)
        requires
            self.wf(),
        ensures
            r.wf(),
            r.same_geometry(*self),
            r.bytes() == self.bytes(),
            forall|p: int, x: int, y: int|
                self.in_range(p, x, y) ==> r.bit_at(p, x, y) == self.bit_at(p, x, y),
    {
        let r = self.plane_range(0..self.planes);
        proof {
            let ps = self.plane_stride as int;
            let n = self.planes as int;
            assert(ps * 0 == 0) by (nonlinear_arith);
            assert(self.bytes().len() == ps * n);
            assert(r.bytes() == self.bytes().subrange(0, ps * n));
            assert(r.bytes() =~= self.bytes());
        }
        r
    }
}

/// Copies `len` bytes from `src` at `src_off` into `dst` at `dst_off`,
/// leaving every byte outside the destination window unchanged.
fn copy_region(dst: &mut Vec<u8>, dst_off: usize, src: &Vec<u8>, src_off: usize, len: usize)
    requires
        dst_off + len <= old(dst).len(),
        src_off + len <= src.len(),
    ensures
        final(dst)@.len() == old(dst)@.len(),
        forall|i: int|
            0 <= i < old(dst)@.len() ==> final(dst)@[i] == (if dst_off <= i < dst_off + len {
                src@[src_off + (i - dst_off)]
            } else {
                old(dst)@[i]
            }),
{
    let mut k: usize = 0;
    while k < len
        invariant
            k <= len,
            dst_off + len <= usize::MAX,
            src_off + len <= usize::MAX,
            dst_off + len <= dst@.len(),
            dst@.len() == old(dst)@.len(),
            src_off + len <= src@.len(),
            forall|i: int|
                0 <= i < dst@.len() ==> dst@[i] == (if dst_off <= i < dst_off + k {
                    src@[src_off + (i - dst_off)]
                } else {
                    old(dst)@[i]
                }),
        decreases len - k,
    {
        dst[dst_off + k] = src[src_off + k];
        k += 1;
    }
}

/// An `x` below `8 * m` packs into a byte index below `m`.
proof fn lemma_div8_lt(x: int, m: int)
    requires
        0 <= x,
        x < 8 * m,
    ensures
        x / 8 < m,
{
    vstd::arithmetic::div_mod::lemma_fundamental_div_mod(x, 8);
    vstd::arithmetic::div_mod::lemma_mod_division_less_than_divisor(x, 8);
}

/// The minimal row stride written without the `+ 7` that could exceed the
/// machine word: a full quotient plus one byte for a partial remainder.
proof fn lemma_ceil8_alt(w: int)
    requires
        0 <= w,
    ensures
        min_row_stride(w) == w / 8 + (if w % 8 == 0 {
            0int
        } else {
            1int
        }),
{
    vstd::arithmetic::div_mod::lemma_fundamental_div_mod(w, 8);
    vstd::arithmetic::div_mod::lemma_mod_division_less_than_divisor(w, 8);
    let q = w / 8;
    let r = w % 8;
    if r == 0 {
        vstd::arithmetic::div_mod::lemma_fundamental_div_mod_converse(w + 7, 8, q, 7);
    } else {
        vstd::arithmetic::div_mod::lemma_fundamental_div_mod_converse(w + 7, 8, q + 1, r - 1);
    }
}

/// A row offset within one plane stays under the plane stride, and grows with
/// the row index.
proof fn lemma_row_offset(rs: int, h: int, ps: int, y: int, k: int)
    by (nonlinear_arith)
    requires
        0 <= k < rs,
        0 <= y < h,
        rs * h <= ps,
    ensures
        0 <= rs * y,
        rs * y + k < rs * (y + 1),
        rs * (y + 1) <= rs * h,
        rs * y + k < ps,
{
}

/// A byte offset within one plane block stays under the next plane's block.
proof fn lemma_plane_offset(ps: int, n: int, q: int, o: int)
    by (nonlinear_arith)
    requires
        0 <= o < ps,
        0 <= q < n,
    ensures
        0 <= ps * q,
        ps * q + o < ps * (q + 1),
        ps * (q + 1) <= ps * n,
{
}

/// The byte at offset `off` of plane `p` lies in the block of plane `q`
/// exactly when `p` and `q` are the same plane.
proof fn lemma_plane_block(ps: int, p: int, off: int, q: int)
    by (nonlinear_arith)
    requires
        0 <= off < ps,
        0 <= p,
        0 <= q,
    ensures
        (ps * q <= ps * p + off < ps * q + ps) <==> p == q,
{
}

/// Exchanging the same two plane blocks twice restores the byte region
/// exactly, whatever it held.
pub proof fn lemma_planes_swapped_involutive(s: Seq<u8>, ps: int, a: int, b: int)
    requires
        0 <= ps,
        0 <= a,
        0 <= b,
        a != b,
        ps * a + ps <= s.len(),
        ps * b + ps <= s.len(),
    ensures
        planes_swapped(planes_swapped(s, ps, a, b), ps, a, b) == s,
{
    let t = planes_swapped(s, ps, a, b);
    assert(ps * a + ps <= ps * b || ps * b + ps <= ps * a) by (nonlinear_arith)
        requires
            0 <= ps,
            0 <= a,
            0 <= b,
            a != b,
    ;
    assert forall|i: int| 0 <= i < s.len() implies planes_swapped(t, ps, a, b)[i] == s[i] by {
        if ps * a <= i < ps * a + ps {
            assert(t[ps * b + (i - ps * a)] == s[i]);
        } else if ps * b <= i < ps * b + ps {
            assert(t[ps * a + (i - ps * b)] == s[i]);
        }
    }
    assert(planes_swapped(planes_swapped(s, ps, a, b), ps, a, b) =~= s);
}

/// Swapping the same two planes twice restores the buffer content exactly:
/// `b1` the buffer after one swap of `p0` and `p1` on `b0`, and `b2` the
/// buffer after the same swap on `b1`, hold the same bytes as `b0`.
pub proof fn lemma_swap_planes_twice_restores(
    b0: Bitplanes,
    b1: Bitplanes,
    b2: Bitplanes,
    p0: usize,
    p1: usize,
)
    requires
        b0.wf(),
        p0 < b0.spec_planes(),
        p1 < b0.spec_planes(),
        p0 != p1,
        b1.same_geometry(b0),
        b1.bytes() == planes_swapped(
            b0.bytes(),
            b0.spec_plane_stride() as int,
            p0 as int,
            p1 as int,
        ),
        b2.same_geometry(b1),
        b2.bytes() == planes_swapped(
            b1.bytes(),
            b1.spec_plane_stride() as int,
            p0 as int,
            p1 as int,
        ),
    ensures
        b2.bytes() == b0.bytes(),
{
    let ps = b0.spec_plane_stride() as int;
    let n = b0.spec_planes() as int;
    assert(ps * (p0 as int) + ps <= ps * n && ps * (p1 as int) + ps <= ps * n) by (nonlinear_arith)
        requires
            0 <= ps,
            (p0 as int) < n,
            (p1 as int) < n,
            0 <= p0 as int,
            0 <= p1 as int,
    ;
    lemma_planes_swapped_involutive(b0.bytes(), ps, p0 as int, p1 as int);
}

/// Forcing bit `i` of a byte to `v` makes bit `i` read back as `v`.
proof fn lemma_with_bit_same(b: u8, i: usize, v: bool)
    by (bit_vector)
    requires
        i < 8,
    ensures
        nth_bit(with_bit(b, i, v), i) == v,
{
}

/// Forcing bit `i` of a byte leaves every other bit `j` unchanged.
proof fn lemma_with_bit_other(b: u8, i: usize, j: usize, v: bool)
    by (bit_vector)
    requires
        i < 8,
        j < 8,
        i != j,
    ensures
        nth_bit(with_bit(b, i, v), j) == nth_bit(b, j),
{
}

/// Every bit of a zero byte reads as false.
proof fn lemma_zero_byte(i: usize)
    by (bit_vector)
    requires
        i < 8,
    ensures
        !nth_bit(0u8, i),
{
}

/// Every bit of a `0xff` byte reads as true.
proof fn lemma_full_byte(i: usize)
    by (bit_vector)
    requires
        i < 8,
    ensures
        nth_bit(0xffu8, i),
{
}

/// The minimal row stride for `w` pixels holds at least `w` bits and wastes
/// less than one byte.
proof fn lemma_min_row_stride(w: int)
    requires
        0 <= w,
    ensures
        0 <= min_row_stride(w),
        w <= 8 * min_row_stride(w),
        8 * min_row_stride(w) <= w + 7,
{
    vstd::arithmetic::div_mod::lemma_fundamental_div_mod(w + 7, 8);
    vstd::arithmetic::div_mod::lemma_mod_division_less_than_divisor(w + 7, 8);
}

/// The byte of an in-range pixel lies inside the storage, and its offset
/// within its plane lies inside one plane stride.
proof fn lemma_byte_index_in_bounds(b: Bitplanes, p: int, x: int, y: int)
    requires
        b.wf(),
        b.in_range(p, x, y),
    ensures
        0 <= b.byte_index(p, x, y) < b.bytes().len(),
        0 <= (b.spec_row_stride() as int) * y + x / 8 < b.spec_plane_stride() as int,
        x / 8 < b.spec_row_stride() as int,
        0 <= (b.spec_plane_stride() as int) * p,
        0 <= (b.spec_row_stride() as int) * y,
        (b.spec_row_stride() as int) * y + x / 8 < (b.spec_row_stride() as int) * (
        b.spec_height() as int),
        b.bytes().len() <= usize::MAX,
{
    vstd::std_specs::vec::axiom_spec_len(&b.data);
    let rs = b.spec_row_stride() as int;
    let ps = b.spec_plane_stride() as int;
    let w = b.spec_width() as int;
    let h = b.spec_height() as int;
    let n = b.spec_planes() as int;
    let q = x / 8;
    assert(8 * q <= x && x < 8 * (q + 1) && 0 <= q) by {
        vstd::arithmetic::div_mod::lemma_fundamental_div_mod(x, 8);
    }
    assert(q < rs);
    assert(0 <= rs * y && 0 <= rs * y + q < rs * h) by (nonlinear_arith)
        requires
            0 <= y < h,
            0 <= q < rs,
    ;
    assert(0 <= ps * p && 0 <= ps * p + (rs * y + q) < ps * n) by (nonlinear_arith)
        requires
            0 <= p < n,
            0 <= rs * y + q < ps,
    ;
    assert(rs * h <= ps);
}

/// Two in-range pixels that share a storage byte and a bit position within it
/// are the same pixel.
proof fn lemma_byte_index_injective(
    b: Bitplanes,
    p1: int,
    x1: int,
    y1: int,
    p2: int,
    x2: int,
    y2: int,
)
    requires
        b.wf(),
        b.in_range(p1, x1, y1),
        b.in_range(p2, x2, y2),
        b.byte_index(p1, x1, y1) == b.byte_index(p2, x2, y2),
        x1 % 8 == x2 % 8,
    ensures
        p1 == p2,
        x1 == x2,
        y1 == y2,
{
    let rs = b.spec_row_stride() as int;
    let ps = b.spec_plane_stride() as int;
    let q1 = x1 / 8;
    let q2 = x2 / 8;
    let o1 = rs * y1 + q1;
    let o2 = rs * y2 + q2;
    lemma_byte_index_in_bounds(b, p1, x1, y1);
    lemma_byte_index_in_bounds(b, p2, x2, y2);
    assert(p1 == p2 && o1 == o2) by (nonlinear_arith)
        requires
            ps * p1 + o1 == ps * p2 + o2,
            0 <= o1 < ps,
            0 <= o2 < ps,
    ;
    assert(y1 == y2 && q1 == q2) by (nonlinear_arith)
        requires
            rs * y1 + q1 == rs * y2 + q2,
            0 <= q1 < rs,
            0 <= q2 < rs,
    ;
    assert(x1 == x2) by {
        vstd::arithmetic::div_mod::lemma_fundamental_div_mod(x1, 8);
        vstd::arithmetic::div_mod::lemma_fundamental_div_mod(x2, 8);
    }
}

} // verus!
