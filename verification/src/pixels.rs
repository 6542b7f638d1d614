use vstd::prelude::*;

use memfd::Memfd;
use memmap2::MmapMut;

verus! {

/// `memfd::Memfd`, an anonymous memory file; carried through, never looked into.
#[verifier::external_type_specification]
#[verifier::external_body]
pub struct ExMemfd(Memfd);

/// `memmap2::MmapMut`, a writable memory map; its bytes are `mmap_bytes`.
#[verifier::external_type_specification]
#[verifier::external_body]
pub struct ExMmapMut(MmapMut);

/// The bytes that a writable memory map of `memmap2` holds, as its slice
/// shows them.
pub uninterp spec fn mmap_bytes(m: MmapMut) -> Seq<u8>;

/// `<memmap2::MmapMut as Deref>::deref`: the mapped bytes as a slice. Claimed:
/// the slice holds exactly the bytes that the map holds.
#[verifier::external_body]
fn mmap_slice(m: &MmapMut) -> (bytes: &[u8])
    ensures
        bytes@ == mmap_bytes(*m),
{
    &m[..]
}

/// `<memmap2::MmapMut as DerefMut>::deref_mut`, then a store of one byte
/// through that slice. Claimed: byte `i` becomes `b`, no other byte changes,
/// the map keeps its length, and an index inside the map cannot panic. Not
/// stated: that nothing outside this process writes to the shared memory; the
/// compositor that maps it only reads it.
#[verifier::external_body]
fn mmap_store(m: &mut MmapMut, i: usize, b: u8)
    requires
        i < mmap_bytes(*old(m)).len(),
    ensures
        mmap_bytes(*final(m)) == mmap_bytes(*old(m)).update(i as int, b),
    no_unwind
{
    m[i] = b;
}

/// A color with an alpha channel, stored in memory as ARGB8888 does on a
/// little-endian machine.
#[derive(Debug, Clone, Copy, PartialEq, Eq, Structural)]
pub struct Color {
    pub a: u8,
    pub r: u8,
    pub g: u8,
    pub b: u8,
}

/// The four bytes of a color in memory: blue, green, red, alpha.
pub open spec fn argb_bytes(c: Color) -> Seq<u8> {
    seq![c.b, c.g, c.r, c.a]
}

impl Color {
    pub fn new(r: u8, g: u8, b: u8, a: u8) -> (c: Self)
        ensures
            c == (Color { a, r, g, b }),
    {
        Self { r, g, b, a }
    }

    /// The bytes of the color as a pixel in memory.
    pub fn as_argb(&self) -> (bytes: [u8; 4])
        ensures
            bytes@ == argb_bytes(*self),
    {
        [self.b, self.g, self.r, self.a]
    }
}

/// What a pixel buffer holds: rows of `width` pixels of four bytes each.
pub struct PixelsView {
    pub width: nat,
    pub bytes: Seq<u8>,
}

impl PixelsView {
    pub open spec fn stride(self) -> nat {
        4 * self.width
    }

    pub open spec fn height(self) -> nat {
        self.bytes.len() / self.stride()
    }

    /// The column of the pixel that byte `i` belongs to.
    pub open spec fn column(self, i: int) -> int {
        (i / 4) % (self.width as int)
    }

    /// The row of the pixel that byte `i` belongs to.
    pub open spec fn row(self, i: int) -> int {
        (i / 4) / (self.width as int)
    }

    /// The bytes of the pixel at column `x` and row `y`.
    pub open spec fn pixel(self, x: int, y: int) -> Seq<u8> {
        self.bytes.subrange(4 * (x + y * self.width), 4 * (x + y * self.width) + 4)
    }

    /// Byte `i` belongs to a pixel of the rectangle `[x, x + w) x [y, y + h)`.
    pub open spec fn in_rect(self, i: int, x: int, y: int, w: int, h: int) -> bool {
        &&& x <= self.column(i) < x + w
        &&& y <= self.row(i) < y + h
    }

    /// A whole number of rows, with sizes that 32-bit arithmetic can hold.
    pub open spec fn wf(self) -> bool {
        &&& self.width > 0
        &&& self.stride() <= u32::MAX
        &&& self.bytes.len() <= u32::MAX
        &&& self.bytes.len() % self.stride() == 0
    }
}

/// `p` is the pixel at column `x` and row `y` of rows `w` pixels wide.
pub proof fn lemma_pixel_index(p: int, w: int, x: int, y: int)
    requires
        w > 0,
        0 <= x < w,
        p >= 0,
    ensures
        (p == x + y * w) <==> (p % w == x && p / w == y),
{
    if p == x + y * w {
        vstd::arithmetic::div_mod::lemma_fundamental_div_mod_converse(p, w, y, x);
    }
    vstd::arithmetic::div_mod::lemma_fundamental_div_mod(p, w);
    vstd::arithmetic::mul::lemma_mul_is_commutative(w, p / w);
}

/// Every byte of a buffer belongs to a pixel inside it.
pub proof fn lemma_byte_in_bounds(v: PixelsView, i: int)
    requires
        v.wf(),
        0 <= i < v.bytes.len(),
    ensures
        0 <= v.column(i) < v.width,
        0 <= v.row(i) < v.height(),
{
    let w = v.width as int;
    let hgt = v.height() as int;
    let len = v.bytes.len() as int;
    let p = i / 4;
    vstd::arithmetic::div_mod::lemma_fundamental_div_mod(len, 4 * w);
    assert(len == 4 * w * hgt) by (nonlinear_arith)
        requires
            len == (4 * w) * (len / (4 * w)) + len % (4 * w),
            len % (4 * w) == 0,
            hgt == len / (4 * w),
    ;
    assert(p < w * hgt) by (nonlinear_arith)
        requires
            p == i / 4,
            0 <= i < len,
            len == 4 * w * hgt,
    ;
    vstd::arithmetic::div_mod::lemma_fundamental_div_mod(p, w);
    assert(p / w < hgt) by (nonlinear_arith)
        requires
            p == w * (p / w) + p % w,
            0 <= p % w,
            p < w * hgt,
            w > 0,
    ;
}

/// The row `y` of a buffer lies inside it, so its bytes can be indexed with
/// 32-bit arithmetic.
proof fn lemma_row_fits(v: PixelsView, x: int, y: int)
    requires
        v.wf(),
        0 <= x < v.width,
        0 <= y < v.height(),
    ensures
        4 * x + y * v.stride() + 4 <= v.bytes.len(),
        4 * x + y * v.stride() == 4 * (x + y * v.width),
{
    let st = v.stride() as int;
    let len = v.bytes.len() as int;
    vstd::arithmetic::div_mod::lemma_fundamental_div_mod(len, st);
    assert((y + 1) * st <= len) by (nonlinear_arith)
        requires
            y + 1 <= len / st,
            len == st * (len / st) + len % st,
            0 <= len % st,
            st > 0,
    ;
    assert(4 * x + y * st + 4 <= len) by (nonlinear_arith)
        requires
            (y + 1) * st <= len,
            4 * x + 4 <= st,
    ;
    assert(y * st == 4 * (y * v.width)) by (nonlinear_arith)
        requires
            st == 4 * v.width,
    ;
}

/// A pixel buffer in shared memory, in the ARGB8888 format.
pub struct Pixels {
    mfd: Memfd,
    mmap: MmapMut,
    width: u32,
}

impl View for Pixels {
    type V = PixelsView;

    closed spec fn view(&self) -> PixelsView {
        PixelsView { width: self.width as nat, bytes: mmap_bytes(self.mmap) }
    }
}

impl Pixels {
    #[verifier::type_invariant]
    closed spec fn inv(self) -> bool {
        self@.wf()
    }

    /// The memory file that the buffer was made over.
    pub closed spec fn file(&self) -> Memfd {
        self.mfd
    }

    /// A buffer over the map `mmap` of the memory file `mfd`, with rows of
    /// `width` pixels.
    pub fn new(mfd: Memfd, mmap: MmapMut, width: u32) -> (p: Self)
        requires
            (PixelsView { width: width as nat, bytes: mmap_bytes(mmap) }).wf(),
        ensures
            p@ == (PixelsView { width: width as nat, bytes: mmap_bytes(mmap) }),
            p@.wf(),
            p.file() == mfd,
    {
        Self { mfd, mmap, width }
    }

    /// The bytes of the buffer, row after row.
    pub fn bytes(&self) -> (b: &[u8])
        ensures
            b@ == self@.bytes,
    {
        mmap_slice(&self.mmap)
    }

    /// A buffer over the map `mmap` of the memory file `mfd`, with rows of
    /// `width` pixels, when the map holds a whole number of such rows and its
    /// sizes fit in 32 bits; `None` otherwise.
    pub fn from_map(mfd: Memfd, mmap: MmapMut, width: u32) -> (p: Option<Self>)
        ensures
            p is Some <==> (PixelsView { width: width as nat, bytes: mmap_bytes(mmap) }).wf(),
            p matches Some(p) ==> p@ == (PixelsView { width: width as nat, bytes: mmap_bytes(mmap) })
                && p.file() == mfd,
    {
        let len = mmap_slice(&mmap).len();
        if width == 0 || width > u32::MAX / 4 || len > u32::MAX as usize {
            return None;
        }
        let stride = width as usize * 4;
        if len % stride != 0 {
            return None;
        }
        Some(Self::new(mfd, mmap, width))
    }

    /// The memory file that the buffer maps, to share with the compositor.
    pub fn memfd(&self) -> (m: &Memfd)
        ensures
            *m == self.file(),
    {
        &self.mfd
    }

    pub fn width(&self) -> (w: u32)
        ensures
            w == self@.width,
    {
        self.width
    }

    pub fn stride(&self) -> (s: u32)
        ensures
            s == self@.stride(),
    {
        proof {
            use_type_invariant(self);
        }
        self.width * 4
    }

    pub fn height(&self) -> (h: u32)
        ensures
            h == self@.height(),
            self@.wf(),
    {
        proof {
            use_type_invariant(self);
        }
        mmap_slice(&self.mmap).len() as u32 / self.stride()
    }

    /// The number of bytes in the buffer.
    pub fn size(&self) -> (n: u32)
        ensures
            n == self@.bytes.len(),
    {
        proof {
            use_type_invariant(self);
            vstd::arithmetic::div_mod::lemma_fundamental_div_mod(
                self@.bytes.len() as int,
                self@.stride() as int,
            );
            vstd::arithmetic::mul::lemma_mul_is_commutative(
                self@.stride() as int,
                self@.height() as int,
            );
        }
        self.height() * self.stride()
    }

    /// Paints the pixel at column `x` and row `y`, when it lies inside the
    /// buffer; says whether it did.
    pub fn set(&mut self, x: u32, y: u32, color: Color) -> (done: bool)
        ensures
            done == (x < old(self)@.width && y < old(self)@.height()),
            done ==> final(self)@.pixel(x as int, y as int) == argb_bytes(color),
            final(self)@.width == old(self)@.width,
            final(self).file() == old(self).file(),
            final(self)@.bytes.len() == old(self)@.bytes.len(),
            forall|i: int|
                0 <= i < old(self)@.bytes.len() ==> #[trigger] final(self)@.bytes[i] == if done
                    && old(self)@.column(i) == x && old(self)@.row(i) == y {
                    argb_bytes(color)[i % 4]
                } else {
                    old(self)@.bytes[i]
                },
    {
        proof {
            use_type_invariant(&*self);
        }
        if x >= self.width() || y >= self.height() {
            return false;
        }
        let ghost v = self@;
        proof {
            lemma_row_fits(v, x as int, y as int);
        }
        let index = x * 4 + y * self.stride();
        let index = index as usize;
        let bytes = color.as_argb();
        mmap_store(&mut self.mmap, index, bytes[0]);
        mmap_store(&mut self.mmap, index + 1, bytes[1]);
        mmap_store(&mut self.mmap, index + 2, bytes[2]);
        mmap_store(&mut self.mmap, index + 3, bytes[3]);
        proof {
            let p = x + y * v.width;
            assert(self@.pixel(x as int, y as int) =~= argb_bytes(color));
            assert forall|i: int| 0 <= i < v.bytes.len() implies #[trigger] self@.bytes[i] == if v.column(
                i,
            ) == x && v.row(i) == y {
                argb_bytes(color)[i % 4]
            } else {
                v.bytes[i]
            } by {
                lemma_pixel_index(i / 4, v.width as int, x as int, y as int);
                if index <= i < index + 4 {
                    assert(i / 4 == p);
                    assert(i % 4 == i - index);
                } else {
                    assert(i / 4 != p);
                }
            }
        }
        true
    }

    /// Paints every byte of the buffer with the bytes of `color` in turn.
    pub fn clear(&mut self, color: Color)
        ensures
            final(self)@.width == old(self)@.width,
            final(self).file() == old(self).file(),
            final(self)@.bytes.len() == old(self)@.bytes.len(),
            forall|i: int|
                0 <= i < old(self)@.bytes.len() ==> #[trigger] final(self)@.bytes[i] == argb_bytes(
                    color,
                )[i % 4],
    {
        proof {
            use_type_invariant(&*self);
        }
        let bytes = color.as_argb();
        let len = mmap_slice(&self.mmap).len();
        let ghost v = self@;
        let ghost f = self.file();
        let mut i: usize = 0;
        while i < len
            invariant
                0 <= i <= len,
                v.wf(),
                self.file() == f,
                len == v.bytes.len(),
                bytes@ == argb_bytes(color),
                self@.width == v.width,
                self@.bytes.len() == len,
                forall|j: int| 0 <= j < i ==> #[trigger] self@.bytes[j] == argb_bytes(color)[j % 4],
            decreases len - i,
        {
            mmap_store(&mut self.mmap, i, bytes[i % 4]);
            i = i + 1;
        }
    }

    /// Paints the pixels of the rectangle of `w` columns from `x` and `h` rows
    /// from `y` that lie inside the buffer.
    pub fn fill_rect(&mut self, x: u32, y: u32, w: u32, h: u32, color: Color)
        ensures
            final(self)@.width == old(self)@.width,
            final(self).file() == old(self).file(),
            final(self)@.bytes.len() == old(self)@.bytes.len(),
            forall|i: int|
                0 <= i < old(self)@.bytes.len() ==> #[trigger] final(self)@.bytes[i] == if old(
                    self,
                )@.in_rect(i, x as int, y as int, w as int, h as int) {
                    argb_bytes(color)[i % 4]
                } else {
                    old(self)@.bytes[i]
                },
    {
        proof {
            use_type_invariant(&*self);
        }
        let ghost v = self@;
        let ghost f = self.file();
        let width = self.width() as u64;
        let height = self.height() as u64;
        let x_end: u64 = if (x as u64) + (w as u64) < width {
            (x as u64) + (w as u64)
        } else {
            width
        };
        let y_end: u64 = if (y as u64) + (h as u64) < height {
            (y as u64) + (h as u64)
        } else {
            height
        };
        let mut row: u64 = y as u64;
        while row < y_end
            invariant
                v.wf(),
                width == v.width,
                height == v.height(),
                x_end <= width,
                y_end <= height,
                x_end == x + w || x_end == width,
                y_end == y + h || y_end == height,
                x_end < x + w ==> x_end == width,
                y_end < y + h ==> y_end == height,
                x_end <= x + w,
                y_end <= y + h,
                y <= row,
                row <= y_end || row == y,
                self.file() == f,
                self@.width == v.width,
                self@.bytes.len() == v.bytes.len(),
                forall|i: int|
                    0 <= i < v.bytes.len() ==> #[trigger] self@.bytes[i] == if v.in_rect(
                        i,
                        x as int,
                        y as int,
                        w as int,
                        row - y,
                    ) {
                        argb_bytes(color)[i % 4]
                    } else {
                        v.bytes[i]
                    },
            decreases y_end - row,
        {
            let mut col: u64 = x as u64;
            while col < x_end
                invariant
                    v.wf(),
                    width == v.width,
                    height == v.height(),
                    x_end <= width,
                    x_end == x + w || x_end == width,
                    x_end < x + w ==> x_end == width,
                    x_end <= x + w,
                    y <= row < y_end <= height,
                    x <= col,
                    col <= x_end || col == x,
                    self.file() == f,
                    self@.width == v.width,
                    self@.bytes.len() == v.bytes.len(),
                    forall|i: int|
                        0 <= i < v.bytes.len() ==> #[trigger] self@.bytes[i] == if v.in_rect(
                            i,
                            x as int,
                            y as int,
                            w as int,
                            row - y,
                        ) || (v.row(i) == row && x <= v.column(i) < col) {
                            argb_bytes(color)[i % 4]
                        } else {
                            v.bytes[i]
                        },
                decreases x_end - col,
            {
                let done = self.set(col as u32, row as u32, color);
                assert(done);
                col = col + 1;
            }
            proof {
                assert(col == x_end || (col == x && x_end <= x));
                assert forall|i: int| 0 <= i < v.bytes.len() implies #[trigger] self@.bytes[i]
                    == if v.in_rect(i, x as int, y as int, w as int, row + 1 - y) {
                    argb_bytes(color)[i % 4]
                } else {
                    v.bytes[i]
                } by {
                    lemma_byte_in_bounds(v, i);
                    let painted = v.in_rect(i, x as int, y as int, w as int, row - y) || (v.row(i)
                        == row && x <= v.column(i) < col);
                    assert(painted == v.in_rect(i, x as int, y as int, w as int, row + 1 - y));
                }
            }
            row = row + 1;
        }
        proof {
            assert forall|i: int| 0 <= i < v.bytes.len() implies #[trigger] self@.bytes[i] == if v.in_rect(
                i,
                x as int,
                y as int,
                w as int,
                h as int,
            ) {
                argb_bytes(color)[i % 4]
            } else {
                v.bytes[i]
            } by {
                lemma_byte_in_bounds(v, i);
            }
        }
    }
}

} // verus!
