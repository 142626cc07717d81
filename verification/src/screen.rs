//! The monochrome framebuffer, its device addressing, and the send protocol.
//!
//! A screen of width `W` (a multiple of 8) and height `H` owns `W*H/8` bytes.
//! Pixel `(x, y)` lives in byte `(x/8)*H + y`, at bit `x % 8` counted from the
//! most significant bit; a set bit is a lit pixel. Writes outside the canvas
//! are silent no-ops, so drawing code needs no bounds checks of its own.

use vstd::prelude::*;
use vstd::string::StringExecFns;

use crate::bits::{
    get_bit_at_index, lemma_byte_from_bits, lemma_set_bit, set_bit_at_index, spec_bit, spec_set_bit,
};
use crate::device::{HidAdapter, ScreenError};
use crate::packet::{
    chunk_at, chunk_byte, lemma_surviving_step, num_packets, packet_models, surviving, to_send,
    wire_of, DataPacket, PacketModel, PACKET_DATA_SIZE,
};

verus! {

/// The index of the byte that holds pixel `(x, y)` on a canvas of height
/// `height`.
pub open spec fn byte_addr(height: nat, x: nat, y: nat) -> int {
    ((x / 8) * height + y) as int
}

/// The bit (0 = most significant) that holds pixel `x` inside its byte.
pub open spec fn bit_in_byte(x: nat) -> u8 {
    (x % 8) as u8
}

/// Whether pixel `(x, y)` is lit in `data`.
pub open spec fn pixel_on(data: Seq<u8>, height: nat, x: nat, y: nat) -> bool {
    spec_bit(data[byte_addr(height, x, y)], bit_in_byte(x))
}

/// The buffer after writing `enabled` at `(x, y)`: out-of-range coordinates
/// leave it untouched.
pub open spec fn canvas_set(
    data: Seq<u8>,
    width: nat,
    height: nat,
    x: nat,
    y: nat,
    enabled: bool,
) -> Seq<u8> {
    if x < width && y < height {
        let a = byte_addr(height, x, y);
        data.update(a, spec_set_bit(data[a], bit_in_byte(x), enabled))
    } else {
        data
    }
}

/// An in-range pixel's byte lies inside the `width * height / 8` byte buffer.
pub proof fn lemma_addr_bounds(width: nat, height: nat, x: nat, y: nat)
    requires
        width % 8 == 0,
        x < width,
        y < height,
    ensures
        0 <= byte_addr(height, x, y),
        8 * byte_addr(height, x, y) + 8 <= width * height,
{
    let q = x / 8;
    let m = width / 8;
    assert(x == 8 * q + x % 8 && x % 8 < 8);
    assert(width == 8 * m);
    assert(q < m) by (nonlinear_arith)
        requires
            8 * q <= x,
            x < 8 * m,
    ;
    assert((q + 1) * height <= m * height) by (nonlinear_arith)
        requires
            q + 1 <= m,
            height >= 0,
    ;
    assert(8 * (q * height + y) + 8 <= 8 * ((q + 1) * height)) by (nonlinear_arith)
        requires
            y < height,
    ;
    assert(8 * (m * height) == (8 * m) * height) by (nonlinear_arith);
}

/// For a width that is a multiple of 8, the byte count `width * height / 8`
/// accounts for every bit.
pub proof fn lemma_bits_fit_bytes(width: nat, height: nat)
    requires
        width % 8 == 0,
    ensures
        8 * ((width * height) / 8) == width * height,
{
    let m = width / 8;
    assert(width == 8 * m);
    assert(width * height == 8 * (m * height)) by (nonlinear_arith)
        requires
            width == 8 * m,
    ;
    assert((8 * (m * height)) / 8 == m * height) by (nonlinear_arith);
}

/// Two distinct in-range pixels live in different bytes or at different bits.
pub proof fn lemma_addr_distinct(width: nat, height: nat, x1: nat, y1: nat, x2: nat, y2: nat)
    requires
        width % 8 == 0,
        x1 < width,
        y1 < height,
        x2 < width,
        y2 < height,
        !(x1 == x2 && y1 == y2),
    ensures
        byte_addr(height, x1, y1) != byte_addr(height, x2, y2) || bit_in_byte(x1) != bit_in_byte(
            x2,
        ),
{
    if byte_addr(height, x1, y1) == byte_addr(height, x2, y2) {
        let q1 = x1 / 8;
        let q2 = x2 / 8;
        assert(q1 == q2 && y1 == y2) by (nonlinear_arith)
            requires
                q1 * height + y1 == q2 * height + y2,
                y1 < height,
                y2 < height,
                q1 >= 0,
                q2 >= 0,
        ;
        assert(x1 == 8 * q1 + x1 % 8 && x2 == 8 * q2 + x2 % 8);
        assert(x1 % 8 != x2 % 8);
    }
}

/// Writing one in-range pixel changes that pixel to the written value and no
/// other pixel; the buffer keeps its length.
pub proof fn lemma_canvas_set_pixel(
    data: Seq<u8>,
    width: nat,
    height: nat,
    x: nat,
    y: nat,
    enabled: bool,
    x2: nat,
    y2: nat,
)
    requires
        width % 8 == 0,
        8 * data.len() == width * height,
        x2 < width,
        y2 < height,
    ensures
        canvas_set(data, width, height, x, y, enabled).len() == data.len(),
        x == x2 && y == y2 ==> pixel_on(canvas_set(data, width, height, x, y, enabled), height, x2, y2)
            == enabled,
        !(x == x2 && y == y2) ==> pixel_on(canvas_set(data, width, height, x, y, enabled), height, x2, y2)
            == pixel_on(data, height, x2, y2),
{
    lemma_addr_bounds(width, height, x2, y2);
    if x < width && y < height {
        lemma_addr_bounds(width, height, x, y);
        let a1 = byte_addr(height, x, y);
        let a2 = byte_addr(height, x2, y2);
        lemma_set_bit(data[a1], bit_in_byte(x), enabled);
        if !(x == x2 && y == y2) {
            lemma_addr_distinct(width, height, x, y, x2, y2);
        }
    }
}

/// Law: an in-range `set_pixel` followed by `get_pixel` at the same
/// coordinates returns the value just set.
pub proof fn lemma_set_then_get(
    data: Seq<u8>,
    width: nat,
    height: nat,
    x: nat,
    y: nat,
    enabled: bool,
)
    requires
        width % 8 == 0,
        8 * data.len() == width * height,
        x < width,
        y < height,
    ensures
        pixel_on(canvas_set(data, width, height, x, y, enabled), height, x, y) == enabled,
{
    lemma_canvas_set_pixel(data, width, height, x, y, enabled, x, y);
}

/// What painting the half-open rectangle `[min_x, max_x) x [min_y, max_y)`
/// with `enabled` does to a buffer: every in-range pixel inside the rectangle
/// carries `enabled`, every other in-range pixel is kept, and the byte count
/// is kept.
pub open spec fn paint_post(
    old_buf: Seq<u8>,
    new_buf: Seq<u8>,
    width: nat,
    height: nat,
    min_x: nat,
    min_y: nat,
    max_x: nat,
    max_y: nat,
    enabled: bool,
) -> bool {
    &&& new_buf.len() == old_buf.len()
    &&& forall|x: nat, y: nat|
        x < width && y < height ==> #[trigger] pixel_on(new_buf, height, x, y) == if min_x <= x
            < max_x && min_y <= y < max_y {
            enabled
        } else {
            pixel_on(old_buf, height, x, y)
        }
}

/// Two equally long buffers that agree on every in-range pixel are equal byte
/// for byte: every bit of every byte is some in-range pixel.
pub proof fn lemma_pixels_determine_bytes(d1: Seq<u8>, d2: Seq<u8>, width: nat, height: nat)
    requires
        width % 8 == 0,
        8 * d1.len() == width * height,
        d2.len() == d1.len(),
        forall|x: nat, y: nat|
            x < width && y < height ==> pixel_on(d1, height, x, y) == pixel_on(d2, height, x, y),
    ensures
        d1 == d2,
{
    let m = width / 8;
    assert(width == 8 * m);
    assert(d1.len() == m * height) by (nonlinear_arith)
        requires
            8 * d1.len() == (8 * m) * height,
    ;
    assert forall|b: int| 0 <= b < d1.len() implies d1[b] == d2[b] by {
        assert(height > 0) by (nonlinear_arith)
            requires
                0 < d1.len(),
                d1.len() == m * height,
        ;
        let q = b / (height as int);
        let yy = b % (height as int);
        vstd::arithmetic::div_mod::lemma_fundamental_div_mod(b, height as int);
        vstd::arithmetic::div_mod::lemma_mod_bound(b, height as int);
        assert(0 <= q) by (nonlinear_arith)
            requires
                b == (height as int) * q + yy,
                0 <= b,
                yy < height,
                height > 0,
        ;
        assert(q < m) by (nonlinear_arith)
            requires
                b == (height as int) * q + yy,
                b < m * height,
                0 <= yy,
                0 <= q,
                height > 0,
        ;
        assert forall|j: u8| j < 8 implies spec_bit(d1[b], j) == spec_bit(d2[b], j) by {
            let x = (8 * q + j) as nat;
            let y = yy as nat;
            assert(x < width);
            assert(x / 8 == q && x % 8 == j) by {
                vstd::arithmetic::div_mod::lemma_fundamental_div_mod_converse(
                    x as int,
                    8,
                    q,
                    j as int,
                );
            }
            assert(byte_addr(height, x, y) == b);
            assert(pixel_on(d1, height, x, y) == pixel_on(d2, height, x, y));
        }
        lemma_byte_from_bits(d1[b], d2[b]);
    }
    assert(d1 =~= d2);
}

/// Law: painting a rectangle a second time with the same arguments changes no
/// byte: the buffer after the second paint equals the buffer after the first.
pub proof fn lemma_paint_region_idempotent(
    d0: Seq<u8>,
    d1: Seq<u8>,
    d2: Seq<u8>,
    width: nat,
    height: nat,
    min_x: nat,
    min_y: nat,
    max_x: nat,
    max_y: nat,
    enabled: bool,
)
    requires
        width % 8 == 0,
        8 * d0.len() == width * height,
        paint_post(d0, d1, width, height, min_x, min_y, max_x, max_y, enabled),
        paint_post(d1, d2, width, height, min_x, min_y, max_x, max_y, enabled),
    ensures
        d2 == d1,
{
    assert forall|x: nat, y: nat|
        x < width && y < height implies pixel_on(d1, height, x, y) == pixel_on(
        d2,
        height,
        x,
        y,
    ) by {
        assert(pixel_on(d1, height, x, y) == if min_x <= x < max_x && min_y <= y < max_y {
            enabled
        } else {
            pixel_on(d0, height, x, y)
        });
    }
    lemma_pixels_determine_bytes(d1, d2, width, height);
}

/// The eight block glyphs of one byte, most significant bit first: a dark
/// block for a set bit, a light one for a clear bit.
pub open spec fn byte_glyphs(b: u8) -> Seq<char> {
    Seq::new(8, |j: int| if spec_bit(b, j as u8) { '▓' } else { '░' })
}

/// The text picture of `data` from byte `i` on, `bytes_per_row` bytes per
/// line, lines separated by a newline.
pub open spec fn render_chars(data: Seq<u8>, bytes_per_row: nat, i: nat) -> Seq<char>
    decreases data.len() - i,
{
    if i >= data.len() {
        Seq::empty()
    } else {
        let sep = if i > 0 && i % bytes_per_row == 0 {
            seq!['\n']
        } else {
            Seq::<char>::empty()
        };
        sep + byte_glyphs(data[i as int]) + render_chars(data, bytes_per_row, i + 1)
    }
}

/// The monochrome panel: a framebuffer, the baseline packet sequence of the
/// last send, and the device sink the reports go to.
pub struct OledScreen<D: HidAdapter> {
    width: usize,
    height: usize,
    data: Vec<u8>,
    prev_packets: Option<Vec<DataPacket>>,
    device: D,
}

impl<D: HidAdapter> OledScreen<D> {
    /// The framebuffer bytes.
    pub closed spec fn buf(&self) -> Seq<u8> {
        self.data@
    }

    /// The canvas width in pixels.
    pub closed spec fn spec_width(&self) -> nat {
        self.width as nat
    }

    /// The canvas height in pixels.
    pub closed spec fn spec_height(&self) -> nat {
        self.height as nat
    }

    /// The packet sequence of the last send, if one happened.
    pub closed spec fn baseline(&self) -> Option<Seq<PacketModel>> {
        match self.prev_packets {
            None => None,
            Some(v) => Some(v@.map_values(|p: DataPacket| p.model())),
        }
    }

    /// The byte blocks written to the device so far.
    pub closed spec fn device_log(&self) -> Seq<Seq<u8>> {
        self.device.log()
    }

    /// The width is a multiple of 8, the buffer holds one bit per pixel, and
    /// it fits the 256 packets a one-byte sequence index can address.
    pub closed spec fn wf(&self) -> bool {
        &&& self.width % 8 == 0
        &&& 8 * self.buf().len() == self.width * self.height
        &&& self.buf().len() <= 256 * PACKET_DATA_SIZE
    }

    /// What a well-formed screen guarantees of its dimensions and buffer, for
    /// callers outside this module.
    pub proof fn lemma_wf_shape(&self)
        requires
            self.wf(),
        ensures
            self.spec_width() % 8 == 0,
            self.spec_width() <= usize::MAX,
            self.spec_height() <= usize::MAX,
            8 * self.buf().len() == self.spec_width() * self.spec_height(),
            self.buf().len() <= 256 * PACKET_DATA_SIZE,
    {
    }

    /// Builds a screen over an already-open device sink, with every pixel off
    /// and no baseline, so the first send transmits the whole frame.
    pub fn from_device(device: D, width: usize, height: usize) -> (r: Result<
        OledScreen<D>,
        ScreenError,
    >)
        requires
            width % 8 == 0,
            width * height <= 8 * 256 * PACKET_DATA_SIZE,
        ensures
            r matches Ok(s) && s.wf() && s.spec_width() == width && s.spec_height() == height
                && s.baseline() is None && s.device_log() == device.log() && s.buf().len() == width
                * height / 8 && (forall|i: int| 0 <= i < s.buf().len() ==> s.buf()[i] == 0),
    {
        proof {
            assert(PACKET_DATA_SIZE == 30);
            lemma_bits_fit_bytes(width as nat, height as nat);
        }
        let len = (width * height) / 8;
        Ok(OledScreen { width, height, data: vec![0u8; len], prev_packets: None, device })
    }

    /// The canvas width in pixels.
    pub fn width(&self) -> (r: usize)
        ensures
            r == self.spec_width(),
    {
        self.width
    }

    /// The canvas height in pixels.
    pub fn height(&self) -> (r: usize)
        ensures
            r == self.spec_height(),
    {
        self.height
    }

    /// A borrow of the framebuffer bytes.
    pub fn buffer(&self) -> (r: &Vec<u8>)
        ensures
            r@ == self.buf(),
    {
        &self.data
    }

    /// A borrow of the device sink.
    pub fn device(&self) -> (r: &D)
        ensures
            r.log() == self.device_log(),
    {
        &self.device
    }

    /// Writes `enabled` at `(x, y)`; coordinates outside the canvas are
    /// silently ignored, and nothing else changes.
    pub fn set_pixel(&mut self, x: usize, y: usize, enabled: bool)
        requires
            old(self).wf(),
        ensures
            final(self).wf(),
            final(self).spec_width() == old(self).spec_width(),
            final(self).spec_height() == old(self).spec_height(),
            final(self).baseline() == old(self).baseline(),
            final(self).device_log() == old(self).device_log(),
            final(self).buf() == canvas_set(
                old(self).buf(),
                old(self).spec_width(),
                old(self).spec_height(),
                x as nat,
                y as nat,
                enabled,
            ),
            x >= old(self).spec_width() || y >= old(self).spec_height() ==> final(self).buf()
                == old(self).buf(),
    {
        if x >= self.width || y >= self.height {
            return ;
        }
        proof {
            lemma_addr_bounds(self.width as nat, self.height as nat, x as nat, y as nat);
        }
        let target_byte = (x / 8) * self.height + y;
        let target_bit = (x % 8) as u8;
        let updated = set_bit_at_index(self.data[target_byte], target_bit, enabled);
        self.data[target_byte] = updated;
    }

    /// Reads the pixel at in-range coordinates `(x, y)`.
    pub fn get_pixel(&self, x: usize, y: usize) -> (r: bool)
        requires
            self.wf(),
            x < self.spec_width(),
            y < self.spec_height(),
        ensures
            r == pixel_on(self.buf(), self.spec_height(), x as nat, y as nat),
    {
        proof {
            lemma_addr_bounds(self.width as nat, self.height as nat, x as nat, y as nat);
        }
        let byte_index = (x / 8) * self.height + y;
        let bit_index = (x % 8) as u8;
        get_bit_at_index(self.data[byte_index], bit_index)
    }

    /// Turns every pixel off.
    pub fn clear(&mut self)
        requires
            old(self).wf(),
        ensures
            final(self).wf(),
            final(self).spec_width() == old(self).spec_width(),
            final(self).spec_height() == old(self).spec_height(),
            final(self).baseline() == old(self).baseline(),
            final(self).device_log() == old(self).device_log(),
            final(self).buf().len() == old(self).buf().len(),
            forall|i: int| 0 <= i < final(self).buf().len() ==> final(self).buf()[i] == 0,
            forall|x: nat, y: nat|
                x < final(self).spec_width() && y < final(self).spec_height() ==> !pixel_on(
                    final(self).buf(),
                    final(self).spec_height(),
                    x,
                    y,
                ),
    {
        let len = (self.width * self.height) / 8;
        self.data = vec![0u8; len];
        proof {
            assert forall|x: nat, y: nat|
                x < self.spec_width() && y < self.spec_height() implies !pixel_on(
                self.buf(),
                self.spec_height(),
                x,
                y,
            ) by {
                lemma_addr_bounds(self.spec_width(), self.spec_height(), x, y);
                let j = bit_in_byte(x);
                assert(j < 8 ==> !spec_bit(0u8, j)) by (bit_vector);
            }
        }
    }

    /// Turns every pixel on: every byte becomes 0xFF.
    pub fn fill_all(&mut self)
        requires
            old(self).wf(),
        ensures
            final(self).wf(),
            final(self).spec_width() == old(self).spec_width(),
            final(self).spec_height() == old(self).spec_height(),
            final(self).baseline() == old(self).baseline(),
            final(self).device_log() == old(self).device_log(),
            final(self).buf().len() == old(self).buf().len(),
            forall|i: int| 0 <= i < final(self).buf().len() ==> final(self).buf()[i] == 0xFF,
            forall|x: nat, y: nat|
                x < final(self).spec_width() && y < final(self).spec_height() ==> pixel_on(
                    final(self).buf(),
                    final(self).spec_height(),
                    x,
                    y,
                ),
    {
        let len = (self.width * self.height) / 8;
        self.data = vec![0xFFu8; len];
        proof {
            assert forall|x: nat, y: nat|
                x < self.spec_width() && y < self.spec_height() implies pixel_on(
                self.buf(),
                self.spec_height(),
                x,
                y,
            ) by {
                lemma_addr_bounds(self.spec_width(), self.spec_height(), x, y);
                let j = bit_in_byte(x);
                assert(j < 8 ==> spec_bit(0xFFu8, j)) by (bit_vector);
            }
        }
    }

    /// Writes `enabled` at every coordinate of the half-open rectangle
    /// `[min_x, max_x) x [min_y, max_y)`; the parts outside the canvas are
    /// silently clipped.
    pub fn paint_region(
        &mut self,
        min_x: usize,
        min_y: usize,
        max_x: usize,
        max_y: usize,
        enabled: bool,
    )
        requires
            old(self).wf(),
        ensures
            final(self).wf(),
            final(self).spec_width() == old(self).spec_width(),
            final(self).spec_height() == old(self).spec_height(),
            final(self).baseline() == old(self).baseline(),
            final(self).device_log() == old(self).device_log(),
            paint_post(
                old(self).buf(),
                final(self).buf(),
                old(self).spec_width(),
                old(self).spec_height(),
                min_x as nat,
                min_y as nat,
                max_x as nat,
                max_y as nat,
                enabled,
            ),
    {
        let ghost w = old(self).spec_width();
        let ghost h = old(self).spec_height();
        let mut x = min_x;
        while x < max_x
            invariant
                self.wf(),
                self.spec_width() == w,
                self.spec_height() == h,
                self.baseline() == old(self).baseline(),
                self.device_log() == old(self).device_log(),
                min_x <= x,
                x <= max_x || x == min_x,
                self.buf().len() == old(self).buf().len(),
                forall|px: nat, py: nat|
                    px < w && py < h ==> #[trigger] pixel_on(self.buf(), h, px, py) == if min_x
                        <= px < x && min_y <= py < max_y {
                        enabled
                    } else {
                        pixel_on(old(self).buf(), h, px, py)
                    },
            decreases max_x - x,
        {
            let mut y = min_y;
            let ghost col_start = self.buf();
            while y < max_y
                invariant
                    self.wf(),
                    self.spec_width() == w,
                    self.spec_height() == h,
                    self.baseline() == old(self).baseline(),
                    self.device_log() == old(self).device_log(),
                    min_y <= y,
                    y <= max_y || y == min_y,
                    x < max_x,
                    self.buf().len() == col_start.len(),
                    forall|px: nat, py: nat|
                        px < w && py < h ==> #[trigger] pixel_on(self.buf(), h, px, py) == if px
                            == x && min_y <= py < y {
                            enabled
                        } else {
                            pixel_on(col_start, h, px, py)
                        },
                decreases max_y - y,
            {
                let ghost before = self.buf();
                self.set_pixel(x, y, enabled);
                proof {
                    assert forall|px: nat, py: nat| px < w && py < h implies #[trigger] pixel_on(
                        self.buf(),
                        h,
                        px,
                        py,
                    ) == if px == x && min_y <= py < y + 1 {
                        enabled
                    } else {
                        pixel_on(col_start, h, px, py)
                    } by {
                        lemma_canvas_set_pixel(before, w, h, x as nat, y as nat, enabled, px, py);
                    }
                }
                y += 1;
            }
            proof {
                assert forall|px: nat, py: nat| px < w && py < h implies #[trigger] pixel_on(
                    self.buf(),
                    h,
                    px,
                    py,
                ) == if min_x <= px < x + 1 && min_y <= py < max_y {
                    enabled
                } else {
                    pixel_on(old(self).buf(), h, px, py)
                } by {
                    assert(pixel_on(self.buf(), h, px, py) == if px == x && min_y <= py < y {
                        enabled
                    } else {
                        pixel_on(col_start, h, px, py)
                    });
                }
            }
            x += 1;
        }
    }

    /// Derives the full report sequence for the current framebuffer: the
    /// bytes chunked into `PACKET_DATA_SIZE`-byte payloads, the last one
    /// zero-padded, each with its 0-based sequence index in emission order.
    pub fn to_packets(&self) -> (r: Vec<DataPacket>)
        requires
            self.wf(),
        ensures
            r@.len() == num_packets(self.buf().len()),
            r@.map_values(|p: DataPacket| p.model()) == packet_models(self.buf()),
            forall|k: int| 0 <= k < r@.len() ==> (#[trigger] r@[k]).wf(),
    {
        let len = self.data.len();
        let n = (len + PACKET_DATA_SIZE - 1) / PACKET_DATA_SIZE;
        let mut packets: Vec<DataPacket> = Vec::new();
        let mut c: usize = 0;
        while c < n
            invariant
                self.wf(),
                len == self.buf().len(),
                n == num_packets(len as nat),
                n <= 256,
                c <= n,
                packets@.len() == c,
                forall|k: int|
                    0 <= k < c ==> (#[trigger] packets@[k]).wf() && packets@[k].model() == (
                    (k as u8),
                    chunk_at(self.buf(), k),
                ),
            decreases n - c,
        {
            let mut chunk: Vec<u8> = Vec::new();
            let mut j: usize = 0;
            while j < PACKET_DATA_SIZE
                invariant
                    self.wf(),
                    len == self.buf().len(),
                    len <= 256 * PACKET_DATA_SIZE,
                    c < 256,
                    j <= PACKET_DATA_SIZE,
                    chunk@.len() == j,
                    forall|jj: int| 0 <= jj < j ==> chunk@[jj] == chunk_byte(self.buf(), c as int, jj),
                decreases PACKET_DATA_SIZE - j,
            {
                proof {
                    assert(PACKET_DATA_SIZE == 30);
                }
                let src = c * PACKET_DATA_SIZE + j;
                if src < len {
                    chunk.push(self.data[src]);
                } else {
                    chunk.push(0);
                }
                j += 1;
            }
            proof {
                assert(chunk@ =~= chunk_at(self.buf(), c as int));
            }
            packets.push(DataPacket::new(c as u8, chunk));
            c += 1;
        }
        proof {
            assert(packets@.map_values(|p: DataPacket| p.model()) =~= packet_models(self.buf()));
        }
        packets
    }

    /// A text picture of the framebuffer bytes in storage order,
    /// `width / 8` bytes per line: each byte becomes eight block glyphs, a
    /// dark block for a set bit and a light one for a clear bit, most
    /// significant bit first.
    pub fn render(&self) -> (r: String)
        requires
            self.wf(),
            8 <= self.spec_width(),
        ensures
            r@ == render_chars(self.buf(), self.spec_width() / 8, 0),
    {
        let bpr = self.width / 8;
        let mut out = String::new();
        let mut i: usize = 0;
        proof {
            assert(Seq::<char>::empty() + render_chars(self.buf(), bpr as nat, 0) =~= render_chars(
                self.buf(),
                bpr as nat,
                0,
            ));
        }
        while i < self.data.len()
            invariant
                self.wf(),
                8 <= self.spec_width(),
                bpr == self.spec_width() / 8,
                1 <= bpr,
                i <= self.buf().len(),
                render_chars(self.buf(), bpr as nat, 0) == out@ + render_chars(
                    self.buf(),
                    bpr as nat,
                    i as nat,
                ),
            decreases self.buf().len() - i,
        {
            let ghost row_prefix = out@;
            if i > 0 && i % bpr == 0 {
                out.append("\n");
                proof {
                    reveal_strlit("\n");
                    assert(out@ =~= row_prefix + seq!['\n']);
                }
            }
            let ghost sep_done = out@;
            let ghost b = self.buf()[i as int];
            let mut j: u8 = 0;
            while j < 8
                invariant
                    j <= 8,
                    i < self.buf().len(),
                    b == self.buf()[i as int],
                    out@ == sep_done + byte_glyphs(b).take(j as int),
                decreases 8 - j,
            {
                if get_bit_at_index(self.data[i], j) {
                    out.append("▓");
                    proof {
                        reveal_strlit("▓");
                    }
                } else {
                    out.append("░");
                    proof {
                        reveal_strlit("░");
                    }
                }
                proof {
                    assert(byte_glyphs(b).take(j + 1) =~= byte_glyphs(b).take(j as int).push(
                        byte_glyphs(b)[j as int],
                    ));
                    assert(out@ =~= sep_done + byte_glyphs(b).take(j + 1));
                }
                j += 1;
            }
            proof {
                assert(byte_glyphs(b).take(8) =~= byte_glyphs(b));
                assert(render_chars(self.buf(), bpr as nat, i as nat) == (if i > 0 && i as nat % (
                bpr as nat) == 0 {
                    seq!['\n']
                } else {
                    Seq::<char>::empty()
                }) + byte_glyphs(b) + render_chars(self.buf(), bpr as nat, (i + 1) as nat));
                assert(render_chars(self.buf(), bpr as nat, 0) =~= out@ + render_chars(
                    self.buf(),
                    bpr as nat,
                    (i + 1) as nat,
                ));
            }
            i += 1;
        }
        proof {
            assert(render_chars(self.buf(), bpr as nat, i as nat) =~= Seq::<char>::empty());
            assert(out@ =~= render_chars(self.buf(), bpr as nat, 0));
        }
        out
    }

    /// Derives the current packet sequence, drops every packet that occurs
    /// anywhere in the baseline of the last send, writes the survivors to the
    /// device in ascending sequence order, stopping at the first failure, and
    /// replaces the baseline with the full current sequence whether or not
    /// every write succeeded.
    pub fn send(&mut self) -> (r: Result<(), ScreenError>)
        requires
            old(self).wf(),
        ensures
            final(self).wf(),
            final(self).spec_width() == old(self).spec_width(),
            final(self).spec_height() == old(self).spec_height(),
            final(self).buf() == old(self).buf(),
            final(self).baseline() == Some(packet_models(old(self).buf())),
            D::infallible() ==> r is Ok,
            ({
                let sent = to_send(packet_models(old(self).buf()), old(self).baseline());
                match r {
                    Ok(_) => final(self).device_log() == old(self).device_log()
                        + sent.map_values(|m: PacketModel| wire_of(m)),
                    Err(_) => exists|k: int|
                        0 <= k < sent.len() && final(self).device_log() == old(self).device_log()
                            + (#[trigger] sent.take(k)).map_values(|m: PacketModel| wire_of(m)),
                }
            }),
    {
        let ghost cur_models = packet_models(old(self).buf());
        let ghost base = old(self).baseline();
        let ghost sent = to_send(cur_models, base);
        let current = self.to_packets();
        let mut candidates = self.to_packets();
        let mut outgoing: Vec<DataPacket> = Vec::new();
        match &self.prev_packets {
            None => {
                outgoing = candidates;
            },
            Some(prev) => {
                let ghost prev_models = prev@.map_values(|q: DataPacket| q.model());
                let ghost total = cur_models.len();
                while candidates.len() > 0
                    invariant
                        total == cur_models.len(),
                        candidates@.map_values(|p: DataPacket| p.model()) == cur_models.skip(
                            total - candidates@.len(),
                        ),
                        candidates@.len() <= total,
                        outgoing@.map_values(|p: DataPacket| p.model()) == surviving(
                            cur_models.take(total - candidates@.len()),
                            prev_models,
                        ),
                        prev_models == prev@.map_values(|q: DataPacket| q.model()),
                    decreases candidates@.len(),
                {
                    let ghost i = total - candidates@.len();
                    let ghost cands0 = candidates@;
                    let p = candidates.remove(0);
                    proof {
                        assert(cur_models.skip(i as int)[0] == cur_models[i as int]);
                        assert(candidates@ =~= cands0.skip(1));
                        assert forall|j: int|
                            0 <= j < candidates@.len() implies (#[trigger] candidates@[j]).model()
                            == cur_models.skip(i + 1)[j] by {
                            assert(candidates@[j] == cands0[j + 1]);
                            assert(cands0.map_values(|q: DataPacket| q.model())[j + 1]
                                == cur_models.skip(i as int)[j + 1]);
                            assert(cur_models.skip(i as int)[j + 1] == cur_models[i + 1 + j]);
                            assert(cur_models.skip(i + 1)[j] == cur_models[i + 1 + j]);
                        }
                        assert(candidates@.map_values(|q: DataPacket| q.model()) =~= cur_models.skip(
                            i + 1,
                        ));
                        lemma_surviving_step(cur_models, prev_models, i as int);
                        assert(cur_models.take(i + 1).take(i as int) =~= cur_models.take(i as int));
                    }
                    if !crate::packet::contains_packet(prev, &p) {
                        outgoing.push(p);
                        proof {
                            assert(outgoing@.map_values(|q: DataPacket| q.model()) =~= surviving(
                                cur_models.take(i + 1),
                                prev_models,
                            ));
                        }
                    }
                }
                proof {
                    assert(cur_models.take(total as int) =~= cur_models);
                }
            },
        }
        proof {
            assert(outgoing@.map_values(|p: DataPacket| p.model()) == sent);
        }
        self.prev_packets = Some(current);
        let ghost log0 = old(self).device_log();
        let mut i: usize = 0;
        while i < outgoing.len()
            invariant
                i <= outgoing@.len(),
                sent == to_send(packet_models(old(self).buf()), old(self).baseline()),
                log0 == old(self).device_log(),
                outgoing@.map_values(|p: DataPacket| p.model()) == sent,
                self.wf(),
                self.spec_width() == old(self).spec_width(),
                self.spec_height() == old(self).spec_height(),
                self.buf() == old(self).buf(),
                self.baseline() == Some(packet_models(old(self).buf())),
                self.device_log() == log0 + sent.take(i as int).map_values(
                    |m: PacketModel| wire_of(m),
                ),
            decreases outgoing@.len() - i,
        {
            let ghost pre_log = self.device_log();
            match outgoing[i].send(&mut self.device) {
                Ok(_) => {
                    proof {
                        assert(sent[i as int] == outgoing@[i as int].model());
                        assert(sent.take(i + 1).map_values(|m: PacketModel| wire_of(m)) =~= sent.take(
                            i as int,
                        ).map_values(|m: PacketModel| wire_of(m)).push(wire_of(sent[i as int])));
                        assert(self.device_log() =~= log0 + sent.take(i + 1).map_values(
                            |m: PacketModel| wire_of(m),
                        ));
                    }
                    i += 1;
                },
                Err(e) => {
                    proof {
                        let kk = i as int;
                        let full = to_send(packet_models(old(self).buf()), old(self).baseline());
                        assert(full == sent);
                        assert(full.take(kk) == sent.take(kk));
                        assert(0 <= kk < full.len() && self.device_log() == old(
                            self,
                        ).device_log() + full.take(kk).map_values(|m: PacketModel| wire_of(m)));
                        assert(exists|k: int|
                            0 <= k < full.len() && self.device_log() == old(self).device_log() + (
                            #[trigger] full.take(k)).map_values(|m: PacketModel| wire_of(m)));
                    }
                    return Err(e);
                },
            }
        }
        proof {
            assert(sent.take(outgoing@.len() as int) =~= sent);
        }
        Ok(())
    }
}

} // verus!
