//! Framebuffer console: a log sink that draws characters.

use vstd::prelude::*;

verus! {

/// Width of a character in pixels.
pub const FONT_WIDTH: usize = 8;

/// Height of a character in pixels.
pub const FONT_HEIGHT: usize = 16;

/// Bytes of the font: one for each row of each character.
pub const FONT_BYTES: usize = 4096;

/// Color of characters.
pub const FG_RGB: u32 = 0xD8DEE9;

/// Where a color component lies in a pixel.
#[derive(Copy, Clone, Debug, PartialEq, Eq, Structural)]
pub struct Mask {
    /// Number of bits.
    pub size: u8,
    /// Lowest bit.
    pub shift: u8,
}

/// What the boot loader says of a framebuffer.
#[derive(Copy, Clone, Debug, PartialEq, Eq, Structural)]
pub struct FramebufferInfo {
    /// Whether pixels hold red, green and blue components.
    pub is_rgb: bool,
    /// Bits of a pixel.
    pub bpp: u16,
    /// Width in pixels.
    pub width: usize,
    /// Height in pixels.
    pub height: usize,
    /// Bytes of a row.
    pub pitch: usize,
    /// Red component.
    pub red: Mask,
    /// Green component.
    pub green: Mask,
    /// Blue component.
    pub blue: Mask,
}

impl FramebufferInfo {
    /// The components lie inside a 32-bit pixel.
    pub open spec fn wf(self) -> bool {
        &&& self.red.size <= 24 && self.red.shift < 32
        &&& self.green.size <= 24 && self.green.shift < 32
        &&& self.blue.size <= 24 && self.blue.shift < 32
    }

    /// Bytes of a pixel.
    pub open spec fn pixel_bytes(self) -> int {
        (self.bpp + 7) / 8
    }
}

/// A color component scaled to its bits and moved to its place.
pub open spec fn component(value: u8, mask: Mask) -> u32 {
    if mask.size == 0 {
        0
    } else {
        (((value * ((1u32 << mask.size) - 1) + 127) / 255) as u32) << mask.shift
    }
}

/// A color as a pixel.
pub open spec fn packed(rgb: u32, red: Mask, green: Mask, blue: Mask) -> u32 {
    component(((rgb / 0x1_0000) % 0x100) as u8, red) | component(
        ((rgb / 0x100) % 0x100) as u8,
        green,
    ) | component((rgb % 0x100) as u8, blue)
}

/// Scales a color component to its bits and moves it to its place.
pub fn pack_component(value: u8, mask: Mask) -> (bits: u32)
    requires
        mask.size <= 24,
        mask.shift < 32,
    ensures
        bits == component(value, mask),
{
    if mask.size == 0 {
        return 0;
    }
    let size: u8 = mask.size;
    let unit: u32 = 1u32 << size;
    assert(1 <= unit <= 0x100_0000) by (bit_vector)
        requires
            unit == 1u32 << size,
            size <= 24,
    ;
    let most: u32 = unit - 1;
    assert(value * most <= 255 * 0xff_ffff) by (nonlinear_arith)
        requires
            value <= 255,
            most <= 0xff_ffff,
    ;
    ((value as u32 * most + 127) / 255) << mask.shift
}

/// Turns a color into a pixel.
pub fn pack_color(rgb: u32, red: Mask, green: Mask, blue: Mask) -> (pixel: u32)
    requires
        red.size <= 24,
        red.shift < 32,
        green.size <= 24,
        green.shift < 32,
        blue.size <= 24,
        blue.shift < 32,
    ensures
        pixel == packed(rgb, red, green, blue),
{
    pack_component(((rgb / 0x1_0000) % 0x100) as u8, red) | pack_component(
        ((rgb / 0x100) % 0x100) as u8,
        green,
    ) | pack_component((rgb % 0x100) as u8, blue)
}

/// One byte of a pixel.
pub open spec fn pixel_byte(color: u32, index: int) -> u8 {
    if index == 0 {
        (color % 0x100) as u8
    } else if index == 1 {
        ((color / 0x100) % 0x100) as u8
    } else if index == 2 {
        ((color / 0x1_0000) % 0x100) as u8
    } else if index == 3 {
        (color / 0x100_0000) as u8
    } else {
        0
    }
}

/// One byte of a pixel.
pub fn byte_of(color: u32, index: usize) -> (byte: u8)
    ensures
        byte == pixel_byte(color, index as int),
{
    if index == 0 {
        (color % 0x100) as u8
    } else if index == 1 {
        ((color / 0x100) % 0x100) as u8
    } else if index == 2 {
        ((color / 0x1_0000) % 0x100) as u8
    } else if index == 3 {
        (color / 0x100_0000) as u8
    } else {
        0
    }
}

/// Where a terminal escape sequence stands.
#[derive(Copy, Clone, Debug, PartialEq, Eq, Structural)]
pub enum Escape {
    /// Outside of one.
    Plain,
    /// After its first byte.
    Esc,
    /// Inside its parameters.
    Csi,
}

/// The console as specifications see it.
#[verifier::ext_equal]
pub struct ConModel {
    /// Width in pixels.
    pub width: int,
    /// Height in pixels.
    pub height: int,
    /// Bytes of a row.
    pub pitch: int,
    /// Bytes of a pixel.
    pub bytes_per_pixel: int,
    /// Characters in a line.
    pub cols: int,
    /// Lines.
    pub rows: int,
    /// Column of the next character.
    pub x: int,
    /// Line of the next character.
    pub y: int,
    /// Pixel of characters.
    pub fg: u32,
    /// The framebuffer.
    pub pixels: Seq<u8>,
}

/// One row of a character.
pub open spec fn glyph_row(font: Seq<u8>, byte: u8, row: int) -> u8 {
    font[byte * 16 + row]
}

/// Whether a pixel of a character's row is set, from the left.
pub open spec fn is_set(bits: u8, col: int) -> bool {
    bits & (0x80u8 >> (col as u8)) != 0
}

impl ConModel {
    /// A console on which nothing is written.
    pub open spec fn blank(info: FramebufferInfo) -> ConModel {
        ConModel {
            width: info.width as int,
            height: info.height as int,
            pitch: info.pitch as int,
            bytes_per_pixel: info.pixel_bytes(),
            cols: (info.width / 8) as int,
            rows: (info.height / 16) as int,
            x: 0,
            y: 0,
            fg: packed(FG_RGB, info.red, info.green, info.blue),
            pixels: Seq::new((info.pitch * info.height) as nat, |i: int| 0u8),
        }
    }

    /// The cursor is on the screen, which holds at least one character.
    pub open spec fn wf(self) -> bool {
        &&& self.cols == self.width / 8
        &&& self.rows == self.height / 16
        &&& 8 <= self.width <= usize::MAX
        &&& 16 <= self.height <= usize::MAX
        &&& 0 <= self.pitch <= usize::MAX
        &&& 3 <= self.bytes_per_pixel <= 0x2000
        &&& 0 <= self.x <= self.cols
        &&& 0 <= self.y < self.rows
        &&& self.pixels.len() == self.pitch * self.height
        &&& self.pixels.len() <= usize::MAX
    }

    /// Where a pixel begins in the framebuffer.
    pub open spec fn place(self, x: int, y: int) -> int {
        y * self.pitch + x * self.bytes_per_pixel
    }

    /// The console with one pixel drawn, if it is on the screen.
    pub open spec fn with_pixel(self, x: int, y: int, color: u32) -> ConModel {
        let at = self.place(x, y);
        if x < self.width && y < self.height && at + self.bytes_per_pixel <= self.pixels.len() {
            ConModel {
                pixels: Seq::new(
                    self.pixels.len(),
                    |i: int| if at <= i < at + self.bytes_per_pixel {
                        pixel_byte(color, i - at)
                    } else {
                        self.pixels[i]
                    },
                ),
                ..self
            }
        } else {
            self
        }
    }

    /// The console with the first `n` pixels of a character drawn at the
    /// cursor.
    pub open spec fn with_glyph(self, font: Seq<u8>, byte: u8, n: nat) -> ConModel
        decreases n,
    {
        if n == 0 {
            self
        } else {
            let row = (n - 1) / 8;
            let col = (n - 1) % 8;
            self.with_glyph(font, byte, (n - 1) as nat).with_pixel(
                self.x * 8 + col,
                self.y * 16 + row,
                if is_set(glyph_row(font, byte, row), col) {
                    self.fg
                } else {
                    0
                },
            )
        }
    }

    /// The console with everything one line up.
    pub open spec fn scrolled(self) -> ConModel {
        let line = self.pitch * 16;
        ConModel {
            pixels: Seq::new(
                self.pixels.len(),
                |i: int| if i + line < self.pixels.len() {
                    self.pixels[i + line]
                } else {
                    0u8
                },
            ),
            ..self
        }
    }

    /// The console at the start of the next line.
    pub open spec fn next_line(self) -> ConModel {
        if self.y + 1 < self.rows {
            ConModel { x: 0, y: self.y + 1, ..self }
        } else {
            ConModel { x: 0, ..self }.scrolled()
        }
    }

    /// The console with a character drawn.
    pub open spec fn drawn(self, font: Seq<u8>, byte: u8) -> ConModel {
        let ready = if self.x >= self.cols {
            self.next_line()
        } else {
            self
        };
        ConModel { x: ready.x + 1, ..ready.with_glyph(font, byte, 128) }
    }

    /// The console after a byte outside of escape sequences.
    pub open spec fn put(self, font: Seq<u8>, byte: u8) -> ConModel {
        if byte == 0x0a {
            self.next_line()
        } else if byte == 0x0d {
            ConModel { x: 0, ..self }
        } else if byte == 0x09 {
            self.drawn(font, 0x20).drawn(font, 0x20).drawn(font, 0x20).drawn(font, 0x20)
        } else if 0x20 <= byte <= 0x7e {
            self.drawn(font, byte)
        } else {
            self.drawn(font, 0x3f)
        }
    }

    /// The console after the first `n` bytes of a message.
    pub open spec fn fed(self, font: Seq<u8>, bytes: Seq<u8>, n: nat) -> ConModel
        decreases n,
    {
        if n == 0 {
            self
        } else {
            let before = self.fed(font, bytes, (n - 1) as nat);
            if escape_after(bytes, (n - 1) as nat) == Escape::Plain && bytes[n - 1] != 0x1b {
                before.put(font, bytes[n - 1])
            } else {
                before
            }
        }
    }

    /// The console after a message, which ends its line.
    pub open spec fn wrote(self, font: Seq<u8>, bytes: Seq<u8>) -> ConModel {
        self.fed(font, bytes, bytes.len()).next_line()
    }
}

/// Where an escape sequence stands after a byte.
pub open spec fn escape_step(escape: Escape, byte: u8) -> Escape {
    match escape {
        Escape::Plain => if byte == 0x1b {
            Escape::Esc
        } else {
            Escape::Plain
        },
        Escape::Esc => if byte == 0x5b {
            Escape::Csi
        } else {
            Escape::Plain
        },
        Escape::Csi => if 0x40 <= byte <= 0x7e {
            Escape::Plain
        } else {
            Escape::Csi
        },
    }
}

/// Where an escape sequence stands after the first `n` bytes of a message.
pub open spec fn escape_after(bytes: Seq<u8>, n: nat) -> Escape
    decreases n,
{
    if n == 0 {
        Escape::Plain
    } else {
        escape_step(escape_after(bytes, (n - 1) as nat), bytes[n - 1])
    }
}

/// Framebuffer console.
pub struct FbCon {
    width: usize,
    height: usize,
    pitch: usize,
    bytes_per_pixel: usize,
    cols: usize,
    rows: usize,
    cursor_x: usize,
    cursor_y: usize,
    fg: u32,
    pixels: Vec<u8>,
}

impl View for FbCon {
    type V = ConModel;

    closed spec fn view(&self) -> ConModel {
        ConModel {
            width: self.width as int,
            height: self.height as int,
            pitch: self.pitch as int,
            bytes_per_pixel: self.bytes_per_pixel as int,
            cols: self.cols as int,
            rows: self.rows as int,
            x: self.cursor_x as int,
            y: self.cursor_y as int,
            fg: self.fg,
            pixels: self.pixels@,
        }
    }
}

/// Whether a framebuffer can show a console.
pub open spec fn is_usable(info: FramebufferInfo) -> bool {
    &&& info.is_rgb
    &&& info.pixel_bytes() >= 3
    &&& info.width >= FONT_WIDTH
    &&& info.height >= FONT_HEIGHT
    &&& info.pitch * info.height <= usize::MAX
}

proof fn lemma_drawn(con: ConModel, font: Seq<u8>, byte: u8, n: nat)
    requires
        con.wf(),
    ensures
        con.with_glyph(font, byte, n).wf(),
        con.with_glyph(font, byte, n) == (ConModel {
            pixels: con.with_glyph(font, byte, n).pixels,
            ..con
        }),
    decreases n,
{
    if n > 0 {
        lemma_drawn(con, font, byte, (n - 1) as nat);
    }
}

impl FbCon {
    /// A cleared console for a framebuffer, if that can show one.
    pub fn probe(info: FramebufferInfo) -> (console: Option<Self>)
        requires
            info.wf(),
        ensures
            console.is_some() == is_usable(info),
            console matches Some(con) ==> con@.wf() && con@ == ConModel::blank(info),
    {
        if !info.is_rgb {
            return None;
        }
        let bytes_per_pixel: usize = ((info.bpp as u32 + 7) / 8) as usize;
        if bytes_per_pixel < 3 {
            return None;
        }
        if info.width < FONT_WIDTH || info.height < FONT_HEIGHT {
            return None;
        }
        let length: usize = match info.pitch.checked_mul(info.height) {
            Some(length) => length,
            None => {
                return None;
            },
        };
        let mut pixels: Vec<u8> = Vec::new();
        while pixels.len() < length
            invariant
                pixels@.len() <= length,
                pixels@ == Seq::new(pixels@.len(), |i: int| 0u8),
            decreases length - pixels@.len(),
        {
            pixels.push(0);
            assert(pixels@ =~= Seq::new(pixels@.len(), |i: int| 0u8));
        }
        let console = FbCon {
            width: info.width,
            height: info.height,
            pitch: info.pitch,
            bytes_per_pixel,
            cols: info.width / FONT_WIDTH,
            rows: info.height / FONT_HEIGHT,
            cursor_x: 0,
            cursor_y: 0,
            fg: pack_color(FG_RGB, info.red, info.green, info.blue),
            pixels,
        };
        Some(console)
    }

    /// The framebuffer's bytes.
    pub fn pixels(&self) -> (pixels: &Vec<u8>)
        ensures
            pixels@ == self@.pixels,
    {
        &self.pixels
    }

    fn put_pixel(&mut self, x: usize, y: usize, color: u32)
        requires
            old(self)@.wf(),
        ensures
            final(self)@.wf(),
            final(self)@ == old(self)@.with_pixel(x as int, y as int, color),
    {
        let ghost before = self@;
        if x >= self.width || y >= self.height {
            return;
        }
        assert(y * self.pitch <= self.pitch * self.height) by (nonlinear_arith)
            requires
                y < self.height,
                self.pitch >= 0,
        ;
        assert(y * self.pitch >= 0 && x * self.bytes_per_pixel >= 0) by (nonlinear_arith);
        let row: usize = y * self.pitch;
        let col: usize = match x.checked_mul(self.bytes_per_pixel) {
            Some(col) => col,
            None => {
                return;
            },
        };
        let offset: usize = match row.checked_add(col) {
            Some(offset) => offset,
            None => {
                return;
            },
        };
        assert(offset == before.place(x as int, y as int));
        if offset > self.pixels.len() || self.bytes_per_pixel > self.pixels.len() - offset {
            return;
        }
        let mut index: usize = 0;
        while index < self.bytes_per_pixel
            invariant
                index <= self.bytes_per_pixel,
                before.wf(),
                offset + self.bytes_per_pixel <= before.pixels.len(),
                self.pixels@.len() == before.pixels.len(),
                self@ == (ConModel { pixels: self.pixels@, ..before }),
                forall|i: int|
                    0 <= i < before.pixels.len() ==> #[trigger] self.pixels@[i] == if offset <= i
                        < offset + index {
                        pixel_byte(color, i - offset)
                    } else {
                        before.pixels[i]
                    },
            decreases self.bytes_per_pixel - index,
        {
            self.pixels.set(offset + index, byte_of(color, index));
            index = index + 1;
        }
        assert(self@ =~= before.with_pixel(x as int, y as int, color));
    }

    fn draw_char(&mut self, font: &Vec<u8>, byte: u8)
        requires
            old(self)@.wf(),
            font@.len() == FONT_BYTES,
        ensures
            final(self)@.wf(),
            final(self)@ == old(self)@.drawn(font@, byte),
    {
        if self.cursor_x >= self.cols {
            self.newline();
        }
        let ghost ready = self@;
        let x: usize = self.cursor_x * FONT_WIDTH;
        let y: usize = self.cursor_y * FONT_HEIGHT;
        let mut n: usize = 0;
        while n < 128
            invariant
                n <= 128,
                font@.len() == FONT_BYTES,
                ready.wf(),
                self@.wf(),
                ready.x < ready.cols,
                x == ready.x * 8,
                y == ready.y * 16,
                self@ == ready.with_glyph(font@, byte, n as nat),
                self@ == (ConModel { pixels: self@.pixels, ..ready }),
            decreases 128 - n,
        {
            let row: usize = n / 8;
            let col: usize = n % 8;
            let bits: u8 = font[byte as usize * FONT_HEIGHT + row];
            let on: bool = bits & (0x80u8 >> (col as u8)) != 0;
            assert(on == is_set(glyph_row(font@, byte, row as int), col as int));
            let color: u32 = if on {
                self.fg
            } else {
                0
            };
            self.put_pixel(x + col, y + row, color);
            n = n + 1;
        }
        self.cursor_x = self.cursor_x + 1;
        proof {
            lemma_drawn(ready, font@, byte, 128);
        }
        assert(self@ =~= old(self)@.drawn(font@, byte));
    }

    /// Draws a byte, or moves the cursor by it.
    pub fn put_byte(&mut self, font: &Vec<u8>, byte: u8)
        requires
            old(self)@.wf(),
            font@.len() == FONT_BYTES,
        ensures
            final(self)@.wf(),
            final(self)@ == old(self)@.put(font@, byte),
    {
        if byte == 0x0a {
            self.newline();
        } else if byte == 0x0d {
            self.cursor_x = 0;
        } else if byte == 0x09 {
            self.draw_char(font, 0x20);
            self.draw_char(font, 0x20);
            self.draw_char(font, 0x20);
            self.draw_char(font, 0x20);
        } else if 0x20 <= byte && byte <= 0x7e {
            self.draw_char(font, byte);
        } else {
            self.draw_char(font, 0x3f);
        }
    }

    fn newline(&mut self)
        requires
            old(self)@.wf(),
        ensures
            final(self)@.wf(),
            final(self)@ == old(self)@.next_line(),
    {
        self.cursor_x = 0;
        if self.cursor_y + 1 < self.rows {
            self.cursor_y = self.cursor_y + 1;
        } else {
            self.scroll();
        }
    }

    fn scroll(&mut self)
        requires
            old(self)@.wf(),
        ensures
            final(self)@.wf(),
            final(self)@ == old(self)@.scrolled(),
    {
        let ghost before = self@;
        assert(self.pitch * 16 <= self.pitch * self.height && self.pitch * 16 >= 0)
            by (nonlinear_arith)
            requires
                self.height >= 16,
                self.pitch >= 0,
        ;
        let line: usize = self.pitch * FONT_HEIGHT;
        let length: usize = self.pixels.len();
        let mut at: usize = 0;
        while at < length
            invariant
                at <= length == before.pixels.len() == self.pixels@.len(),
                line <= length,
                before.wf(),
                line == before.pitch * 16,
                self@ == (ConModel { pixels: self.pixels@, ..before }),
                forall|i: int|
                    0 <= i < length ==> #[trigger] self.pixels@[i] == if i < at {
                        if i + line < length {
                            before.pixels[i + line]
                        } else {
                            0u8
                        }
                    } else {
                        before.pixels[i]
                    },
            decreases length - at,
        {
            if line < length - at {
                let byte: u8 = self.pixels[at + line];
                if line > 0 {
                    self.pixels.set(at, byte);
                }
            } else {
                self.pixels.set(at, 0);
            }
            at = at + 1;
        }
        assert(self@ =~= before.scrolled());
    }

    /// Draws a message without its escape sequences, and ends the line.
    pub fn write_record(&mut self, font: &Vec<u8>, bytes: &[u8])
        requires
            old(self)@.wf(),
            font@.len() == FONT_BYTES,
        ensures
            final(self)@.wf(),
            final(self)@ == old(self)@.wrote(font@, bytes@),
    {
        let mut escape = Escape::Plain;
        let mut at: usize = 0;
        while at < bytes.len()
            invariant
                at <= bytes@.len(),
                font@.len() == FONT_BYTES,
                self@.wf(),
                escape == escape_after(bytes@, at as nat),
                self@ == old(self)@.fed(font@, bytes@, at as nat),
            decreases bytes@.len() - at,
        {
            let byte: u8 = bytes[at];
            match escape {
                Escape::Plain => {
                    if byte == 0x1b {
                        escape = Escape::Esc;
                    } else {
                        self.put_byte(font, byte);
                    }
                },
                Escape::Esc => {
                    escape = if byte == 0x5b {
                        Escape::Csi
                    } else {
                        Escape::Plain
                    };
                },
                Escape::Csi => {
                    if 0x40 <= byte && byte <= 0x7e {
                        escape = Escape::Plain;
                    }
                },
            }
            at = at + 1;
        }
        self.newline();
    }
}

/// Makes the console, unless there is one already; whether there is one then,
/// and whether it is new.
pub fn register(console: &mut Option<FbCon>, info: Option<FramebufferInfo>) -> (registered: (
    bool,
    bool,
))
    requires
        info matches Some(found) ==> found.wf(),
    ensures
        registered.0 == final(console).is_some(),
        registered.1 == (old(console).is_none() && final(console).is_some()),
        old(console).is_some() ==> *final(console) == *old(console),
        old(console).is_none() ==> final(console).is_some() == (info matches Some(found)
            && is_usable(found)),
        registered.1 ==> final(console)->Some_0@.wf() && final(console)->Some_0@
            == ConModel::blank(info->Some_0),
{
    if console.is_some() {
        return (true, false);
    }
    match info {
        Some(found) => {
            *console = FbCon::probe(found);
            let made: bool = console.is_some();
            (made, made)
        },
        None => (false, false),
    }
}

/// A message that is one escape sequence of colors draws nothing: it only ends
/// the line.
pub proof fn law_escape_is_invisible(con: ConModel, font: Seq<u8>, parameters: Seq<u8>, last: u8)
    requires
        0x40 <= last <= 0x7e,
        forall|i: int|
            0 <= i < parameters.len() ==> !(0x40 <= #[trigger] parameters[i] <= 0x7e),
    ensures
        con.wrote(font, seq![0x1bu8, 0x5b] + parameters.push(last)) == con.next_line(),
{
    let bytes = seq![0x1bu8, 0x5b] + parameters.push(last);
    lemma_escape_runs(con, font, bytes, parameters.len());
    let n = bytes.len();
    assert(bytes[n - 1] == last);
    assert(escape_after(bytes, (n - 1) as nat) == Escape::Csi);
}

proof fn lemma_escape_runs(con: ConModel, font: Seq<u8>, bytes: Seq<u8>, n: nat)
    requires
        bytes.len() >= n + 2,
        bytes[0] == 0x1b,
        bytes[1] == 0x5b,
        forall|i: int| 2 <= i < n + 2 ==> !(0x40 <= #[trigger] bytes[i] <= 0x7e),
    ensures
        escape_after(bytes, n + 2) == Escape::Csi,
        con.fed(font, bytes, n + 2) == con,
    decreases n,
{
    if n == 0 {
        assert(escape_after(bytes, 0) == Escape::Plain);
        assert(escape_after(bytes, 1) == Escape::Esc);
        assert(escape_after(bytes, 2) == Escape::Csi);
        assert(con.fed(font, bytes, 0) == con);
        assert(con.fed(font, bytes, 1) == con);
        assert(con.fed(font, bytes, 2) == con);
    } else {
        lemma_escape_runs(con, font, bytes, (n - 1) as nat);
        assert(!(0x40 <= bytes[n as int + 1] <= 0x7e));
        assert(escape_after(bytes, n + 2) == escape_step(
            escape_after(bytes, n + 1),
            bytes[n as int + 1],
        ));
    }
}

/// A line break on the last line moves every row up by one character and clears
/// the last line.
pub proof fn law_scroll_moves_rows(con: ConModel, i: int)
    requires
        con.wf(),
        con.y + 1 == con.rows,
        0 <= i < con.pixels.len(),
    ensures
        con.next_line().y == con.y,
        i + con.pitch * 16 < con.pixels.len() ==> con.next_line().pixels[i] == con.pixels[i
            + con.pitch * 16],
        i + con.pitch * 16 >= con.pixels.len() ==> con.next_line().pixels[i] == 0,
{
}

/// The leftmost pixel of a row of a glyph is its highest bit.
pub proof fn law_glyph_starts_at_highest_bit(bits: u8, col: int)
    requires
        0 <= col < 8,
    ensures
        is_set(bits, col) <==> (bits >> ((7 - col) as u8)) & 1 == 1,
{
    let c = col as u8;
    let r = (7 - col) as u8;
    assert(bits & (0x80u8 >> c) != 0 <==> (bits >> r) & 1 == 1) by (bit_vector)
        requires
            c < 8,
            r == 7 - c,
    ;
}

/// Drawing a character moves the cursor on by one, at the end of a line to the
/// next line first; a newline starts the next line, a carriage return the same
/// one, and a tab is four characters.
pub proof fn law_cursor_moves_on(con: ConModel, font: Seq<u8>, byte: u8)
    requires
        con.wf(),
    ensures
        con.x < con.cols ==> con.drawn(font, byte).x == con.x + 1 && con.drawn(font, byte).y
            == con.y,
        con.x == con.cols && con.y + 1 < con.rows ==> con.drawn(font, byte).x == 1 && con.drawn(
            font,
            byte,
        ).y == con.y + 1,
        con.put(font, 0x0a).x == 0,
        con.y + 1 < con.rows ==> con.put(font, 0x0a).y == con.y + 1 && con.put(font, 0x0a).pixels
            == con.pixels,
        con.put(font, 0x0d) == (ConModel { x: 0, ..con }),
        con.x + 4 <= con.cols ==> con.put(font, 0x09).x == con.x + 4,
        0x20 <= byte <= 0x7e ==> con.put(font, byte) == con.drawn(font, byte),
        byte > 0x7e ==> con.put(font, byte) == con.drawn(font, 0x3f),
{
    lemma_drawn(con, font, byte, 128);
    let next = con.next_line();
    assert(next.wf() && next.cols == con.cols) by {
        if con.y + 1 >= con.rows {
            assert(next.pixels.len() == con.pixels.len());
        }
    }
    lemma_drawn(next, font, byte, 128);
    lemma_drawn(con, font, 0x20, 128);
    let one = con.drawn(font, 0x20);
    if con.x + 4 <= con.cols {
        lemma_drawn(one, font, 0x20, 128);
        let two = one.drawn(font, 0x20);
        lemma_drawn(two, font, 0x20, 128);
        let three = two.drawn(font, 0x20);
        lemma_drawn(three, font, 0x20, 128);
    }
}

/// A pixel's bytes are those of its colour, the lowest first.
pub proof fn law_pixel_bytes_are_of_colour(color: u32)
    ensures
        pixel_byte(color, 0) + 0x100 * pixel_byte(color, 1) + 0x1_0000 * pixel_byte(color, 2)
            + 0x100_0000 * pixel_byte(color, 3) == color,
        pixel_byte(color, 4) == 0,
{
}

/// Escape sequences start with an escape and a bracket and end with a letter or
/// a sign; in between nothing shows.
pub proof fn law_escape_has_an_end(byte: u8)
    ensures
        escape_step(Escape::Plain, byte) == Escape::Esc <==> byte == 0x1b,
        byte != 0x1b ==> escape_step(Escape::Plain, byte) == Escape::Plain,
        escape_step(Escape::Esc, byte) == Escape::Csi <==> byte == 0x5b,
        byte != 0x5b ==> escape_step(Escape::Esc, byte) == Escape::Plain,
        escape_step(Escape::Csi, byte) == Escape::Plain <==> 0x40 <= byte <= 0x7e,
{
}

} // verus!
