//! Minimal ESC/POS driver for the Epson TM-T20II (80mm paper, 48 columns).
//!
//! A `Printer` composes the bytes of a job; whoever holds the USB claim writes
//! them out. What the device answers, and which of its endpoints to use, is
//! decided here too.

use crate::device;
use crate::device::{blockers, find_port, is_blocking, problems_of, Interface, Port};
use crate::escpos;
use crate::escpos::{BAND, LF};
use crate::raster::Bits;
use crate::text;
use crate::text::{chars_of, join, repeat, split_on, string_of};
use crate::wrap;
use crate::wrap::wrap_chars;
use vstd::prelude::*;
use vstd::slice::slice_subrange;
use vstd::string::StringSliceAdditionalSpecFns;

verus! {

pub const VID: u16 = 0x04b8;

pub const PID: u16 = 0x0e15;

/// Characters per line in font A on 80mm paper (576 dots / 12-dot glyphs).
pub const WIDTH: usize = 48;

/// Characters per line once double-width is on.
pub const WIDTH_BIG: usize = WIDTH / 2;

pub const ESC: u8 = 0x1b;

pub const GS: u8 = 0x1d;

pub const DLE: u8 = 0x10;

pub const EOT: u8 = 0x04;

// --- fonts, alignment, style -----------------------------------------------

/// Font A is 12x24 dots (48 columns), font B is 9x17 (64 columns).
#[derive(Clone, Copy, PartialEq, Eq, Structural)]
pub enum Font {
    A,
    B,
}

impl Font {
    pub open spec fn dots_high(self) -> u8 {
        match self {
            Font::A => 24,
            Font::B => 17,
        }
    }

    pub open spec fn characters(self) -> usize {
        match self {
            Font::A => 48,
            Font::B => 64,
        }
    }

    /// Height in dots, which is also the line spacing that makes rows butt
    /// together: what dense ASCII art needs so it does not come apart.
    pub fn height(self) -> (r: u8)
        ensures
            r == self.dots_high(),
    {
        match self {
            Font::A => 24,
            Font::B => 17,
        }
    }

    /// Characters per line.
    pub fn columns(self) -> (r: usize)
        ensures
            r == self.characters(),
    {
        match self {
            Font::A => 48,
            Font::B => 64,
        }
    }
}

#[derive(Clone, Copy, PartialEq, Eq, Structural)]
pub enum Align {
    Left,
    Centre,
    Right,
}

#[derive(Clone, Copy, PartialEq, Eq, Structural)]
pub struct Style {
    pub bold: bool,
    pub tall: bool,
    pub wide: bool,
    pub underline: bool,
}

impl Default for Style {
    fn default() -> (r: Style)
        ensures
            r == Style::plain_spec(),
    {
        Style { bold: false, tall: false, wide: false, underline: false }
    }
}

impl Style {
    /// Nothing switched on.
    pub open spec fn plain_spec() -> Style {
        Style { bold: false, tall: false, wide: false, underline: false }
    }

    /// Bold and double size.
    pub open spec fn big_spec() -> Style {
        Style { bold: true, tall: true, wide: true, underline: false }
    }

    /// The print mode byte: bold, double height, double width and underline are
    /// one bit each.
    pub open spec fn mode(self) -> u8 {
        ((if self.bold { 0x08int } else { 0 }) + (if self.tall { 0x10int } else { 0 }) + (
        if self.wide { 0x20int } else { 0 }) + (if self.underline { 0x80int } else { 0 })) as u8
    }

    pub fn big() -> (r: Style)
        ensures
            r == Style::big_spec(),
    {
        Style { bold: true, tall: true, wide: true, underline: false }
    }

    /// The print mode byte.
    pub fn bits(&self) -> (n: u8)
        ensures
            n == self.mode(),
    {
        let mut n: u8 = 0;
        if self.bold {
            n = n + 0x08;
        }
        if self.tall {
            n = n + 0x10;
        }
        if self.wide {
            n = n + 0x20;
        }
        if self.underline {
            n = n + 0x80;
        }
        n
    }
}

// --- the job ---------------------------------------------------------------

/// Why a job did not come out.
pub enum Error {
    NotFound,
    Usb(String),
    Stalled(Vec<String>),
}

/// What came of writing a job to the device.
pub enum Delivery {
    /// So many bytes were taken.
    Written(usize),
    /// The device stopped taking bytes; what it says is wrong with it.
    TimedOut(Vec<String>),
    /// The write failed.
    Failed(String),
}

/// The byte of a character in code page 437.
fn encode_char(c: char) -> (b: u8)
    ensures
        b == escpos::cp437(c),
{
    let n: u32 = c as u32;
    if n < 0x80 {
        return n as u8;
    }
    match n {
        0x2500 => 0xc4,
        0x2550 => 0xcd,
        0x2588 => 0xdb,
        0x2584 => 0xdc,
        0x2580 => 0xdf,
        0x2591 => 0xb0,
        0x2592 => 0xb1,
        0x2593 => 0xb2,
        _ => 0x3f,
    }
}

/// A text in code page 437.
pub fn encode(s: &str) -> (out: Vec<u8>)
    ensures
        out@ == escpos::encoded(s@),
{
    let mut out: Vec<u8> = Vec::new();
    let cs = chars_of(s);
    for i in 0..cs.len()
        invariant
            out@ == escpos::encoded(cs@.take(i as int)),
    {
        let b: u8 = encode_char(cs[i]);
        out.push(b);
        assert(escpos::encoded(cs@.take(i + 1)) =~= escpos::encoded(cs@.take(i as int)).push(b));
    }
    assert(cs@.take(cs@.len() as int) =~= cs@);
    out
}

/// Where the bytes go, and the bytes of the job so far.
pub struct Printer {
    port: Port,
    buf: Vec<u8>,
}

impl View for Printer {
    type V = Seq<u8>;

    closed spec fn view(&self) -> Seq<u8> {
        self.buf@
    }
}

impl Printer {
    /// The endpoints that the job goes to.
    pub closed spec fn port_spec(self) -> Port {
        self.port
    }

    /// The same job with `added` at its end.
    pub open spec fn extends(self, before: Printer, added: Seq<u8>) -> bool {
        self@ == before@ + added && self.port_spec() == before.port_spec()
    }

    pub fn raw(&mut self, bytes: &[u8]) -> (r: &mut Self)
        ensures
            r.extends(*old(self), bytes@),
            *final(self) == *final(r),
    {
        self.buf.extend_from_slice(bytes);
        assert(self.buf@ =~= old(self).buf@ + bytes@);
        self
    }

    pub fn init(&mut self) -> (r: &mut Self)
        ensures
            r.extends(*old(self), escpos::init_bytes()),
            *final(self) == *final(r),
    {
        self.raw(&[ESC, 0x40])
    }

    pub fn align(&mut self, how: Align) -> (r: &mut Self)
        ensures
            r.extends(*old(self), escpos::align_bytes(how)),
            *final(self) == *final(r),
    {
        let n: u8 = match how {
            Align::Left => 0,
            Align::Centre => 1,
            Align::Right => 2,
        };
        self.raw(&[ESC, 0x61, n])
    }

    pub fn font(&mut self, font: Font) -> (r: &mut Self)
        ensures
            r.extends(*old(self), escpos::font_bytes(font)),
            *final(self) == *final(r),
    {
        let n: u8 = if font == Font::B {
            1
        } else {
            0
        };
        self.raw(&[ESC, 0x4d, n])
    }

    /// Set line spacing in dots (1/180"). Passing the font height closes the gap
    /// between rows, so multi-line art joins up instead of being striped.
    pub fn line_spacing(&mut self, dots: u8) -> (r: &mut Self)
        ensures
            r.extends(*old(self), escpos::line_spacing_bytes(dots)),
            *final(self) == *final(r),
    {
        self.raw(&[ESC, 0x33, dots])
    }

    /// Back to the printer's default 1/6" spacing.
    pub fn default_spacing(&mut self) -> (r: &mut Self)
        ensures
            r.extends(*old(self), escpos::default_spacing_bytes()),
            *final(self) == *final(r),
    {
        self.raw(&[ESC, 0x32])
    }

    /// White on black.
    pub fn invert(&mut self, on: bool) -> (r: &mut Self)
        ensures
            r.extends(*old(self), escpos::invert_bytes(on)),
            *final(self) == *final(r),
    {
        let n: u8 = if on {
            1
        } else {
            0
        };
        self.raw(&[GS, 0x42, n])
    }

    pub fn style(&mut self, style: Style) -> (r: &mut Self)
        ensures
            r.extends(*old(self), escpos::style_bytes(style)),
            *final(self) == *final(r),
    {
        let n: u8 = style.bits();
        self.raw(&[ESC, 0x21, n])
    }

    pub fn feed(&mut self, lines: u8) -> (r: &mut Self)
        ensures
            r.extends(*old(self), escpos::feed_bytes(lines)),
            *final(self) == *final(r),
    {
        self.raw(&[ESC, 0x64, lines])
    }

    pub fn cut(&mut self) -> (r: &mut Self)
        ensures
            r.extends(*old(self), escpos::cut_bytes()),
            *final(self) == *final(r),
    {
        self.raw(&[GS, 0x56, 0x41, 4])
    }

    /// Adds one line of text and its line feed.
    fn row(&mut self, line: &[char])
        ensures
            final(self).extends(*old(self), escpos::encoded(line@).push(LF)),
    {
        for i in 0..line.len()
            invariant
                self.extends(*old(self), escpos::encoded(line@.take(i as int))),
        {
            let b: u8 = encode_char(line[i]);
            self.buf.push(b);
            assert(escpos::encoded(line@.take(i + 1)) =~= escpos::encoded(line@.take(i as int)).push(b));
            assert(self@ =~= old(self)@ + escpos::encoded(line@.take(i + 1)));
        }
        assert(line@.take(line@.len() as int) =~= line@);
        self.buf.push(LF);
        assert(self@ =~= old(self)@ + escpos::encoded(line@).push(LF));
    }

    /// Adds lines of text, each with its line feed.
    fn rows_of(&mut self, lines: &Vec<Vec<char>>)
        ensures
            final(self).extends(*old(self), escpos::rows(text::pieces(lines@))),
    {
        let ghost all = text::pieces(lines@);
        assert(all.take(0) =~= Seq::<Seq<char>>::empty());
        assert(self@ =~= old(self)@ + escpos::rows(all.take(0)));
        for i in 0..lines.len()
            invariant
                all == text::pieces(lines@),
                self.extends(*old(self), escpos::rows(all.take(i as int))),
        {
            let ghost before = self@;
            self.row(lines[i].as_slice());
            assert(all.take(i + 1).drop_last() =~= all.take(i as int));
            assert(all.take(i + 1).last() == lines@[i as int]@);
            assert(self@ =~= old(self)@ + escpos::rows(all.take(i + 1)));
        }
        assert(all.take(lines@.len() as int) =~= all);
    }

    /// Print text exactly as given, with no wrapping (for tables and ASCII art).
    pub fn text_raw(&mut self, s: &str) -> (r: &mut Self)
        ensures
            r.extends(*old(self), escpos::text_raw_bytes(s@)),
            *final(self) == *final(r),
    {
        let cs = chars_of(s);
        let lines = split_on(cs.as_slice(), '\n');
        self.rows_of(&lines);
        self
    }

    /// Word-wrap to an explicit width, for text printed at a larger size. Only spaces
    /// and newlines fit into no width at all.
    pub fn text_wrapped(&mut self, s: &str, width: usize) -> (r: &mut Self)
        requires
            width > 0 || forall|i: int|
                0 <= i < s@.len() ==> #[trigger] s@[i] == ' ' || s@[i] == '\n',
        ensures
            r.extends(*old(self), escpos::text_bytes(s@, width as nat)),
            *final(self) == *final(r),
    {
        let cs = chars_of(s);
        let lines = split_on(cs.as_slice(), '\n');
        let ghost all = text::split(s@, '\n');
        let ghost w = width as nat;
        assert(all.take(0) =~= Seq::<Seq<char>>::empty());
        assert(self@ =~= old(self)@ + escpos::rows(escpos::wrapped_all(all.take(0), w)));
        proof {
            text::split_pieces_are_stretches(s@, '\n');
        }
        for i in 0..lines.len()
            invariant
                width > 0 || forall|k: int, j: int|
                    0 <= k < all.len() && 0 <= j < all[k].len() ==> #[trigger] all[k][j] == ' ',
                w == width,
                all == text::pieces(lines@),
                self.extends(*old(self), escpos::rows(escpos::wrapped_all(all.take(i as int), w))),
        {
            assert(all[i as int] == lines@[i as int]@);
            let wrapped_lines = wrap_chars(lines[i].as_slice(), width);
            self.rows_of(&wrapped_lines);
            assert(all.take(i + 1).drop_last() =~= all.take(i as int));
            assert(all.take(i + 1).last() == lines@[i as int]@);
            proof {
                escpos::rows_of_both(escpos::wrapped_all(all.take(i as int), w), wrap::wrapped(all[i as int], w));
            }
            assert(self@ =~= old(self)@ + escpos::rows(escpos::wrapped_all(all.take(i + 1), w)));
        }
        assert(all.take(lines@.len() as int) =~= all);
        self
    }

    /// Print text, word-wrapping each line to the paper width.
    pub fn text(&mut self, s: &str) -> (r: &mut Self)
        ensures
            r.extends(*old(self), escpos::text_bytes(s@, WIDTH as nat)),
            *final(self) == *final(r),
    {
        self.text_wrapped(s, WIDTH)
    }

    pub fn rule(&mut self, ch: char) -> (r: &mut Self)
        ensures
            r.extends(*old(self), escpos::rule_bytes(ch)),
            *final(self) == *final(r),
    {
        let line = repeat(ch, WIDTH);
        self.text_raw(line.as_str())
    }

    /// Left text and right text on one line, padded apart.
    pub fn columns(&mut self, left: &str, right: &str) -> (r: &mut Self)
        ensures
            r.extends(*old(self), escpos::columns_bytes(left@, right@)),
            *final(self) == *final(r),
    {
        let l = chars_of(left);
        let count: usize = chars_of(right).len();
        let space: usize = if count < WIDTH {
            WIDTH - count
        } else {
            0
        };
        let room: usize = if space > 0 {
            space - 1
        } else {
            0
        };
        let shown = if l.len() <= room {
            l.as_slice()
        } else {
            slice_subrange(l.as_slice(), 0, room)
        };
        let mut line = string_of(shown);
        let pad = repeat(' ', space - shown.len());
        line.append(pad.as_str());
        line.append(right);
        assert(line@ == escpos::columns_text(left@, right@));
        self.text_raw(line.as_str())
    }

    pub fn qr(&mut self, data: &str, size: u8) -> (r: &mut Self)
        ensures
            r.extends(*old(self), escpos::qr_bytes(data.spec_bytes(), size)),
            *final(self) == *final(r),
    {
        let d = data.as_bytes();
        // Two bytes of count is all the command has; past that it comes round again.
        let n: usize = d.len() % 0x10000 + 3;
        let low: u8 = (n % 256) as u8;
        let high: u8 = (n / 256 % 256) as u8;
        assert(escpos::low_high(d@.len() + 3) =~= seq![low, high]);
        let ghost a = seq![GS, 0x28u8, 0x6bu8, 4u8, 0u8, 49u8, 65u8, 50u8, 0u8];
        let ghost b = seq![GS, 0x28u8, 0x6bu8, 3u8, 0u8, 49u8, 67u8, size];
        let ghost c = seq![GS, 0x28u8, 0x6bu8, 3u8, 0u8, 49u8, 69u8, 48u8];
        let ghost e = seq![GS, 0x28u8, 0x6bu8] + escpos::low_high(d@.len() + 3) + seq![49u8, 80u8, 48u8];
        self.raw(&[GS, 0x28, 0x6b, 4, 0, 49, 65, 50, 0]);  // model 2
        assert(self@ =~= old(self)@ + a);
        self.raw(&[GS, 0x28, 0x6b, 3, 0, 49, 67, size]);  // module size
        assert(self@ =~= old(self)@ + (a + b));
        self.raw(&[GS, 0x28, 0x6b, 3, 0, 49, 69, 48]);  // error correction L
        assert(self@ =~= old(self)@ + (a + b + c));
        self.raw(&[GS, 0x28, 0x6b, low, high, 49, 80, 48]);  // store
        assert(seq![GS, 0x28u8, 0x6bu8, low, high, 49u8, 80u8, 48u8] =~= e);
        assert(self@ =~= old(self)@ + (a + b + c + e));
        self.raw(d);
        assert(self@ =~= old(self)@ + (a + b + c + e + d@));
        let r = self.raw(&[GS, 0x28, 0x6b, 3, 0, 49, 81, 48]);  // print
        assert(r@ =~= old(self)@ + escpos::qr_bytes(data.spec_bytes(), size));
        r
    }

    /// Send a 1-bit image with GS v 0, in horizontal bands. Banding keeps each
    /// command inside the printer's image buffer instead of overrunning it.
    pub fn image(&mut self, bits: &Bits) -> (r: &mut Self)
        requires
            escpos::has_its_rows(*bits),
        ensures
            r.extends(*old(self), escpos::image_bytes(*bits)),
            *final(self) == *final(r),
    {
        let len: usize = bits.data.len();
        let low: u8 = (bits.row_bytes % 256) as u8;
        let high: u8 = (bits.row_bytes / 256 % 256) as u8;
        let mut start: usize = 0;
        let ghost mut count: nat = 0;
        assert(self@ =~= old(self)@ + escpos::bands_bytes(*bits, 0));
        while start < bits.height
            invariant
                len == bits.data@.len(),
                escpos::has_its_rows(*bits),
                low == (bits.row_bytes as nat % 256) as u8,
                high == (bits.row_bytes as nat / 256 % 256) as u8,
                start <= bits.height,
                start == count * BAND || start == bits.height && (count - 1) * BAND < bits.height
                    <= count * BAND,
                self.extends(*old(self), escpos::bands_bytes(*bits, count)),
            decreases bits.height - start,
        {
            let left: usize = bits.height - start;
            let rows: usize = if left < BAND {
                left
            } else {
                BAND
            };
            let ghost rb = bits.row_bytes as int;
            assert(0 <= start * rb && start * rb <= (start + rows) * rb && (start + rows) * rb
                <= bits.height * rb && start * rb + rows * rb == (start + rows) * rb && rows * rb >= 0)
                by (nonlinear_arith)
                requires
                    0 <= start,
                    0 <= rows,
                    start + rows <= bits.height,
                    rb >= 0,
            ;
            let from: usize = start * bits.row_bytes;
            let to: usize = from + rows * bits.row_bytes;
            let row_low: u8 = (rows % 256) as u8;
            let row_high: u8 = (rows / 256 % 256) as u8;
            let ghost header = seq![GS, 0x76u8, 0x30u8, 0u8] + escpos::low_high(bits.row_bytes as nat)
                + escpos::low_high(rows as nat);
            let ghost so_far = escpos::bands_bytes(*bits, count);
            self.raw(&[GS, 0x76, 0x30, 0, low, high, row_low, row_high]);
            assert(seq![GS, 0x76u8, 0x30u8, 0u8, low, high, row_low, row_high] =~= header);
            assert(self@ =~= old(self)@ + (so_far + header));
            self.raw(slice_subrange(bits.data.as_slice(), from, to));
            assert(self@ =~= old(self)@ + (so_far + (header + escpos::band_dots(*bits, start as nat))));
            start = start + rows;
            proof {
                count = count + 1;
            }
        }
        assert(count == ((bits.height + BAND - 1) / BAND as int) as nat);
        self
    }

    /// A printer with an empty job, on the port that the device's interfaces
    /// offer.
    pub fn open(interfaces: &[Interface]) -> (r: Result<Printer, Error>)
        ensures
            match device::device_port(interfaces@) {
                Some(port) => r matches Ok(p) && p.port_spec() == port && p@ == Seq::<u8>::empty(),
                None => r == Err::<Printer, Error>(Error::NotFound),
            },
    {
        match find_port(interfaces) {
            Some(port) => Ok(Printer { port, buf: Vec::new() }),
            None => Err(Error::NotFound),
        }
    }

    /// The endpoints that the job goes to.
    pub fn port(&self) -> (r: Port)
        ensures
            r == self.port_spec(),
    {
        self.port
    }

    /// What is wrong with the printer, from its answers to the status requests 1,
    /// 4 and 2. An empty list means it is ready.
    pub fn status(printer: Option<u8>, paper: Option<u8>, offline: Option<u8>) -> (r: Vec<String>)
        ensures
            text::views(r@) == device::complaints(printer, paper, offline),
    {
        problems_of(printer, paper, offline)
    }

    /// Whether a problem stops a print, rather than being a warning.
    pub fn is_blocking(problem: &str) -> (r: bool)
        ensures
            r == device::blocks(problem@),
    {
        is_blocking(problem)
    }

    /// What stops a print, from the printer's answers to the status requests 1, 4
    /// and 2: its problems without the warnings.
    pub fn blockers(printer: Option<u8>, paper: Option<u8>, offline: Option<u8>) -> (r: Vec<String>)
        ensures
            text::views(r@) == device::blocking(device::complaints(printer, paper, offline)),
    {
        let problems = problems_of(printer, paper, offline);
        blockers(problems.as_slice())
    }

    /// The bytes of the job, to be written out.
    pub fn pending(&self) -> (r: &[u8])
        ensures
            r@ == self@,
    {
        self.buf.as_slice()
    }

    /// Takes in what came of writing the job out. An empty job needs no writing.
    /// A job that was taken is done with; any other stays as it is.
    pub fn send(&mut self, delivery: Delivery) -> (r: Result<usize, Error>)
        ensures
            final(self).port_spec() == old(self).port_spec(),
            final(self)@ == (if delivery is Written {
                Seq::<u8>::empty()
            } else {
                old(self)@
            }),
            r == (if old(self)@.len() == 0 {
                Ok::<usize, Error>(0)
            } else {
                match delivery {
                    Delivery::Written(count) => Ok(count),
                    Delivery::TimedOut(problems) => Err(Error::Stalled(problems)),
                    Delivery::Failed(why) => Err(Error::Usb(why)),
                }
            }),
    {
        if self.buf.len() == 0 {
            assert(self@ =~= Seq::<u8>::empty());
            return Ok(0);
        }
        match delivery {
            Delivery::Written(count) => {
                self.buf.clear();
                Ok(count)
            },
            Delivery::TimedOut(problems) => Err(Error::Stalled(problems)),
            Delivery::Failed(why) => Err(Error::Usb(why)),
        }
    }
}

impl Error {
    /// The error in words.
    pub open spec fn words(self) -> Seq<char> {
        match self {
            Error::NotFound =>
                "TM-T20II not found on USB \u{2014} is it powered on and plugged in?"@,
            Error::Usb(why) => "USB error: "@ + why@,
            Error::Stalled(problems) => "printer would not accept data: "@ + (
            if problems@.len() == 0 {
                "it stopped responding (check the cover is latched and paper is loaded)"@
            } else {
                text::joined(text::views(problems@), ", "@)
            }),
        }
    }

    /// The error in words, for whoever sent the job.
    pub fn message(&self) -> (r: String)
        ensures
            r@ == self.words(),
    {
        match self {
            Error::NotFound =>
                "TM-T20II not found on USB \u{2014} is it powered on and plugged in?".to_string(),
            Error::Usb(why) => {
                let mut out = "USB error: ".to_string();
                out.append(why.as_str());
                out
            },
            Error::Stalled(problems) => {
                let mut out = "printer would not accept data: ".to_string();
                if problems.len() == 0 {
                    out.append(
                        "it stopped responding (check the cover is latched and paper is loaded)",
                    );
                } else {
                    out.append(join(problems.as_slice(), ", ").as_str());
                }
                out
            },
        }
    }
}

/// An error names its cause: what the USB stack said, word for word, or every problem that
/// the printer told of, in order, and where it told of none that it stopped responding.
pub proof fn errors_name_their_cause(error: Error, problem: Seq<char>)
    ensures
        error matches Error::Usb(why) ==> error.words() == "USB error: "@ + why@,
        error matches Error::Stalled(problems) ==> {
            let told = text::views(problems@);
            let start = "printer would not accept data: "@;
            &&& told == seq![problem] ==> error.words() == start + problem
            &&& told.len() > 0 ==> forall|more: Error|
                #![trigger more.words()]
                more matches Error::Stalled(others) && text::views(others@) == told.push(problem)
                    ==> more.words() == error.words() + ", "@ + problem
            &&& told.len() == 0 ==> error.words() == start
                + "it stopped responding (check the cover is latched and paper is loaded)"@
        },
{
    match error {
        Error::Stalled(problems) => {
            let told = text::views(problems@);
            let start = "printer would not accept data: "@;
            if told == seq![problem] {
                text::joining_goes_on(seq![problem], seq![problem], ", "@);
            }
            if told.len() > 0 {
                text::joining_goes_on(told, seq![problem], ", "@);
                text::joining_goes_on(seq![problem], seq![problem], ", "@);
                assert(told.push(problem) =~= told + seq![problem]);
                assert(start + (text::joined(told, ", "@) + ", "@ + problem) =~= start
                    + text::joined(told, ", "@) + ", "@ + problem);
            }
        },
        _ => {},
    }
}

} // verus!
