//! Text console: an 80x25 grid of (character, attribute) cells, a cursor
//! position and a current attribute.
//!
//! [`Writer`] holds the contents of the video buffer and the value of the
//! hardware cursor-location register pair; whoever owns the hardware mirrors
//! them there (see [`cursor_port_writes`]).

use vstd::prelude::*;

use crate::serial::PortWrite;

verus! {

/// Console width in characters.
pub const WIDTH: usize = 80;

/// Console height in characters.
pub const HEIGHT: usize = 25;

/// The total console size in characters, defined as `WIDTH * HEIGHT`.
pub const SIZE: usize = WIDTH * HEIGHT;

/// Glyph written for any character outside ASCII.
pub const REPLACEMENT: u8 = 0xfe;

/// Attribute after a clear: light gray on black.
pub const DEFAULT_ATTRS: u8 = 0x07;

/// CRT controller index and data ports.
pub const CRTC_INDEX: u16 = 0x3d4;

pub const CRTC_DATA: u16 = 0x3d5;

/// Text color for characters and background shown on the console.
#[derive(Clone, Copy, PartialEq, Eq, Debug, Structural)]
pub enum Color {
    Black,
    Blue,
    Green,
    Cyan,
    Red,
    Magenta,
    Brown,
    LightGray,
    Gray,
    LightBlue,
    LightGreen,
    LightCyan,
    LightRed,
    Pink,
    Yellow,
    White,
}

impl Color {
    /// The palette index of the color.
    pub open spec fn index(self) -> u8 {
        match self {
            Color::Black => 0,
            Color::Blue => 1,
            Color::Green => 2,
            Color::Cyan => 3,
            Color::Red => 4,
            Color::Magenta => 5,
            Color::Brown => 6,
            Color::LightGray => 7,
            Color::Gray => 8,
            Color::LightBlue => 9,
            Color::LightGreen => 10,
            Color::LightCyan => 11,
            Color::LightRed => 12,
            Color::Pink => 13,
            Color::Yellow => 14,
            Color::White => 15,
        }
    }

    /// The palette index of the color.
    pub fn as_u8(self) -> (r: u8)
        ensures
            r == self.index(),
            r < 16,
    {
        match self {
            Color::Black => 0,
            Color::Blue => 1,
            Color::Green => 2,
            Color::Cyan => 3,
            Color::Red => 4,
            Color::Magenta => 5,
            Color::Brown => 6,
            Color::LightGray => 7,
            Color::Gray => 8,
            Color::LightBlue => 9,
            Color::LightGreen => 10,
            Color::LightCyan => 11,
            Color::LightRed => 12,
            Color::Pink => 13,
            Color::Yellow => 14,
            Color::White => 15,
        }
    }

    /// The color with palette index `val`, or `val` back when it is 16 or more.
    pub fn try_from(val: u8) -> (r: Result<Color, u8>)
        ensures
            r is Ok <==> val < 16,
            r matches Ok(c) ==> c.index() == val,
            r matches Err(e) ==> e == val,
    {
        match val {
            0 => Ok(Color::Black),
            1 => Ok(Color::Blue),
            2 => Ok(Color::Green),
            3 => Ok(Color::Cyan),
            4 => Ok(Color::Red),
            5 => Ok(Color::Magenta),
            6 => Ok(Color::Brown),
            7 => Ok(Color::LightGray),
            8 => Ok(Color::Gray),
            9 => Ok(Color::LightBlue),
            10 => Ok(Color::LightGreen),
            11 => Ok(Color::LightCyan),
            12 => Ok(Color::LightRed),
            13 => Ok(Color::Pink),
            14 => Ok(Color::Yellow),
            15 => Ok(Color::White),
            _ => Err(val),
        }
    }
}

/// One screen cell: a character code and its attribute byte.
#[derive(Clone, Copy, PartialEq, Eq, Debug, Structural)]
pub struct VgaChar {
    pub char: u8,
    pub attrs: u8,
}

/// The writes to the CRT controller that move the hardware cursor to
/// `position`: low byte through register 0x0f, then high byte through 0x0e.
pub fn cursor_port_writes(position: u16) -> (w: Vec<PortWrite>)
    ensures
        w@ == seq![
            PortWrite { port: CRTC_INDEX, value: 0x0f },
            PortWrite { port: CRTC_DATA, value: (position % 256) as u8 },
            PortWrite { port: CRTC_INDEX, value: 0x0e },
            PortWrite { port: CRTC_DATA, value: (position / 256) as u8 },
        ],
{
    let mut w: Vec<PortWrite> = Vec::new();
    w.push(PortWrite { port: CRTC_INDEX, value: 0x0f });
    w.push(PortWrite { port: CRTC_DATA, value: (position % 256) as u8 });
    w.push(PortWrite { port: CRTC_INDEX, value: 0x0e });
    w.push(PortWrite { port: CRTC_DATA, value: (position / 256) as u8 });
    w
}

/// What a [`Writer`] holds.
pub struct ConsoleView {
    pub position: nat,
    pub attrs: u8,
    pub cells: Seq<VgaChar>,
    /// Value of the hardware cursor-location registers.
    pub cursor: nat,
}

/// The screen after every row has moved up one, the first row's content
/// dropping off, and the last row has been blanked with `attrs`.
pub open spec fn scrolled(cells: Seq<VgaChar>, attrs: u8) -> Seq<VgaChar> {
    Seq::new(
        SIZE as nat,
        |i: int|
            if i < SIZE - WIDTH {
                cells[i + WIDTH]
            } else {
                VgaChar { char: 0, attrs }
            },
    )
}

/// The console after the position moves on by `count` cells; past the last
/// cell, the screen scrolls and the position goes to the start of the last row.
pub open spec fn advanced(v: ConsoleView, count: nat) -> ConsoleView {
    if v.position + count < SIZE {
        ConsoleView { position: v.position + count, cursor: v.position + count, ..v }
    } else {
        ConsoleView {
            position: (SIZE - WIDTH) as nat,
            cells: scrolled(v.cells, v.attrs),
            cursor: (SIZE - WIDTH) as nat,
            ..v
        }
    }
}

/// The console after `b` is written at the position with the current
/// attribute, and the position moves on by one cell.
pub open spec fn written(v: ConsoleView, b: u8) -> ConsoleView {
    advanced(
        ConsoleView {
            cells: v.cells.update(v.position as int, VgaChar { char: b, attrs: v.attrs }),
            ..v
        },
        1,
    )
}

/// The console after `put_char(c)`.
pub open spec fn put_char_spec(v: ConsoleView, c: char) -> ConsoleView {
    if c == '\0' {
        written(v, 0)
    } else if c == '\n' {
        advanced(v, (WIDTH - v.position % (WIDTH as nat)) as nat)
    } else if ' ' <= c <= '~' {
        written(v, c as u8)
    } else if c >= '\u{80}' {
        written(v, REPLACEMENT)
    } else {
        v
    }
}

/// The console after `put_char` for each character of `s`, in order.
pub open spec fn put_str_spec(v: ConsoleView, s: Seq<char>) -> ConsoleView
    decreases s.len(),
{
    if s.len() == 0 {
        v
    } else {
        put_char_spec(put_str_spec(v, s.drop_last()), s.last())
    }
}

/// A character that `put_char` writes as its own code.
pub open spec fn printable(c: char) -> bool {
    ' ' <= c <= '~'
}

/// The state after the first `n` printable characters of `s`, written from
/// the top-left corner: the screen fills row by row, and once it is full each
/// further row scrolls it up by one.
proof fn lemma_fill(v: ConsoleView, s: Seq<char>, n: nat)
    requires
        v.cells.len() == SIZE,
        v.position == 0,
        n <= s.len(),
        n < SIZE + WIDTH,
        forall|i: int| 0 <= i < s.len() ==> printable(#[trigger] s[i]),
    ensures
        ({
            let w = put_str_spec(v, s.take(n as int));
            &&& w.attrs == v.attrs
            &&& w.cells.len() == SIZE
            &&& n > 0 ==> w.cursor == w.position
            &&& n < SIZE ==> {
                &&& w.position == n
                &&& forall|i: int| 0 <= i < n ==> #[trigger] w.cells[i] == (VgaChar { char: s[i] as u8, attrs: v.attrs })
                &&& forall|i: int| n <= i < SIZE ==> #[trigger] w.cells[i] == v.cells[i]
            }
            &&& n >= SIZE ==> {
                &&& w.position == n - WIDTH
                &&& forall|i: int| 0 <= i < n - WIDTH ==> #[trigger] w.cells[i] == (VgaChar { char: s[i + WIDTH] as u8, attrs: v.attrs })
                &&& forall|i: int| n - WIDTH <= i < SIZE ==> #[trigger] w.cells[i] == (VgaChar { char: 0, attrs: v.attrs })
            }
        }),
    decreases n,
{
    if n == 0 {
        assert(s.take(0) =~= Seq::<char>::empty());
    } else {
        let m = (n - 1) as nat;
        lemma_fill(v, s, m);
        assert(s.take(n as int).drop_last() =~= s.take(m as int));
        let u = put_str_spec(v, s.take(m as int));
        let c = s[m as int];
        assert(printable(c));
        let w = put_str_spec(v, s.take(n as int));
        assert(w == written(u, c as u8));
        let cells = u.cells.update(u.position as int, VgaChar { char: c as u8, attrs: v.attrs });
        if n < SIZE {
            assert forall|i: int| 0 <= i < n implies #[trigger] w.cells[i] == (VgaChar { char: s[i] as u8, attrs: v.attrs }) by {
                if i < m {
                    assert(cells[i] == u.cells[i]);
                }
            }
            assert forall|i: int| n <= i < SIZE implies #[trigger] w.cells[i] == v.cells[i] by {
                assert(cells[i] == u.cells[i]);
            }
        } else if n == SIZE {
            assert(w.cells == scrolled(cells, v.attrs));
            assert forall|i: int| 0 <= i < n - WIDTH implies #[trigger] w.cells[i] == (VgaChar { char: s[i + WIDTH] as u8, attrs: v.attrs }) by {
                if i + WIDTH < m {
                    assert(cells[i + WIDTH] == u.cells[i + WIDTH]);
                }
            }
        } else {
            assert forall|i: int| 0 <= i < n - WIDTH implies #[trigger] w.cells[i] == (VgaChar { char: s[i + WIDTH] as u8, attrs: v.attrs }) by {
                if i < m - WIDTH {
                    assert(cells[i] == u.cells[i]);
                }
            }
            assert forall|i: int| n - WIDTH <= i < SIZE implies #[trigger] w.cells[i] == (VgaChar { char: 0, attrs: v.attrs }) by {
                assert(cells[i] == u.cells[i]);
            }
        }
    }
}

/// Writing one screenful plus five printable characters from the top-left
/// corner scrolls exactly once: every row moves up by one, the first row's
/// content is gone, the last row holds the five new characters followed by
/// blanks in the current attribute, and the cursor is at column 5 of the
/// last row.
pub proof fn lemma_screen_and_five_scrolls_once(v: ConsoleView, s: Seq<char>)
    requires
        v.cells.len() == SIZE,
        v.position == 0,
        s.len() == SIZE + 5,
        forall|i: int| 0 <= i < s.len() ==> printable(#[trigger] s[i]),
    ensures
        put_str_spec(v, s).position == SIZE - WIDTH + 5,
        put_str_spec(v, s).cursor == SIZE - WIDTH + 5,
        put_str_spec(v, s).attrs == v.attrs,
        put_str_spec(v, s).cells.len() == SIZE,
        forall|i: int|
            0 <= i < SIZE - WIDTH + 5 ==> #[trigger] put_str_spec(v, s).cells[i] == (VgaChar {
                char: s[i + WIDTH] as u8,
                attrs: v.attrs,
            }),
        forall|i: int|
            SIZE - WIDTH + 5 <= i < SIZE ==> #[trigger] put_str_spec(v, s).cells[i] == (VgaChar {
                char: 0,
                attrs: v.attrs,
            }),
{
    lemma_fill(v, s, (SIZE + 5) as nat);
    assert(s.take(SIZE + 5) =~= s);
}

/// Handle used for writing text to the console.
pub struct Writer {
    position: usize,
    attrs: u8,
    cells: Vec<VgaChar>,
    cursor: u16,
}

impl View for Writer {
    type V = ConsoleView;

    closed spec fn view(&self) -> ConsoleView {
        ConsoleView {
            position: self.position as nat,
            attrs: self.attrs,
            cells: self.cells@,
            cursor: self.cursor as nat,
        }
    }
}

impl Writer {
    /// The position is on the screen and the screen has every cell.
    pub closed spec fn wf(&self) -> bool {
        &&& self.position < SIZE
        &&& self.cells@.len() == SIZE
        &&& self.cursor < SIZE
    }

    /// The console handle, in the state the machine starts in: position 0,
    /// light gray on black, a blank screen.
    pub fn get() -> (r: Writer)
        ensures
            r.wf(),
            r@.position == 0,
            r@.attrs == DEFAULT_ATTRS,
            r@.cursor == 0,
            r@.cells == Seq::new(SIZE as nat, |i: int| VgaChar { char: 0, attrs: DEFAULT_ATTRS }),
    {
        let mut cells: Vec<VgaChar> = Vec::new();
        let mut i: usize = 0;
        while i < SIZE
            invariant
                i <= SIZE,
                cells@ =~= Seq::new(i as nat, |j: int| VgaChar { char: 0, attrs: DEFAULT_ATTRS }),
            decreases SIZE - i,
        {
            cells.push(VgaChar { char: 0, attrs: DEFAULT_ATTRS });
            i = i + 1;
        }
        Writer { position: 0, attrs: DEFAULT_ATTRS, cells, cursor: 0 }
    }

    /// Sets the current position of the console cursor. Returns `Ok` if the given cursor position
    /// is within bounds (`pos < SIZE`), otherwise returns `Err(pos)` and has no effect.
    pub fn set_position(&mut self, pos: usize) -> (r: Result<(), usize>)
        requires
            old(self).wf(),
        ensures
            final(self).wf(),
            r is Ok <==> pos < SIZE,
            r is Ok ==> final(self)@ == (ConsoleView {
                position: pos as nat,
                cursor: pos as nat,
                ..old(self)@
            }),
            r matches Err(e) ==> e == pos && final(self)@ == old(self)@,
    {
        if pos < SIZE {
            self.position = pos;
            self.cursor = pos as u16;
            Ok(())
        } else {
            Err(pos)
        }
    }

    /// Returns the current position of the console cursor.
    pub fn get_position(&self) -> (r: usize)
        ensures
            r == self@.position,
    {
        self.position
    }

    /// The current attribute byte.
    pub fn attrs(&self) -> (r: u8)
        ensures
            r == self@.attrs,
    {
        self.attrs
    }

    /// The value of the hardware cursor-location registers.
    pub fn cursor(&self) -> (r: u16)
        ensures
            r == self@.cursor,
    {
        self.cursor
    }

    /// The cell at `index`, row-major.
    pub fn cell(&self, index: usize) -> (r: VgaChar)
        requires
            self.wf(),
            index < SIZE,
        ensures
            r == self@.cells[index as int],
    {
        self.cells[index]
    }

    /// Sets the text color for subsequent character writes to the console.
    pub fn set_text_color(&mut self, color: Color)
        ensures
            final(self)@ == (ConsoleView { attrs: (old(self)@.attrs & 0xf0) | color.index(), ..old(self)@ }),
            final(self)@.attrs % 16 == color.index(),
            final(self)@.attrs / 16 == old(self)@.attrs / 16,
            old(self).wf() ==> final(self).wf(),
    {
        let c = color.as_u8();
        let a = self.attrs;
        let n = (a & 0xf0) | c;
        assert(n % 16 == c && n / 16 == a / 16) by (bit_vector)
            requires
                n == (a & 0xf0) | c,
                c < 16,
        ;
        self.attrs = n;
    }

    /// Sets the background color for subsequent character writes to the console.
    pub fn set_bg_color(&mut self, color: Color)
        ensures
            final(self)@ == (ConsoleView { attrs: (old(self)@.attrs & 0x0f) | ((color.index() as u8) << 4u8), ..old(self)@ }),
            final(self)@.attrs / 16 == color.index(),
            final(self)@.attrs % 16 == old(self)@.attrs % 16,
            old(self).wf() ==> final(self).wf(),
    {
        let c = color.as_u8();
        let a = self.attrs;
        let n = (a & 0x0f) | (c << 4u8);
        assert(n / 16 == c && n % 16 == a % 16) by (bit_vector)
            requires
                n == (a & 0x0f) | (c << 4u8),
                c < 16,
        ;
        self.attrs = n;
    }

    fn advance(&mut self, count: usize)
        requires
            old(self).wf(),
            count <= usize::MAX - SIZE,
        ensures
            final(self).wf(),
            final(self)@ == advanced(old(self)@, count as nat),
    {
        let pos = self.position + count;
        if pos < SIZE {
            self.position = pos;
        } else {
            self.position = SIZE - WIDTH;
            // Scroll text lines up, and then clear the bottom line
            let mut i: usize = 0;
            while i < SIZE - WIDTH
                invariant
                    i <= SIZE - WIDTH,
                    self.cells@.len() == SIZE,
                    self.position == SIZE - WIDTH,
                    self.attrs == old(self).attrs,
                    forall|j: int| 0 <= j < i ==> self.cells@[j] == old(self).cells@[j + WIDTH],
                    forall|j: int| i <= j < SIZE ==> self.cells@[j] == old(self).cells@[j],
                decreases SIZE - WIDTH - i,
            {
                let moved = self.cells[i + WIDTH];
                self.cells.set(i, moved);
                i = i + 1;
            }
            while i < SIZE
                invariant
                    SIZE - WIDTH <= i <= SIZE,
                    self.cells@.len() == SIZE,
                    self.position == SIZE - WIDTH,
                    self.attrs == old(self).attrs,
                    forall|j: int| 0 <= j < SIZE - WIDTH ==> self.cells@[j] == old(self).cells@[j + WIDTH],
                    forall|j: int|
                        SIZE - WIDTH <= j < i ==> self.cells@[j] == (VgaChar { char: 0, attrs: self.attrs }),
                decreases SIZE - i,
            {
                self.cells.set(i, VgaChar { char: 0, attrs: self.attrs });
                i = i + 1;
            }
            assert(self.cells@ =~= scrolled(old(self).cells@, self.attrs));
        }
        self.cursor = self.position as u16;
    }

    fn put_byte(&mut self, b: u8)
        requires
            old(self).wf(),
        ensures
            final(self).wf(),
            final(self)@ == written(old(self)@, b),
    {
        let attrs = self.attrs;
        self.cells.set(self.position, VgaChar { char: b, attrs });
        self.advance(1);
    }

    /// Clears the console by removing all text and setting the default colors.
    pub fn clear_screen(&mut self)
        requires
            old(self).wf(),
        ensures
            final(self).wf(),
            final(self)@ == (ConsoleView {
                position: 0,
                attrs: DEFAULT_ATTRS,
                cells: Seq::new(SIZE as nat, |i: int| VgaChar { char: 0, attrs: DEFAULT_ATTRS }),
                cursor: 0,
            }),
    {
        self.position = 0;
        self.cursor = 0;
        self.set_text_color(Color::LightGray);
        self.set_bg_color(Color::Black);
        let attrs = self.attrs;
        assert(attrs == DEFAULT_ATTRS) by (bit_vector)
            requires
                attrs % 16 == 7,
                attrs / 16 == 0,
        ;
        let mut i: usize = 0;
        while i < SIZE
            invariant
                i <= SIZE,
                self.cells@.len() == SIZE,
                self.position == 0,
                self.attrs == DEFAULT_ATTRS,
                attrs == DEFAULT_ATTRS,
                self.cursor == 0,
                forall|j: int| 0 <= j < i ==> self.cells@[j] == (VgaChar { char: 0, attrs: DEFAULT_ATTRS }),
            decreases SIZE - i,
        {
            self.cells.set(i, VgaChar { char: 0, attrs });
            i = i + 1;
        }
        assert(self.cells@ =~= Seq::new(SIZE as nat, |i: int| VgaChar { char: 0, attrs: DEFAULT_ATTRS }));
    }

    /// Writes one character to the console.
    pub fn put_char(&mut self, c: char)
        requires
            old(self).wf(),
        ensures
            final(self).wf(),
            final(self)@ == put_char_spec(old(self)@, c),
    {
        if c == '\0' {
            self.put_byte(0);
        } else if c == '\n' {
            self.advance(WIDTH - self.position % WIDTH);
        } else if ' ' <= c && c <= '~' {
            self.put_byte(c as u8);
        } else if c >= '\u{80}' {
            self.put_byte(REPLACEMENT);
        }
    }

    /// Writes each character of `s` in turn.
    pub fn write_str(&mut self, s: &str)
        requires
            old(self).wf(),
        ensures
            final(self).wf(),
            final(self)@ == put_str_spec(old(self)@, s@),
    {
        proof {
            broadcast use vstd::string::axiom_spec_iter;
        }
        for c in it: s.chars()
            invariant
                self.wf(),
                it.seq() == s@,
                self@ == put_str_spec(old(self)@, it.seq().take(it.index() as int)),
        {
            proof {
                let done = it.seq().take(it.index() as int + 1);
                assert(done.drop_last() =~= it.seq().take(it.index() as int));
            }
            self.put_char(c);
        }
        proof {
            assert(s@.take(s@.len() as int) =~= s@);
        }
    }
}

} // verus!
