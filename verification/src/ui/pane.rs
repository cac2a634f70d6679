//! A pane is a buffered area that can be drawn at a certain place on the
//! screen.

use vstd::prelude::*;
use crate::text::{append_chars, string_of};
use crate::number::{decimal, decimal_chars, digit_char};

verus! {

/// A rectangle of character cells, stored row by row.
pub struct Pane {
    pub width: usize,
    pub height: usize,
    /// The character in each cell.
    pub text: Vec<char>,
    /// The colour of each character; 0 stands for the default.
    pub fg: Vec<u8>,
    /// The colour behind each character; 0 stands for the default.
    pub bg: Vec<u8>,
    /// The colour that is used for what is drawn next.
    pub fg_current: u8,
    /// The background colour that is used for what is drawn next.
    pub bg_current: u8,
}

pub struct PaneView {
    pub width: usize,
    pub height: usize,
    pub text: Seq<char>,
    pub fg: Seq<u8>,
    pub bg: Seq<u8>,
    pub fg_current: u8,
    pub bg_current: u8,
}

impl View for Pane {
    type V = PaneView;

    open spec fn view(&self) -> PaneView {
        PaneView {
            width: self.width,
            height: self.height,
            text: self.text@,
            fg: self.fg@,
            bg: self.bg@,
            fg_current: self.fg_current,
            bg_current: self.bg_current,
        }
    }
}

/// A pane of blanks in the default colours.
pub open spec fn blank(width: usize, height: usize) -> PaneView {
    PaneView {
        width,
        height,
        text: Seq::new((width * height) as nat, |i: int| ' '),
        fg: Seq::new((width * height) as nat, |i: int| 0u8),
        bg: Seq::new((width * height) as nat, |i: int| 0u8),
        fg_current: 0,
        bg_current: 0,
    }
}

/// The escape sequence that sets the default colour of characters.
pub open spec fn clear_fg() -> Seq<char> {
    seq!['\x1B', '[', '3', '8', ';', '5', ';', '1', '5', 'm']
}

/// The escape sequence that sets the default colour of the background.
pub open spec fn clear_bg() -> Seq<char> {
    seq!['\x1B', '[', '4', '8', ';', '5', ';', '0', 'm']
}

/// The escape sequence that sets a colour: `layer` is `3` for characters and
/// `4` for the background. Of the colour's number the last digit is written
/// first, then the digit before it if the number has one.
pub open spec fn colour_code(layer: char, colour: u8) -> Seq<char> {
    let head = seq!['\x1B', '[', layer, '8', ';', '5', ';', digit_char((colour % 10) as nat)];
    if colour >= 10 {
        head + seq![digit_char(((colour / 10) % 10) as nat), 'm']
    } else {
        head + seq!['m']
    }
}

/// What is written for cell `i`: a line break in front of the first cell of
/// every row but the first, the two colours, and the character.
pub open spec fn cell_text(pane: PaneView, i: int) -> Seq<char> {
    let line_break = if i > 0 && i % (pane.width as int) == 0 {
        clear_bg() + seq!['\n']
    } else {
        Seq::empty()
    };
    let fg = if pane.fg[i] > 0 {
        colour_code('3', pane.fg[i])
    } else {
        clear_fg()
    };
    let bg = if pane.bg[i] > 0 {
        colour_code('4', pane.bg[i])
    } else {
        clear_bg()
    };
    line_break + fg + bg + seq![pane.text[i]]
}

/// What is written for the first `n` cells.
pub open spec fn cells_text(pane: PaneView, n: nat) -> Seq<char>
    decreases n,
{
    if n == 0 {
        Seq::empty()
    } else {
        cells_text(pane, (n - 1) as nat) + cell_text(pane, n - 1)
    }
}

/// The text that shows the pane on a terminal: all its cells, and then the
/// sequence that moves the cursor back up to the first row.
pub open spec fn frame_text(pane: PaneView) -> Seq<char> {
    cells_text(pane, (pane.width * pane.height) as nat) + seq!['\x1B', '['] + decimal(
        pane.height as nat,
    ) + seq!['A', '\x1B', '[', 'K', '\n']
}

fn digit_of(d: u8) -> (c: char)
    requires
        d < 10,
    ensures
        c == digit_char(d as nat),
{
    if d == 0 {
        '0'
    } else if d == 1 {
        '1'
    } else if d == 2 {
        '2'
    } else if d == 3 {
        '3'
    } else if d == 4 {
        '4'
    } else if d == 5 {
        '5'
    } else if d == 6 {
        '6'
    } else if d == 7 {
        '7'
    } else if d == 8 {
        '8'
    } else {
        '9'
    }
}

fn push_colour(output: &mut Vec<char>, layer: char, colour: u8)
    ensures
        final(output)@ == old(output)@ + colour_code(layer, colour),
{
    output.push('\x1B');
    output.push('[');
    output.push(layer);
    output.push('8');
    output.push(';');
    output.push('5');
    output.push(';');
    output.push(digit_of(colour % 10));
    if colour >= 10 {
        output.push(digit_of((colour / 10) % 10));
    }
    output.push('m');
    proof {
        assert(output@ == old(output)@ + colour_code(layer, colour));
    }
}

fn term_clear_fg(output: &mut Vec<char>)
    ensures
        final(output)@ == old(output)@ + clear_fg(),
{
    output.push('\x1B');
    output.push('[');
    output.push('3');
    output.push('8');
    output.push(';');
    output.push('5');
    output.push(';');
    output.push('1');
    output.push('5');
    output.push('m');
    proof {
        assert(output@ == old(output)@ + clear_fg());
    }
}

fn term_clear_bg(output: &mut Vec<char>)
    ensures
        final(output)@ == old(output)@ + clear_bg(),
{
    output.push('\x1B');
    output.push('[');
    output.push('4');
    output.push('8');
    output.push(';');
    output.push('5');
    output.push(';');
    output.push('0');
    output.push('m');
    proof {
        assert(output@ == old(output)@ + clear_bg());
    }
}

impl Pane {
    /// Every cell has its character and its two colours.
    pub open spec fn wf(&self) -> bool {
        &&& self.width * self.height <= usize::MAX
        &&& self.text@.len() == self.width * self.height
        &&& self.fg@.len() == self.width * self.height
        &&& self.bg@.len() == self.width * self.height
    }

    /// A pane of blanks in the default colours.
    pub fn new(width: usize, height: usize) -> (pane: Pane)
        requires
            width * height <= usize::MAX,
        ensures
            pane.wf(),
            pane@ == blank(width, height),
    {
        let cells: usize = width * height;
        let mut text: Vec<char> = Vec::new();
        let mut fg: Vec<u8> = Vec::new();
        let mut bg: Vec<u8> = Vec::new();
        let mut i: usize = 0;
        while i < cells
            invariant
                i <= cells,
                text@ == Seq::new(i as nat, |k: int| ' '),
                fg@ == Seq::new(i as nat, |k: int| 0u8),
                bg@ == Seq::new(i as nat, |k: int| 0u8),
            decreases cells - i,
        {
            text.push(' ');
            fg.push(0);
            bg.push(0);
            i += 1;
        }
        Pane { width, height, text, fg, bg, fg_current: 0, bg_current: 0 }
    }

    /// Writes the pane out: returns the text that shows it on a terminal,
    /// and sets the current colours back to white on black. The position is
    /// not used yet.
    pub fn draw(&mut self, x: usize, y: usize) -> (out: String)
        requires
            old(self).wf(),
        ensures
            final(self).wf(),
            out@ == frame_text(old(self)@),
            final(self)@ == (PaneView { fg_current: 15, bg_current: 0, ..old(self)@ }),
    {
        let cells: usize = self.width * self.height;
        let mut output: Vec<char> = Vec::new();
        let mut i: usize = 0;
        while i < cells
            invariant
                i <= cells,
                cells == self.width * self.height,
                self.wf(),
                *self == *old(self),
                output@ == cells_text(self@, i as nat),
            decreases cells - i,
        {
            let ghost before = output@;
            if i > 0 && i % self.width == 0 {
                term_clear_bg(&mut output);
                output.push('\n');
            }
            let ghost broken = output@;
            if self.fg[i] > 0 {
                push_colour(&mut output, '3', self.fg[i]);
            } else {
                term_clear_fg(&mut output);
            }
            if self.bg[i] > 0 {
                push_colour(&mut output, '4', self.bg[i]);
            } else {
                term_clear_bg(&mut output);
            }
            output.push(self.text[i]);
            proof {
                assert(output@ == before + cell_text(self@, i as int));
            }
            i += 1;
        }
        output.push('\x1B');
        output.push('[');
        let rows = decimal_chars(self.height as u128);
        let ghost cells_done = cells_text(self@, cells as nat);
        append_chars(&mut output, &rows);
        output.push('A');
        output.push('\x1B');
        output.push('[');
        output.push('K');
        output.push('\n');
        proof {
            assert(output@ == cells_done + seq!['\x1B', '['] + decimal(self.height as nat) + seq![
                'A',
                '\x1B',
                '[',
                'K',
                '\n',
            ]);
        }
        self.fg_current = 15;
        self.bg_current = 0;
        string_of(&output)
    }
}

} // verus!
