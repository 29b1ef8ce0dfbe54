//! The keystroke logic of a masked password prompt. The terminal itself
//! (reading bytes, echoing masks) belongs to the caller: each byte read is
//! handed to [`MaskedInput::on_key`], which says what to show.

use vstd::prelude::*;

verus! {

/// The displayed width in columns of a character; `None` for a control character.
pub uninterp spec fn char_columns(c: char) -> Option<usize>;

/// The displayed width in columns of a text.
pub uninterp spec fn text_columns(s: Seq<char>) -> usize;

/// Relies on `UnicodeWidthChar::width`: a character's displayed width,
/// `None` for control characters.
#[verifier::external_body]
fn char_width(c: char) -> (r: Option<usize>)
    ensures
        r == char_columns(c),
{
    unicode_width::UnicodeWidthChar::width(c)
}

/// Relies on `UnicodeWidthStr::width`: a text's displayed width.
#[verifier::external_body]
fn text_width(s: &str) -> (r: usize)
    ensures
        r == text_columns(s@),
{
    unicode_width::UnicodeWidthStr::width(s)
}

/// The columns a mask character takes; a control character counts as one.
pub open spec fn mask_columns(c: char) -> usize {
    match char_columns(c) {
        Some(w) => w,
        None => 1,
    }
}

/// What the prompt does after a keystroke.
#[derive(Debug, PartialEq, Eq, Clone, Copy)]
pub enum KeyAction {
    /// The line is complete: print a newline and return the password.
    Finish,
    /// Erase the last mask, which takes this many columns (none when there
    /// was nothing to erase).
    Erase(usize),
    /// The key was taken into the password: show a mask for it.
    Mask,
}

/// The state of a masked prompt: what was typed, and the width of each
/// mask shown.
#[derive(Debug, PartialEq, Eq)]
pub struct MaskedInput {
    pub password: Vec<char>,
    pub mask_widths: Vec<usize>,
}

impl MaskedInput {
    pub fn new() -> (r: MaskedInput)
        ensures
            r.password@.len() == 0,
            r.mask_widths@.len() == 0,
    {
        MaskedInput { password: Vec::new(), mask_widths: Vec::new() }
    }

    /// Handles one byte read from the terminal. Carriage return and line
    /// feed finish the line; backspace and delete remove the last character
    /// and its mask; any other byte is taken as a character of the password.
    pub fn on_key(&mut self, byte: u8) -> (r: KeyAction)
        ensures
            (byte == 13 || byte == 10) ==> r == KeyAction::Finish && *final(self) == *old(self),
            (byte == 8 || byte == 127) ==> {
                &&& final(self).password@ == if old(self).password@.len() > 0 {
                    old(self).password@.drop_last()
                } else {
                    old(self).password@
                }
                &&& final(self).mask_widths@ == if old(self).mask_widths@.len() > 0 {
                    old(self).mask_widths@.drop_last()
                } else {
                    old(self).mask_widths@
                }
                &&& r == KeyAction::Erase(
                    if old(self).mask_widths@.len() > 0 {
                        old(self).mask_widths@.last()
                    } else {
                        0
                    },
                )
            },
            !(byte == 13 || byte == 10 || byte == 8 || byte == 127) ==> {
                &&& final(self).password@ == old(self).password@.push(byte as char)
                &&& final(self).mask_widths@ == old(self).mask_widths@
                &&& r == KeyAction::Mask
            },
    {
        if byte == 13 || byte == 10 {
            KeyAction::Finish
        } else if byte == 8 || byte == 127 {
            self.password.pop();
            match self.mask_widths.pop() {
                Some(w) => KeyAction::Erase(w),
                None => KeyAction::Erase(0),
            }
        } else {
            self.password.push(byte as char);
            KeyAction::Mask
        }
    }

    /// Records that the mask character `c` was shown.
    pub fn masked_with_char(&mut self, c: char)
        ensures
            final(self).password == old(self).password,
            final(self).mask_widths@ == old(self).mask_widths@.push(mask_columns(c)),
    {
        let w = match char_width(c) {
            Some(w) => w,
            None => 1,
        };
        self.mask_widths.push(w);
    }

    /// Records that the mask text `s` was shown.
    pub fn masked_with_text(&mut self, s: &str)
        ensures
            final(self).password == old(self).password,
            final(self).mask_widths@ == old(self).mask_widths@.push(text_columns(s@)),
    {
        let w = text_width(s);
        self.mask_widths.push(w);
    }

    /// How many masks are on screen.
    pub fn position(&self) -> (r: usize)
        ensures
            r == self.mask_widths@.len(),
    {
        self.mask_widths.len()
    }
}

} // verus!
