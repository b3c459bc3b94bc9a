//! The synchronized state: a single 64-bit value together with its
//! derived textual representations. Every edit — a bit toggle, a
//! shift, or replacing one representation's text — either fully
//! succeeds, leaving all fields showing the canonical formatting of
//! the new value, or fully resets to zero with the dependent fields
//! blanked. No partially updated state is ever observable.
use crate::radix::{
    char_digit, digits_val, is_digit_in, parse_number, parse_number_spec, radix_digits,
    to_radix_string,
};
use crate::size::{data_size, parse_data_size, parse_size_spec, size_str};
use vstd::prelude::*;

verus! {

/// The representations through which the value can be edited.
#[derive(Clone, Copy, Debug)]
pub enum Repr {
    Hex,
    Dec,
    Oct,
    Bin,
    Size,
}

/// The edits the state accepts. `Toggled(row, col)` flips the bit at
/// index `row * 16 + col` of the four-by-sixteen bit grid.
#[derive(Clone, Debug)]
pub enum BitOps {
    Toggled(u8, u8),
    ShiftLeft(u32),
    ShiftRight(u32),
    ExpressionChanged(String),
    HexChanged(String),
    DecChanged(String),
    OctChanged(String),
    BinChanged(String),
    DataSizeChanged(String),
}

/// `d` with bit `i` flipped.
pub open spec fn toggled(d: u64, i: u64) -> u64
    recommends
        i < 64,
{
    d ^ (1u64 << i)
}

/// Logical left shift, clearing the value when the shift amount
/// reaches the full width.
pub open spec fn shifted_left(d: u64, amount: u32) -> u64 {
    if amount >= 64 {
        0
    } else {
        d << (amount as u64)
    }
}

/// Logical right shift, clearing the value when the shift amount
/// reaches the full width.
pub open spec fn shifted_right(d: u64, amount: u32) -> u64 {
    if amount >= 64 {
        0
    } else {
        d >> (amount as u64)
    }
}

/// The shift expression with an optional leading `+` removed.
pub open spec fn shift_digits(e: Seq<char>) -> Seq<char> {
    if e.len() > 0 && e[0] == '+' {
        e.drop_first()
    } else {
        e
    }
}

/// Whether every character of `s` is a decimal digit.
pub open spec fn digits_only(s: Seq<char>) -> bool {
    forall|j: int| 0 <= j < s.len() ==> is_digit_in(#[trigger] s[j], 10)
}

/// What the free-text shift expression yields: an optional leading
/// `+`, then decimal digits within the 32-bit range, clamped to at
/// most 64; anything else defaults to a shift of one.
pub open spec fn shift_amount_spec(e: Seq<char>) -> u32 {
    let ds = shift_digits(e);
    if ds.len() > 0 && digits_only(ds) && digits_val(ds, 10) <= u32::MAX {
        if digits_val(ds, 10) > 64 {
            64
        } else {
            digits_val(ds, 10) as u32
        }
    } else {
        1
    }
}

/// What an edit through `repr` parses its text to.
pub open spec fn repr_parse(repr: Repr, text: Seq<char>) -> Option<u64> {
    match repr {
        Repr::Hex => parse_number_spec(text, 16),
        Repr::Dec => parse_number_spec(text, 10),
        Repr::Oct => parse_number_spec(text, 8),
        Repr::Bin => parse_number_spec(text, 2),
        Repr::Size => parse_size_spec(text),
    }
}

/// The one 64-bit value and its derived text fields: hexadecimal,
/// decimal, octal and binary (uppercase, unprefixed), the canonical
/// size string, and the in-progress size edit buffer. `expression`
/// holds the raw shift-amount text, validated only when a shift runs.
#[derive(Debug)]
pub struct Bit64 {
    pub data: u64,
    pub expression: String,
    pub hex: String,
    pub dec: String,
    pub oct: String,
    pub bin: String,
    pub size: String,
    pub size_input: String,
}

impl Bit64 {
    /// Every derived field equals the canonical formatting of `data`.
    pub open spec fn displays_current(self) -> bool {
        &&& self.hex@ == radix_digits(self.data as nat, 16)
        &&& self.dec@ == radix_digits(self.data as nat, 10)
        &&& self.oct@ == radix_digits(self.data as nat, 8)
        &&& self.bin@ == radix_digits(self.data as nat, 2)
        &&& self.size@ == size_str(self.data)
        &&& self.size_input@ == size_str(self.data)
    }

    /// The reset rendering after invalid input: value zero, the
    /// numeric fields blanked, the size display showing zero.
    pub open spec fn blank(self) -> bool {
        &&& self.data == 0
        &&& self.hex@ == Seq::<char>::empty()
        &&& self.dec@ == Seq::<char>::empty()
        &&& self.oct@ == Seq::<char>::empty()
        &&& self.bin@ == Seq::<char>::empty()
        &&& self.size@ == size_str(0)
    }

    /// How an edit through one representation leaves the state: on a
    /// successful parse the value is replaced and every field
    /// re-derived; on failure the state resets, and the size edit
    /// buffer keeps the rejected text when the edit was a size edit.
    pub open spec fn set_from_text_post(pre: Bit64, post: Bit64, repr: Repr, text: Seq<char>) -> bool {
        &&& post.expression == pre.expression
        &&& match repr_parse(repr, text) {
            Some(v) => post.data == v && post.displays_current(),
            None => post.blank() && post.size_input@ == (if repr is Size {
                text
            } else {
                size_str(0)
            }),
        }
    }

    /// Recomputes every derived field from the current value.
    fn update_displays(&mut self)
        ensures
            final(self).data == old(self).data,
            final(self).expression == old(self).expression,
            final(self).displays_current(),
    {
        self.hex = to_radix_string(self.data, 16);
        self.dec = to_radix_string(self.data, 10);
        self.oct = to_radix_string(self.data, 8);
        self.bin = to_radix_string(self.data, 2);
        self.size = data_size(self.data);
        self.size_input = self.size.clone();
    }

    /// Resets to the blank rendering: value zero, numeric fields
    /// empty, both size fields showing zero. The edit buffer is reset
    /// along with the rest so that no stale text survives invalid
    /// input.
    fn update_displays_default(&mut self)
        ensures
            final(self).blank(),
            final(self).size_input@ == size_str(0),
            final(self).expression == old(self).expression,
    {
        self.data = 0;
        self.hex = String::new();
        self.dec = String::new();
        self.oct = String::new();
        self.bin = String::new();
        self.size = String::from_str("0 B");
        self.size_input = String::from_str("0 B");
        proof {
            reveal_strlit("0 B");
            assert(final(self).size@ =~= size_str(0));
        }
    }

    /// Flips bit `i` of the value and re-derives every field.
    pub fn toggle_bit(&mut self, i: u8)
        requires
            i < 64,
        ensures
            final(self).data == toggled(old(self).data, i as u64),
            final(self).displays_current(),
            final(self).expression == old(self).expression,
    {
        self.data = self.data ^ (1u64 << (i as u64));
        self.update_displays();
    }

    /// Shifts the value left and re-derives every field; a shift of 64
    /// or more clears the value.
    pub fn shift_left(&mut self, amount: u32)
        ensures
            final(self).data == shifted_left(old(self).data, amount),
            final(self).displays_current(),
            final(self).expression == old(self).expression,
    {
        if amount >= 64 {
            self.data = 0;
        } else {
            self.data = self.data << amount;
        }
        self.update_displays();
    }

    /// Shifts the value right and re-derives every field; a shift of
    /// 64 or more clears the value.
    pub fn shift_right(&mut self, amount: u32)
        ensures
            final(self).data == shifted_right(old(self).data, amount),
            final(self).displays_current(),
            final(self).expression == old(self).expression,
    {
        if amount >= 64 {
            self.data = 0;
        } else {
            self.data = self.data >> amount;
        }
        self.update_displays();
    }

    /// Stores the raw shift-amount text verbatim; nothing else moves.
    pub fn set_expression(&mut self, text: String)
        ensures
            final(self).expression == text,
            final(self).data == old(self).data,
            final(self).hex == old(self).hex,
            final(self).dec == old(self).dec,
            final(self).oct == old(self).oct,
            final(self).bin == old(self).bin,
            final(self).size == old(self).size,
            final(self).size_input == old(self).size_input,
    {
        self.expression = text;
    }

    /// Reads the shift-amount text as an unsigned decimal integer,
    /// defaulting to one when it does not parse and clamping the
    /// result to at most 64.
    pub fn parse_shift_amount(&self) -> (r: u32)
        ensures
            r == shift_amount_spec(self.expression@),
    {
        let s: &str = self.expression.as_str();
        let n = s.unicode_len();
        let mut i: usize = 0;
        if n > 0 && s.get_char(0) == '+' {
            i = 1;
        }
        let ghost ds = shift_digits(s@);
        proof {
            assert(ds =~= s@.skip(i as int));
        }
        if i == n {
            return 1;
        }
        let dstart = i;
        let mut val: u64 = 0;
        let mut over = false;
        while i < n
            invariant
                dstart <= i <= n == s@.len(),
                s@ == self.expression@,
                ds == s@.skip(dstart as int),
                ds == shift_digits(s@),
                forall|j: int| 0 <= j < i - dstart ==> is_digit_in(#[trigger] ds[j], 10),
                !over ==> val == digits_val(ds.take(i - dstart), 10) && val <= u32::MAX,
                over ==> digits_val(ds.take(i - dstart), 10) > u32::MAX,
            decreases n - i,
        {
            let c = s.get_char(i);
            let dv = char_digit(c, 10);
            proof {
                assert(ds[i - dstart] == c);
            }
            if dv >= 10 {
                proof {
                    assert(!digits_only(ds)) by {
                        assert(0 <= i - dstart < ds.len());
                        assert(!is_digit_in(ds[i - dstart], 10));
                    }
                }
                return 1;
            }
            proof {
                assert(ds.take(i + 1 - dstart).drop_last() =~= ds.take(i - dstart));
                assert(ds.take(i + 1 - dstart).last() == c);
            }
            if !over {
                val = val * 10 + (dv as u64);
                if val > u32::MAX as u64 {
                    over = true;
                }
            }
            i += 1;
        }
        proof {
            assert(ds.take(n - dstart) =~= ds);
            assert(digits_only(ds));
        }
        if over {
            return 1;
        }
        if val > 64 {
            64
        } else {
            val as u32
        }
    }

    /// Replaces the value from one representation's edited text. On a
    /// successful parse the value is updated and every field
    /// re-derived; on failure the state resets to zero with dependent
    /// fields blanked, the size edit buffer keeping the rejected text
    /// when the edit came through the size field.
    pub fn set_from_text(&mut self, repr: Repr, text: &str)
        ensures
            Bit64::set_from_text_post(*old(self), *final(self), repr, text@),
    {
        let parsed = match repr {
            Repr::Hex => parse_number(text, 16),
            Repr::Dec => parse_number(text, 10),
            Repr::Oct => parse_number(text, 8),
            Repr::Bin => parse_number(text, 2),
            Repr::Size => parse_data_size(text),
        };
        match parsed {
            Some(v) => {
                self.data = v;
                self.update_displays();
            },
            None => {
                self.update_displays_default();
                match repr {
                    Repr::Size => {
                        self.size_input = text.to_owned();
                    },
                    _ => {},
                }
            },
        }
    }

    /// Applies one edit event. A toggle flips the addressed bit; a
    /// shift moves the value by the carried amount; a text change
    /// replaces the value through that representation, or stores the
    /// shift expression verbatim.
    pub fn update(&mut self, message: BitOps)
        requires
            message matches BitOps::Toggled(i, j) ==> i < 4 && j < 16,
        ensures
            match message {
                BitOps::Toggled(i, j) => {
                    &&& final(self).data == toggled(old(self).data, (i * 16 + j) as u64)
                    &&& final(self).displays_current()
                    &&& final(self).expression == old(self).expression
                },
                BitOps::ShiftLeft(a) => {
                    &&& final(self).data == shifted_left(old(self).data, a)
                    &&& final(self).displays_current()
                    &&& final(self).expression == old(self).expression
                },
                BitOps::ShiftRight(a) => {
                    &&& final(self).data == shifted_right(old(self).data, a)
                    &&& final(self).displays_current()
                    &&& final(self).expression == old(self).expression
                },
                BitOps::ExpressionChanged(t) => {
                    &&& final(self).expression == t
                    &&& final(self).data == old(self).data
                    &&& final(self).hex == old(self).hex
                    &&& final(self).dec == old(self).dec
                    &&& final(self).oct == old(self).oct
                    &&& final(self).bin == old(self).bin
                    &&& final(self).size == old(self).size
                    &&& final(self).size_input == old(self).size_input
                },
                BitOps::HexChanged(t) => Bit64::set_from_text_post(
                    *old(self),
                    *final(self),
                    Repr::Hex,
                    t@,
                ),
                BitOps::DecChanged(t) => Bit64::set_from_text_post(
                    *old(self),
                    *final(self),
                    Repr::Dec,
                    t@,
                ),
                BitOps::OctChanged(t) => Bit64::set_from_text_post(
                    *old(self),
                    *final(self),
                    Repr::Oct,
                    t@,
                ),
                BitOps::BinChanged(t) => Bit64::set_from_text_post(
                    *old(self),
                    *final(self),
                    Repr::Bin,
                    t@,
                ),
                BitOps::DataSizeChanged(t) => Bit64::set_from_text_post(
                    *old(self),
                    *final(self),
                    Repr::Size,
                    t@,
                ),
            },
    {
        match message {
            BitOps::Toggled(i, j) => {
                self.toggle_bit(i * 16 + j);
            },
            BitOps::ShiftLeft(a) => {
                self.shift_left(a);
            },
            BitOps::ShiftRight(a) => {
                self.shift_right(a);
            },
            BitOps::ExpressionChanged(t) => {
                self.set_expression(t);
            },
            BitOps::HexChanged(t) => {
                self.set_from_text(Repr::Hex, t.as_str());
            },
            BitOps::DecChanged(t) => {
                self.set_from_text(Repr::Dec, t.as_str());
            },
            BitOps::OctChanged(t) => {
                self.set_from_text(Repr::Oct, t.as_str());
            },
            BitOps::BinChanged(t) => {
                self.set_from_text(Repr::Bin, t.as_str());
            },
            BitOps::DataSizeChanged(t) => {
                self.set_from_text(Repr::Size, t.as_str());
            },
        }
    }
}

impl Default for Bit64 {
    /// The state starts at zero: empty numeric fields and expression,
    /// both size fields showing zero.
    fn default() -> (s: Self)
        ensures
            s.blank(),
            s.size_input@ == size_str(0),
            s.expression@ == Seq::<char>::empty(),
    {
        let s = Bit64 {
            data: 0,
            expression: String::new(),
            hex: String::new(),
            dec: String::new(),
            oct: String::new(),
            bin: String::new(),
            size: String::from_str("0 B"),
            size_input: String::from_str("0 B"),
        };
        proof {
            reveal_strlit("0 B");
            assert(s.size@ =~= size_str(0));
        }
        s
    }
}

/// Toggling the same bit twice restores the value: toggle is an
/// involution.
pub proof fn lemma_toggle_involution(d: u64, i: u64)
    requires
        i < 64,
    ensures
        toggled(toggled(d, i), i) == d,
{
    assert((d ^ (1u64 << i)) ^ (1u64 << i) == d) by (bit_vector);
}

/// Shifting left by 64 or more clears the value; shifting by zero
/// keeps it unchanged.
pub proof fn lemma_shift_left_range(d: u64, amount: u32)
    ensures
        amount >= 64 ==> shifted_left(d, amount) == 0,
        shifted_left(d, 0) == d,
{
    assert(d << 0u64 == d) by (bit_vector);
}

/// Shifting right by 64 or more clears the value; shifting by zero
/// keeps it unchanged.
pub proof fn lemma_shift_right_range(d: u64, amount: u32)
    ensures
        amount >= 64 ==> shifted_right(d, amount) == 0,
        shifted_right(d, 0) == d,
{
    assert(d >> 0u64 == d) by (bit_vector);
}

} // verus!
