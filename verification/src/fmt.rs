//! The rendering of a region pointer as text.
//!
//! A pointer is rendered as the name of its type, with the names of its ordering and of its
//! element type between angle brackets, and then its parts between braces: its address in
//! hexadecimal, its head in binary with as many digits as the head has bits, its bit count in
//! decimal, and whatever further fields the caller gives.

use vstd::prelude::*;
use vstd::string::StringExecFns;
use wyz::fmt::FmtForward;
use crate::order::BitOrder;
use crate::ptr::{BitPtr, Region};
use crate::store::{BitStore, index_bits, indx};

verus! {

/// The character of a digit below sixteen: `0` to `9`, then `a` to `f`.
pub open spec fn digit_char(digit: nat) -> char {
    if digit < 10 {
        (48 + digit) as char
    } else {
        (87 + digit) as char
    }
}

/// The digits of `n` in base sixteen, the most significant first.
pub open spec fn hex_digits(n: nat) -> Seq<char>
    decreases n,
{
    if n < 16 {
        seq![digit_char(n)]
    } else {
        hex_digits(n / 16).push(digit_char(n % 16))
    }
}

/// The digits of `n` in base ten, the most significant first.
pub open spec fn decimal_digits(n: nat) -> Seq<char>
    decreases n,
{
    if n < 10 {
        seq![digit_char(n)]
    } else {
        decimal_digits(n / 10).push(digit_char(n % 10))
    }
}

/// The digits of `n` in base two, the most significant first, with zeros before them where
/// there are fewer than `width`.
pub open spec fn binary_digits(n: nat, width: nat) -> Seq<char>
    decreases n, width,
{
    if n < 2 && width <= 1 {
        seq![digit_char(n)]
    } else {
        binary_digits(n / 2, (width - 1) as nat).push(digit_char(n % 2))
    }
}

/// The text of the fields that a caller adds to the rendering: each with a comma before it,
/// as its name, a colon and its value.
pub open spec fn fields_text(fields: Seq<(&str, &str)>) -> Seq<char>
    decreases fields.len(),
{
    if fields.len() == 0 {
        Seq::<char>::empty()
    } else {
        fields_text(fields.drop_last()) + ", "@ + fields.last().0@ + ": "@ + fields.last().1@
    }
}

/// The text that a region pointer is rendered as, given the names of its ordering and of its
/// element type, the name of the type that holds it, and the fields that the caller adds.
pub open spec fn render_text(
    order: Seq<char>,
    store: Seq<char>,
    name: Seq<char>,
    region: Region,
    width: nat,
    fields: Seq<(&str, &str)>,
) -> Seq<char> {
    "Bit"@ + name + "<"@ + order + ", "@ + store + "> { addr: 0x"@ + hex_digits(region.addr)
        + ", head: "@ + binary_digits(region.head, index_bits(width)) + ", bits: "@
        + decimal_digits(region.bits) + fields_text(fields) + " }"@
}

/// An address in hexadecimal, through `wyz::fmt::FmtForward::fmt_lower_hex`, which makes the
/// debug formatting of a number its lower-case hexadecimal formatting. The claim is that the
/// text is the digits of the address in base sixteen.
#[verifier::external_body]
fn address_text(addr: usize) -> (text: String)
    ensures
        text@ == hex_digits(addr as nat),
{
    format!("{:?}", addr.fmt_lower_hex())
}

/// A head index in binary, through `wyz::fmt::FmtForward::fmt_binary`, which makes the debug
/// formatting of a number its binary formatting. The claim is that the text is the digits of
/// the index in base two, filled up with zeros to the width asked for.
#[verifier::external_body]
fn head_text(head: u8, width: u8) -> (text: String)
    ensures
        text@ == binary_digits(head as nat, width as nat),
{
    format!("{:01$?}", head.fmt_binary(), width as usize)
}

/// A bit count in decimal, through the debug formatting of `usize`. The claim is that the text
/// is the digits of the count in base ten.
#[verifier::external_body]
fn count_text(count: usize) -> (text: String)
    ensures
        text@ == decimal_digits(count as nat),
{
    format!("{:?}", count)
}

impl<O: BitOrder, T: BitStore> BitPtr<O, T> {
    /// Renders the pointer as text, under the type name `Bit` followed by `name`, with the
    /// names of the ordering and of the element type as given, and with `fields` after its
    /// own parts.
    pub fn render_as(&self, order: &str, store: &str, name: &str, fields: &[(&str, &str)]) -> (out:
        String)
        ensures
            out@ == render_text(order@, store@, name@, self@, T::width(), fields@),
    {
        let mut out = String::from_str("Bit");
        out.append(name);
        out.append("<");
        out.append(order);
        out.append(", ");
        out.append(store);
        out.append("> { addr: 0x");
        let addr = address_text(self.pointer().value());
        out.append(addr.as_str());
        out.append(", head: ");
        let head = head_text(self.head().value(), indx::<T>());
        out.append(head.as_str());
        out.append(", bits: ");
        let bits = count_text(self.len());
        out.append(bits.as_str());
        let ghost own = out@;
        let mut i: usize = 0;
        while i < fields.len()
            invariant
                i <= fields@.len(),
                out@ == own + fields_text(fields@.take(i as int)),
            decreases fields@.len() - i,
        {
            proof {
                assert(fields@.take(i + 1).drop_last() =~= fields@.take(i as int));
            }
            let field = fields[i];
            out.append(", ");
            out.append(field.0);
            out.append(": ");
            out.append(field.1);
            i += 1;
        }
        proof {
            assert(fields@.take(fields@.len() as int) =~= fields@);
        }
        out.append(" }");
        out
    }

    /// Renders the pointer as text, under the type name `Bit` followed by `name`, and with
    /// `fields` after its own parts.
    pub fn render(&self, name: &str, fields: &[(&str, &str)]) -> (out: String)
        ensures
            out@ == render_text(
                O::label_text(),
                T::label_text(),
                name@,
                self@,
                T::width(),
                fields@,
            ),
    {
        self.render_as(O::label(), T::label(), name, fields)
    }
}

} // verus!
