//! Numbers as text.
use vstd::prelude::*;
use vstd::string::*;

verus! {

/// The character of a digit below 16.
pub open spec fn digit_char(d: int) -> char {
    if d < 10 {
        (48 + d) as u8 as char
    } else {
        (87 + d) as u8 as char
    }
}

/// A number in lower-case hexadecimal, in exactly `width` digits.
pub open spec fn hex_text(x: nat, width: nat) -> Seq<char>
    decreases width,
{
    if width == 0 {
        Seq::empty()
    } else {
        hex_text(x / 16, (width - 1) as nat).push(digit_char((x % 16) as int))
    }
}

/// A number in decimal.
pub open spec fn decimal_text(x: nat) -> Seq<char>
    decreases x,
{
    if x < 10 {
        seq![digit_char(x as int)]
    } else {
        decimal_text(x / 10).push(digit_char((x % 10) as int))
    }
}

/// A digit below 16 as a string.
fn digit_str(d: u32) -> (s: &'static str)
    requires
        d < 16,
    ensures
        s@ == seq![digit_char(d as int)],
{
    let s: &'static str = match d {
        0 => "0",
        1 => "1",
        2 => "2",
        3 => "3",
        4 => "4",
        5 => "5",
        6 => "6",
        7 => "7",
        8 => "8",
        9 => "9",
        10 => "a",
        11 => "b",
        12 => "c",
        13 => "d",
        14 => "e",
        _ => "f",
    };
    proof {
        reveal_strlit("0");
        reveal_strlit("1");
        reveal_strlit("2");
        reveal_strlit("3");
        reveal_strlit("4");
        reveal_strlit("5");
        reveal_strlit("6");
        reveal_strlit("7");
        reveal_strlit("8");
        reveal_strlit("9");
        reveal_strlit("a");
        reveal_strlit("b");
        reveal_strlit("c");
        reveal_strlit("d");
        reveal_strlit("e");
        reveal_strlit("f");
        assert(s@ =~= seq![digit_char(d as int)]);
    }
    s
}

/// Appends a number in hexadecimal.
pub fn push_hex(out: &mut String, x: u32, width: u32)
    ensures
        final(out)@ == old(out)@ + hex_text(x as nat, width as nat),
    decreases width,
{
    if width > 0 {
        push_hex(out, x / 16, width - 1);
        out.append(digit_str(x % 16));
    }
    assert(out@ =~= old(out)@ + hex_text(x as nat, width as nat));
}

/// Appends a number in decimal.
pub fn push_decimal(out: &mut String, x: usize)
    ensures
        final(out)@ == old(out)@ + decimal_text(x as nat),
    decreases x,
{
    if x >= 10 {
        push_decimal(out, x / 10);
    }
    out.append(digit_str((x % 10) as u32));
    assert(out@ =~= old(out)@ + decimal_text(x as nat));
}

} // verus!
