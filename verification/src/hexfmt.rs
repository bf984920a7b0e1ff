//! Hexadecimal rendering of integers, as `{:X}`, `{:02X}` and `{:016x}` do.
use vstd::prelude::*;

verus! {

/// The hexadecimal digit for `d` (0..16), upper- or lower-case.
pub open spec fn hex_digit(d: nat, upper: bool) -> char {
    if d < 10 {
        (48 + d) as char
    } else if upper {
        (55 + d) as char
    } else {
        (87 + d) as char
    }
}

/// The hexadecimal digits of `n`, most significant first, without leading zeros.
pub open spec fn hex_digits(n: nat, upper: bool) -> Seq<char>
    decreases n,
{
    if n < 16 {
        seq![hex_digit(n, upper)]
    } else {
        hex_digits(n / 16, upper).push(hex_digit(n % 16, upper))
    }
}

/// `s` left-padded with '0' to at least `width` characters.
pub open spec fn zero_padded(s: Seq<char>, width: nat) -> Seq<char> {
    if s.len() >= width {
        s
    } else {
        Seq::new((width - s.len()) as nat, |i: int| '0') + s
    }
}

/// The rendering of `n` by `{:0WX}` (upper) or `{:0Wx}` (lower) with width `width`.
pub open spec fn hex_format(n: nat, width: nat, upper: bool) -> Seq<char> {
    zero_padded(hex_digits(n, upper), width)
}

pub fn digit_char(d: u8, upper: bool) -> (c: char)
    requires
        d < 16,
    ensures
        c == hex_digit(d as nat, upper),
{
    match d {
        0 => '0',
        1 => '1',
        2 => '2',
        3 => '3',
        4 => '4',
        5 => '5',
        6 => '6',
        7 => '7',
        8 => '8',
        9 => '9',
        10 => if upper { 'A' } else { 'a' },
        11 => if upper { 'B' } else { 'b' },
        12 => if upper { 'C' } else { 'c' },
        13 => if upper { 'D' } else { 'd' },
        14 => if upper { 'E' } else { 'e' },
        _ => if upper { 'F' } else { 'f' },
    }
}

/// Appends the digits of `n` (as `hex_digits`) to `out`.
fn push_digits(out: &mut Vec<char>, n: u64, upper: bool)
    ensures
        final(out)@ == old(out)@ + hex_digits(n as nat, upper),
    decreases n,
{
    if n < 16 {
        out.push(digit_char(n as u8, upper));
        assert(hex_digits(n as nat, upper) =~= seq![hex_digit(n as nat, upper)]);
    } else {
        push_digits(out, n / 16, upper);
        out.push(digit_char((n % 16) as u8, upper));
    }
}

/// Appends `hex_format(n, width, upper)` to `out`.
pub fn push_hex(out: &mut Vec<char>, n: u64, width: usize, upper: bool)
    requires
        width <= 16,
    ensures
        final(out)@ == old(out)@ + hex_format(n as nat, width as nat, upper),
{
    let mut digits: Vec<char> = Vec::new();
    push_digits(&mut digits, n, upper);
    assert(digits@ =~= hex_digits(n as nat, upper));
    let ghost start = out@;
    let mut pad: usize = 0;
    if digits.len() < width {
        while pad < width - digits.len()
            invariant
                digits@ == hex_digits(n as nat, upper),
                digits@.len() < width <= 16,
                pad <= width - digits@.len(),
                out@ == start + Seq::new(pad as nat, |i: int| '0'),
            decreases width - digits@.len() - pad,
        {
            out.push('0');
            pad = pad + 1;
            assert(out@ =~= start + Seq::new(pad as nat, |i: int| '0'));
        }
    }
    let ghost before_digits = out@;
    let mut i: usize = 0;
    while i < digits.len()
        invariant
            i <= digits@.len(),
            out@ == before_digits + digits@.take(i as int),
        decreases digits@.len() - i,
    {
        out.push(digits[i]);
        assert(out@ =~= before_digits + digits@.take(i + 1));
        i = i + 1;
    }
    assert(digits@.take(digits@.len() as int) == digits@);
    assert(out@ =~= start + hex_format(n as nat, width as nat, upper));
}

} // verus!
