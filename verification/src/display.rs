use vstd::prelude::*;
use crate::text::push_char;

verus! {

/// A colour channel moved by `(x mod 64) - 32`, kept within 0..=255.
pub open spec fn channel_shift(v: u8, x: u64) -> u8 {
    let s = v + (x % 64) - 32;
    if s < 0 { 0 } else if s > 255 { 255 } else { s as u8 }
}

/// One channel shifted by the low six bits of `x`.
fn shift_channel(v: u8, x: u64) -> (r: u8)
    ensures
        r == channel_shift(v, x),
{
    let low = x & 0x3F;
    assert(low == x % 64) by (bit_vector)
        requires low == x & 0x3F;
    let s: i16 = v as i16 + low as i16 - 32;
    if s < 0 { 0 } else if s > 255 { 255 } else { s as u8 }
}

/// A variation of `base` for one entity: each channel moves by -32 to +31, red by the
/// lowest six bits of `id_bits`, green by those of its second byte, blue by those of
/// its third, so that monsters of one kind differ a little but keep their hue.
pub fn unique_color(base: (u8, u8, u8), id_bits: u64) -> (c: (u8, u8, u8))
    ensures
        c.0 == channel_shift(base.0, id_bits),
        c.1 == channel_shift(base.1, id_bits / 256),
        c.2 == channel_shift(base.2, id_bits / 65536),
{
    let g = id_bits >> 8;
    let b = id_bits >> 16;
    assert(g == id_bits / 256) by (bit_vector)
        requires g == id_bits >> 8;
    assert(b == id_bits / 65536) by (bit_vector)
        requires b == id_bits >> 16;
    (shift_channel(base.0, id_bits), shift_channel(base.1, g), shift_channel(base.2, b))
}

/// `n` copies of `c`.
pub open spec fn repeat_char(c: char, n: nat) -> Seq<char> {
    Seq::new(n, |i: int| c)
}

/// How many of `width` cells a bar for `current` out of `max` fills: the share
/// rounded to the nearest cell (halves up), none for no or negative points, at most
/// all of them.
pub open spec fn filled_cells(current: int, max: int, width: int) -> int {
    if current <= 0 {
        0
    } else {
        let f = (2 * current * width + max) / (2 * max);
        if f > width { width } else { f }
    }
}

/// A text bar of `width` cells for `current` out of `max` (see [`bar`]).
pub open spec fn bar_text(current: int, max: int, width: int) -> Seq<char> {
    if max <= 0 {
        repeat_char('░', width as nat)
    } else {
        repeat_char('█', filled_cells(current, max, width) as nat) + repeat_char(
            '░',
            (width - filled_cells(current, max, width)) as nat,
        )
    }
}

/// Appends `n` copies of `c`.
fn push_repeat(s: &mut String, c: char, n: usize)
    ensures
        final(s)@ == old(s)@ + repeat_char(c, n as nat),
{
    let mut i: usize = 0;
    while i < n
        invariant
            i <= n,
            s@ == old(s)@ + repeat_char(c, i as nat),
        decreases n - i,
    {
        push_char(s, c);
        i = i + 1;
        assert(s@ =~= old(s)@ + repeat_char(c, i as nat));
    }
}

/// A text bar of `width` cells for `current` out of `max`: filled cells `█`, then
/// empty cells `░`; all empty when `max` is not positive.
pub fn bar(current: i32, max: i32, width: usize) -> (s: String)
    ensures
        s@ == bar_text(current as int, max as int, width as int),
        max <= 0 ==> s@ == repeat_char('░', width as nat),
        max > 0 ==> s@ == repeat_char('█', filled_cells(current as int, max as int, width as int) as nat)
            + repeat_char('░', (width - filled_cells(current as int, max as int, width as int)) as nat),
{
    let mut s = String::new();
    if max <= 0 {
        push_repeat(&mut s, '░', width);
        assert(s@ =~= repeat_char('░', width as nat));
        return s;
    }
    let filled: usize = if current <= 0 {
        0
    } else {
        let c: i128 = current as i128;
        let w: i128 = width as i128;
        let m: i128 = max as i128;
        proof {
            assert(0 <= (2 * c) * w <= 0x1_0000_0000 * 0x1_0000_0000_0000_0000) by (nonlinear_arith)
                requires 0 < c < 0x8000_0000, 0 <= w < 0x1_0000_0000_0000_0000;
        }
        let f: i128 = (2 * c * w + m) / (2 * m);
        proof {
            assert((2 * c * w + m) / (2 * m) >= 0) by (nonlinear_arith)
                requires c > 0, w >= 0, m > 0;
        }
        if f > w { width } else { f as usize }
    };
    push_repeat(&mut s, '█', filled);
    push_repeat(&mut s, '░', width - filled);
    assert(s@ =~= repeat_char('█', filled as nat) + repeat_char('░', (width - filled) as nat));
    s
}

} // verus!
