use vstd::prelude::*;

verus! {

/// Number of digits on a display.
pub const N_DIGITS: usize = 3;

/// Width, in normalised texture units, of the strip holding the digits 0 to 9.
pub const DIGITS_TEX_WIDTH: u16 = 56867;

/// Texture coordinates of the gap colour shown in place of leading zeros.
pub const GAP_TEX_S: u16 = 62335;

pub const GAP_TEX_T: u16 = 32767;

/// Texture coordinates of one quad: `(s1, t1)` at its top left, `(s2, t2)` at
/// its bottom right.
#[derive(Clone, Copy, PartialEq, Eq, Debug)]
pub struct TexRect {
    pub s1: u16,
    pub t1: u16,
    pub s2: u16,
    pub t2: u16,
}

/// `value` without its `k` lowest decimal digits.
pub open spec fn digits_above(value: u32, k: nat) -> u32
    decreases k,
{
    if k == 0 {
        value
    } else {
        digits_above(value, (k - 1) as nat) / 10
    }
}

/// The texture of digit `d` in the digit strip.
pub open spec fn digit_tex(d: u32) -> TexRect {
    TexRect {
        s1: (DIGITS_TEX_WIDTH * d / 10) as u16,
        t1: 0,
        s2: (DIGITS_TEX_WIDTH * (d + 1) / 10) as u16,
        t2: 0xffff,
    }
}

/// The texture of the `k`-th digit of `value` from the right: the gap at
/// `(gap_s, gap_t)` for a leading zero, the digit itself otherwise. The
/// rightmost digit is always shown, so that zero reads as `0`.
pub open spec fn digit_rect(value: u32, k: nat, gap_s: u16, gap_t: u16) -> TexRect {
    if k > 0 && digits_above(value, k) == 0 {
        TexRect { s1: gap_s, t1: gap_t, s2: gap_s, t2: gap_t }
    } else {
        digit_tex(digits_above(value, k) % 10)
    }
}

/// The textures of the `N_DIGITS` digits that show `value`, rightmost digit
/// first. Digits above the display's width are not shown.
pub fn digit_tex_rects(value: u32, gap_s: u16, gap_t: u16) -> (rects: Vec<TexRect>)
    ensures
        rects.len() == N_DIGITS,
        forall|k: int| 0 <= k < N_DIGITS ==> #[trigger] rects[k] == digit_rect(value, k as nat, gap_s, gap_t),
{
    let mut rects: Vec<TexRect> = Vec::new();
    let mut rest: u32 = value;
    let mut digit_num: usize = 0;
    while digit_num < N_DIGITS
        invariant
            digit_num <= N_DIGITS,
            rects.len() == digit_num,
            rest == digits_above(value, digit_num as nat),
            forall|k: int| 0 <= k < digit_num ==> #[trigger] rects[k] == digit_rect(value, k as nat, gap_s, gap_t),
        decreases N_DIGITS - digit_num,
    {
        let rect = if rest == 0 && digit_num > 0 {
            TexRect { s1: gap_s, t1: gap_t, s2: gap_s, t2: gap_t }
        } else {
            let digit = rest % 10;
            assert(DIGITS_TEX_WIDTH as u32 * (digit + 1) <= 568670) by (nonlinear_arith)
                requires
                    digit < 10,
                    DIGITS_TEX_WIDTH == 56867,
            ;
            TexRect {
                s1: (DIGITS_TEX_WIDTH as u32 * digit / 10) as u16,
                t1: 0,
                s2: (DIGITS_TEX_WIDTH as u32 * (digit + 1) / 10) as u16,
                t2: 0xffff,
            }
        };
        rects.push(rect);
        rest = rest / 10;
        digit_num = digit_num + 1;
    }
    rects
}

} // verus!
