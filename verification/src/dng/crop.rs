//! What a DNG file cuts off its image.
use vstd::prelude::*;
use crate::single::{below_zero, finite, rounded, significand, Single};
use crate::text::{decimal, push_number, push_with, same_result, with_number};

verus! {

/// A number, or the largest one of the machine.
pub open spec fn saturated(n: int) -> int {
    if n > usize::MAX {
        usize::MAX as int
    } else {
        n
    }
}

/// Four numbers as they read in messages.
pub open spec fn area_text(area: [usize; 4]) -> Seq<char> {
    "["@ + decimal(area[0] as nat) + ", "@ + decimal(area[1] as nat) + ", "@ + decimal(
        area[2] as nat,
    ) + ", "@ + decimal(area[3] as nat) + "]"@
}

/// Two numbers as they read in messages.
pub open spec fn pair_text(pair: [Single; 2]) -> Seq<char> {
    "["@ + pair[0].text@ + ", "@ + pair[1].text@ + "]"@
}

/// The number is one that a place can have.
pub open spec fn is_place(n: Single) -> bool {
    finite(n.bits) && !below_zero(n.bits)
}

/// The left, the top, the width and the height of the crop that is asked for, which starts at an
/// origin in the active area; or what is wrong with it. The area is given by its top, its left, its
/// bottom and its right.
pub open spec fn asked_crop(area: [usize; 4], default_crop: Option<([Single; 2], [Single; 2])>) -> Result<
    (int, int, int, int),
    Seq<char>,
> {
    match default_crop {
        None => Ok(
            (area[1] as int, area[0] as int, area[3] - area[1], area[2] - area[0]),
        ),
        Some((origin, size)) => {
            let crop_width = saturated(rounded(size[0].bits));
            let crop_height = saturated(rounded(size[1].bits));
            let left = area[1] + saturated(rounded(origin[0].bits));
            let top = area[0] + saturated(rounded(origin[1].bits));
            if !is_place(origin[0]) || !is_place(origin[1]) || !is_place(size[0]) || !is_place(
                size[1],
            ) || significand(size[0].bits) == 0 || significand(size[1].bits) == 0 {
                Err(
                    "DNG: DefaultCropOrigin "@ + pair_text(origin) + " or DefaultCropSize "@
                        + pair_text(size) + " is invalid"@,
                )
            } else if crop_width == 0 || crop_height == 0 {
                Err("DNG: rounded DefaultCropSize "@ + pair_text(size) + " is empty"@)
            } else if left > usize::MAX {
                Err("DNG: final crop X origin overflowed"@)
            } else if top > usize::MAX {
                Err("DNG: final crop Y origin overflowed"@)
            } else {
                Ok((left, top, crop_width, crop_height))
            }
        },
    }
}

/// What is cut off at the top, the right, the bottom and the left of an image to leave the crop
/// that is asked for; or what is wrong with it.
pub open spec fn crop_result(
    width: usize,
    height: usize,
    area: [usize; 4],
    default_crop: Option<([Single; 2], [Single; 2])>,
) -> Result<[usize; 4], Seq<char>> {
    if area[0] >= area[2] || area[1] >= area[3] || area[2] > height || area[3] > width {
        Err(
            "DNG: ActiveArea "@ + area_text(area) + " is invalid for dimensions "@ + decimal(
                width as nat,
            ) + "x"@ + decimal(height as nat),
        )
    } else {
        match asked_crop(area, default_crop) {
            Err(message) => Err(message),
            Ok((left, top, crop_width, crop_height)) => {
                let right = left + crop_width;
                let bottom = top + crop_height;
                if right > usize::MAX {
                    Err("DNG: final crop width overflowed"@)
                } else if bottom > usize::MAX {
                    Err("DNG: final crop height overflowed"@)
                } else if right > area[3] || bottom > area[2] {
                    Err(
                        "DNG: final crop ["@ + decimal(top as nat) + ", "@ + decimal(left as nat)
                            + ", "@ + decimal(bottom as nat) + ", "@ + decimal(right as nat)
                            + "] lies outside ActiveArea "@ + area_text(area),
                    )
                } else {
                    Ok(
                        [
                            top as usize,
                            (width - right) as usize,
                            (height - bottom) as usize,
                            left as usize,
                        ],
                    )
                }
            },
        }
    }
}

fn push_area(text: &mut String, area: [usize; 4])
    ensures
        final(text)@ == old(text)@ + area_text(area),
{
    let ghost before = text@;
    text.append("[");
    push_with(text, area[0], ", ");
    push_with(text, area[1], ", ");
    push_with(text, area[2], ", ");
    push_with(text, area[3], "]");
    assert(text@ =~= before + area_text(area));
}

fn push_pair(text: &mut String, pair: &[Single; 2])
    ensures
        final(text)@ == old(text)@ + pair_text(*pair),
{
    let ghost before = text@;
    text.append("[");
    text.append(pair[0].text.as_str());
    text.append(", ");
    text.append(pair[1].text.as_str());
    text.append("]");
    assert(text@ =~= before + pair_text(*pair));
}

fn place(n: &Single) -> (b: bool)
    ensures
        b == is_place(*n),
{
    n.is_finite() && !n.is_below_zero()
}

/// Resolves the final crop of a DNG file, whose origin is relative to the top left of the active
/// area.
pub fn crop_margins_from_dng(
    width: usize,
    height: usize,
    active_area: [usize; 4],
    default_crop: Option<([Single; 2], [Single; 2])>,
) -> (res: Result<[usize; 4], String>)
    ensures
        same_result(res, crop_result(width, height, active_area, default_crop)),
{
    let active_top: usize = active_area[0];
    let active_left: usize = active_area[1];
    let active_bottom: usize = active_area[2];
    let active_right: usize = active_area[3];
    if active_top >= active_bottom || active_left >= active_right || active_bottom > height
        || active_right > width {
        let mut text: String = "DNG: ActiveArea ".to_string();
        push_area(&mut text, active_area);
        text.append(" is invalid for dimensions ");
        push_with(&mut text, width, "x");
        push_number(&mut text, height);
        return Err(text);
    }
    let (crop_left, crop_top, crop_width, crop_height): (usize, usize, usize, usize) =
        match &default_crop {
        Some((origin, size)) => {
            if !place(&origin[0]) || !place(&origin[1]) || !place(&size[0]) || !place(&size[1])
                || size[0].is_zero() || size[1].is_zero() {
                let mut text: String = "DNG: DefaultCropOrigin ".to_string();
                push_pair(&mut text, origin);
                text.append(" or DefaultCropSize ");
                push_pair(&mut text, size);
                text.append(" is invalid");
                return Err(text);
            }
            let origin_x: usize = origin[0].round();
            let origin_y: usize = origin[1].round();
            let crop_width: usize = size[0].round();
            let crop_height: usize = size[1].round();
            if crop_width == 0 || crop_height == 0 {
                let mut text: String = "DNG: rounded DefaultCropSize ".to_string();
                push_pair(&mut text, size);
                text.append(" is empty");
                return Err(text);
            }
            let left: usize = match active_left.checked_add(origin_x) {
                Some(left) => left,
                None => return Err("DNG: final crop X origin overflowed".to_string()),
            };
            let top: usize = match active_top.checked_add(origin_y) {
                Some(top) => top,
                None => return Err("DNG: final crop Y origin overflowed".to_string()),
            };
            (left, top, crop_width, crop_height)
        },
        None => (
            active_left,
            active_top,
            active_right - active_left,
            active_bottom - active_top,
        ),
    };
    let crop_right: usize = match crop_left.checked_add(crop_width) {
        Some(right) => right,
        None => return Err("DNG: final crop width overflowed".to_string()),
    };
    let crop_bottom: usize = match crop_top.checked_add(crop_height) {
        Some(bottom) => bottom,
        None => return Err("DNG: final crop height overflowed".to_string()),
    };
    if crop_right > active_right || crop_bottom > active_bottom {
        let mut text: String = with_number("DNG: final crop [", crop_top, ", ");
        push_with(&mut text, crop_left, ", ");
        push_with(&mut text, crop_bottom, ", ");
        push_with(&mut text, crop_right, "] lies outside ActiveArea ");
        push_area(&mut text, active_area);
        return Err(text);
    }
    Ok([crop_top, width - crop_right, height - crop_bottom, crop_left])
}

/// What is left of an image after its crop lies in the active area, and something is left.
pub proof fn crop_lies_in_the_active_area(
    width: usize,
    height: usize,
    area: [usize; 4],
    default_crop: Option<([Single; 2], [Single; 2])>,
)
    requires
        crop_result(width, height, area, default_crop) is Ok,
    ensures
        ({
            let margins = crop_result(width, height, area, default_crop)->Ok_0;
            &&& area[0] <= margins[0] < height - margins[2] <= area[2] <= height
            &&& area[1] <= margins[3] < width - margins[1] <= area[3] <= width
        }),
{
    let (left, top, crop_width, crop_height) = asked_crop(area, default_crop)->Ok_0;
    if let Some((origin, size)) = default_crop {
        lemma_rounded_pos(origin[0].bits);
        lemma_rounded_pos(origin[1].bits);
        lemma_rounded_pos(size[0].bits);
        lemma_rounded_pos(size[1].bits);
    }
}

/// Without a default crop the active area is what is left of an image.
pub proof fn crop_is_the_active_area_by_default(width: usize, height: usize, area: [usize; 4])
    requires
        area[0] < area[2] <= height,
        area[1] < area[3] <= width,
    ensures
        crop_result(width, height, area, None) == Ok::<[usize; 4], Seq<char>>(
            [area[0], (width - area[3]) as usize, (height - area[2]) as usize, area[1]],
        ),
{
}

/// A default crop that fits is what is left of an image: it starts at its origin in the active
/// area, and has its size.
pub proof fn default_crop_is_what_is_left(
    width: usize,
    height: usize,
    area: [usize; 4],
    origin: [Single; 2],
    size: [Single; 2],
)
    requires
        crop_result(width, height, area, Some((origin, size))) is Ok,
    ensures
        ({
            let margins = crop_result(width, height, area, Some((origin, size)))->Ok_0;
            &&& margins[3] - area[1] == saturated(rounded(origin[0].bits))
            &&& margins[0] - area[0] == saturated(rounded(origin[1].bits))
            &&& width - margins[1] - margins[3] == saturated(rounded(size[0].bits))
            &&& height - margins[2] - margins[0] == saturated(rounded(size[1].bits))
        }),
{
    lemma_rounded_pos(origin[0].bits);
    lemma_rounded_pos(origin[1].bits);
    lemma_rounded_pos(size[0].bits);
    lemma_rounded_pos(size[1].bits);
}

proof fn lemma_rounded_pos(bits: u32)
    ensures
        0 <= rounded(bits),
{
    let u = crate::single::unit(bits);
    if u >= 150 {
        vstd::arithmetic::power2::lemma_pow2_pos((u - 150) as nat);
        assert(0 <= significand(bits) * vstd::arithmetic::power2::pow2((u - 150) as nat))
            by (nonlinear_arith)
            requires
                0 <= significand(bits),
        ;
    } else {
        let half = vstd::arithmetic::power2::pow2((149 - u) as nat) as int;
        vstd::arithmetic::power2::lemma_pow2_pos((149 - u) as nat);
        vstd::arithmetic::div_mod::lemma_div_pos_is_pos(significand(bits) + half, 2 * half);
    }
}

} // verus!
