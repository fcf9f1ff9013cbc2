use vstd::prelude::*;

verus! {

/// Byte value of level `v` (0 to 5) of one axis of the xterm 6x6x6 color cube:
/// 0, 95, 135, 175, 215, 255.
pub fn cube_component(v: u8) -> (r: u8)
    requires
        v <= 5,
    ensures
        r == if v == 0 { 0 } else { 55 + 40 * v },
{
    if v == 0 {
        0
    } else {
        55 + v * 40
    }
}

/// Level of the `k`-th gray (0 to 23) of the xterm ramp: 8, 18, ..., 238.
pub open spec fn gray_level(k: int) -> int {
    8 + 10 * k
}

/// Red, green and blue bytes of xterm color `idx` from 16 up: the 6x6x6 cube for 16 to 231,
/// the gray ramp for 232 to 255. The sixteen named colors come from the theme, so `None` below
/// 16.
pub fn xterm_rgb(idx: u8) -> (r: Option<(u8, u8, u8)>)
    ensures
        idx < 16 ==> r is None,
        16 <= idx < 232 ==> r == Some(
            (
                cube_component_of((idx - 16) / 36),
                cube_component_of(((idx - 16) % 36) / 6),
                cube_component_of((idx - 16) % 6),
            ),
        ),
        232 <= idx ==> r == Some(
            (gray_level(idx - 232) as u8, gray_level(idx - 232) as u8, gray_level(idx - 232) as u8),
        ),
{
    if idx < 16 {
        return None;
    }
    if idx < 232 {
        let i = idx - 16;
        return Some((cube_component(i / 36), cube_component((i % 36) / 6), cube_component(i % 6)));
    }
    let level = 8 + (idx - 232) * 10;
    Some((level, level, level))
}

/// Byte value of cube level `v`, as [`cube_component`] computes it.
pub open spec fn cube_component_of(v: int) -> u8 {
    if v == 0 {
        0
    } else {
        (55 + 40 * v) as u8
    }
}

} // verus!
