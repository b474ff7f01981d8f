use vstd::prelude::*;

verus! {

/// An RGB colour.
pub type Rgb = (u8, u8, u8);

/// Symbol of a hidden cell.
pub const SYMBOL_HIDDEN: char = '\u{25A0}';

/// Symbol of a flag.
pub const SYMBOL_FLAG: char = '\u{2691}';

/// Symbol of a mine.
pub const SYMBOL_MINE: char = '\u{2739}';

/// Characters per cell in the grid.
pub const CELL_WIDTH: usize = 3;

/// Countdown seconds between zen mode games.
pub const ZEN_END_COUNTDOWN: u32 = 3;

/// Number of difficulty presets.
pub const PRESET_COUNT: usize = 3;

/// Difficulty preset `level` as (width, height, mines): beginner,
/// intermediate, expert.
pub open spec fn preset_spec(level: usize) -> (usize, usize, usize) {
    if level == 0 {
        (9, 9, 10)
    } else if level == 1 {
        (16, 16, 40)
    } else {
        (30, 16, 99)
    }
}

pub fn preset(level: usize) -> (p: (usize, usize, usize))
    requires
        level < PRESET_COUNT,
    ensures
        p == preset_spec(level),
        level == 0 ==> p == (9usize, 9usize, 10usize),
        level == 1 ==> p == (16usize, 16usize, 40usize),
        level == 2 ==> p == (30usize, 16usize, 99usize),
{
    if level == 0 {
        (9, 9, 10)
    } else if level == 1 {
        (16, 16, 40)
    } else {
        (30, 16, 99)
    }
}

/// Menu label of difficulty preset `level`.
pub fn menu_option(level: usize) -> (s: &'static str)
    requires
        level < PRESET_COUNT,
    ensures
        s@ == if level == 0 {
            "Beginner     (9 x 9,   10 mines)"@
        } else if level == 1 {
            "Intermediate (16 x 16, 40 mines)"@
        } else {
            "Expert       (30 x 16, 99 mines)"@
        },
{
    if level == 0 {
        "Beginner     (9 x 9,   10 mines)"
    } else if level == 1 {
        "Intermediate (16 x 16, 40 mines)"
    } else {
        "Expert       (30 x 16, 99 mines)"
    }
}

/// Background colour of the game area.
pub fn bg_color() -> (c: Rgb)
    ensures
        c == (30u8, 30u8, 30u8),
{
    (30, 30, 30)
}

/// Colour of the number `n` (classic palette), for `1 ..= 8`.
pub open spec fn number_color_spec(n: u8) -> Option<Rgb> {
    if n == 1 {
        Some((0u8, 1u8, 254u8))
    } else if n == 2 {
        Some((0u8, 130u8, 2u8))
    } else if n == 3 {
        Some((254u8, 0u8, 0u8))
    } else if n == 4 {
        Some((1u8, 0u8, 130u8))
    } else if n == 5 {
        Some((132u8, 0u8, 2u8))
    } else if n == 6 {
        Some((0u8, 130u8, 130u8))
    } else if n == 7 {
        Some((132u8, 1u8, 133u8))
    } else if n == 8 {
        Some((115u8, 115u8, 115u8))
    } else {
        None
    }
}

/// The colour a number is drawn in; `None` means the default colour.
pub fn number_color(n: u8) -> (c: Option<Rgb>)
    ensures
        c == number_color_spec(n),
        n == 0 || n > 8 ==> c is None,
        n == 1 ==> c == Some((0u8, 1u8, 254u8)),
        n == 2 ==> c == Some((0u8, 130u8, 2u8)),
        n == 3 ==> c == Some((254u8, 0u8, 0u8)),
        n == 4 ==> c == Some((1u8, 0u8, 130u8)),
        n == 5 ==> c == Some((132u8, 0u8, 2u8)),
        n == 6 ==> c == Some((0u8, 130u8, 130u8)),
        n == 7 ==> c == Some((132u8, 1u8, 133u8)),
        n == 8 ==> c == Some((115u8, 115u8, 115u8)),
{
    match n {
        1 => Some((0, 1, 254)),
        2 => Some((0, 130, 2)),
        3 => Some((254, 0, 0)),
        4 => Some((1, 0, 130)),
        5 => Some((132, 0, 2)),
        6 => Some((0, 130, 130)),
        7 => Some((132, 1, 133)),
        8 => Some((115, 115, 115)),
        _ => None,
    }
}

/// The colours of the numbers 1 to 8 as one flat list: red, green and
/// blue of each in turn.
pub fn number_colors() -> (v: Vec<u8>)
    ensures
        v@.len() == 24,
        forall|i: int|
            0 <= i < 8 ==> number_color_spec((i + 1) as u8) == Some(
                (#[trigger] v@[3 * i], v@[3 * i + 1], v@[3 * i + 2]),
            ),
{
    let mut out: Vec<u8> = Vec::new();
    let mut n: u8 = 1;
    while n <= 8
        invariant
            1 <= n <= 9,
            out@.len() == 3 * (n - 1),
            forall|i: int|
                0 <= i < n - 1 ==> number_color_spec((i + 1) as u8) == Some(
                    (#[trigger] out@[3 * i], out@[3 * i + 1], out@[3 * i + 2]),
                ),
        decreases 9 - n,
    {
        let c = number_color(n);
        let (r, g, b) = match c {
            Some(rgb) => rgb,
            None => (0, 0, 0),
        };
        out.push(r);
        out.push(g);
        out.push(b);
        n = n + 1;
    }
    out
}

/// The difficulty presets as one flat list: width, height and mines of each
/// in turn.
pub fn presets() -> (v: Vec<usize>)
    ensures
        v@.len() == 3 * PRESET_COUNT,
        forall|i: int|
            0 <= i < PRESET_COUNT ==> preset_spec(i as usize) == (
                #[trigger] v@[3 * i],
                v@[3 * i + 1],
                v@[3 * i + 2],
            ),
{
    let mut out: Vec<usize> = Vec::new();
    let mut level: usize = 0;
    while level < PRESET_COUNT
        invariant
            level <= PRESET_COUNT,
            out@.len() == 3 * level,
            forall|i: int|
                0 <= i < level ==> preset_spec(i as usize) == (
                    #[trigger] out@[3 * i],
                    out@[3 * i + 1],
                    out@[3 * i + 2],
                ),
        decreases PRESET_COUNT - level,
    {
        let (w, h, m) = preset(level);
        out.push(w);
        out.push(h);
        out.push(m);
        level = level + 1;
    }
    out
}

} // verus!
