//! The desktop appearance: the dark palette the views are written in, and
//! the light palette derived from it.
use vstd::prelude::*;

verus! {

#[derive(Clone, Copy, Debug, PartialEq, Eq, Structural)]
pub enum Theme {
    Dark,
    Light,
}

impl Default for Theme {
    fn default() -> (t: Self)
        ensures
            t == Theme::Dark,
    {
        Theme::Dark
    }
}

/// The colours with a hand-picked light counterpart.
pub open spec fn light_table(hex: u32) -> Option<u32> {
    if hex == 0x282d36 {
        Some(0xf8fafc)
    } else if hex == 0x2f3540 {
        Some(0xf0f3f7)
    } else if hex == 0x3b4350 {
        Some(0xd9e0e8)
    } else if hex == 0xc9d1d9 {
        Some(0x243142)
    } else if hex == 0x9da7b6 {
        Some(0x627083)
    } else if hex == 0x79c99e {
        Some(0x287b51)
    } else if hex == 0xf18c96 {
        Some(0xb6414c)
    } else if hex == 0xe5b567 {
        Some(0x94621d)
    } else if hex == 0x7aa2f7 {
        Some(0x326dc2)
    } else if hex == 0x2b3a54 {
        Some(0xe5efff)
    } else if hex == 0x3d4654 {
        Some(0xd0d9e4)
    } else if hex == 0x384863 {
        Some(0xdce9fa)
    } else if hex == 0x405271 {
        Some(0xd0e1f8)
    } else if hex == 0x101720 {
        Some(0xffffff)
    } else {
        None
    }
}

pub open spec fn max3(a: int, b: int, c: int) -> int {
    if a >= b && a >= c {
        a
    } else if b >= c {
        b
    } else {
        c
    }
}

pub open spec fn min3(a: int, b: int, c: int) -> int {
    if a <= b && a <= c {
        a
    } else if b <= c {
        b
    } else {
        c
    }
}

pub open spec fn clamp_byte(v: int) -> int {
    if v < 0 {
        0
    } else if v > 255 {
        255
    } else {
        v
    }
}

/// A dark surface channel lifted to a related light shade (Rust's `/`,
/// which rounds toward zero).
pub open spec fn lift(maximum: int, channel: int) -> int {
    let base = if maximum - 28 > 0 { maximum - 28 } else { 0 };
    let d = maximum - channel;
    clamp_byte(253 - base / 3 - d / 5)
}

/// A saturated channel dimmed to 74 % for contrast on white.
pub open spec fn dim(channel: int) -> int {
    channel * 74 / 100
}

pub open spec fn rgb_of(r: int, g: int, b: int) -> int {
    r * 65536 + g * 256 + b
}

/// The light-theme counterpart of a dark-theme colour `0xRRGGBB`: a
/// hand-picked colour for the palette's own entries; otherwise dark
/// surfaces (no channel above `0x70`) become related light shades, greys
/// become one of two text greys, and saturated colours keep their hue at
/// 74 % brightness.
pub open spec fn light(hex: u32) -> int {
    match light_table(hex) {
        Some(c) => c as int,
        None => {
            let r = ((hex / 65536) % 256) as int;
            let g = ((hex / 256) % 256) as int;
            let b = (hex % 256) as int;
            let maximum = max3(r, g, b);
            let minimum = min3(r, g, b);
            if maximum <= 0x70 {
                rgb_of(lift(maximum, r), lift(maximum, g), lift(maximum, b))
            } else if maximum - minimum < 45 {
                if maximum > 165 {
                    0x344153
                } else {
                    0x627083
                }
            } else {
                rgb_of(dim(r), dim(g), dim(b))
            }
        }
    }
}

fn lift_channel(maximum: u32, channel: u32) -> (v: u32)
    requires
        channel <= maximum <= 255,
    ensures
        v == lift(maximum as int, channel as int),
        v <= 255,
{
    let base: u32 = if maximum > 28 { maximum - 28 } else { 0 };
    let d = maximum - channel;
    let lowered = base / 3 + d / 5;
    if lowered > 253 {
        0
    } else {
        253 - lowered
    }
}

fn dim_channel(channel: u32) -> (v: u32)
    requires
        channel <= 255,
    ensures
        v == dim(channel as int),
        v <= 255,
{
    channel * 74 / 100
}

pub fn light_color(hex: u32) -> (c: u32)
    ensures
        c == light(hex),
{
    if hex == 0x282d36 {
        0xf8fafc
    } else if hex == 0x2f3540 {
        0xf0f3f7
    } else if hex == 0x3b4350 {
        0xd9e0e8
    } else if hex == 0xc9d1d9 {
        0x243142
    } else if hex == 0x9da7b6 {
        0x627083
    } else if hex == 0x79c99e {
        0x287b51
    } else if hex == 0xf18c96 {
        0xb6414c
    } else if hex == 0xe5b567 {
        0x94621d
    } else if hex == 0x7aa2f7 {
        0x326dc2
    } else if hex == 0x2b3a54 {
        0xe5efff
    } else if hex == 0x3d4654 {
        0xd0d9e4
    } else if hex == 0x384863 {
        0xdce9fa
    } else if hex == 0x405271 {
        0xd0e1f8
    } else if hex == 0x101720 {
        0xffffff
    } else {
        let r = (hex / 65536) % 256;
        let g = (hex / 256) % 256;
        let b = hex % 256;
        let maximum = if r >= g && r >= b {
            r
        } else if g >= b {
            g
        } else {
            b
        };
        let minimum = if r <= g && r <= b {
            r
        } else if g <= b {
            g
        } else {
            b
        };
        if maximum <= 0x70 {
            let lr = lift_channel(maximum, r);
            let lg = lift_channel(maximum, g);
            let lb = lift_channel(maximum, b);
            lr * 65536 + lg * 256 + lb
        } else if maximum - minimum < 45 {
            if maximum > 165 {
                0x344153
            } else {
                0x627083
            }
        } else {
            let dr = dim_channel(r);
            let dg = dim_channel(g);
            let db = dim_channel(b);
            dr * 65536 + dg * 256 + db
        }
    }
}


impl Theme {
    /// The number the active theme is kept as: 1 for light, 0 for dark.
    pub fn code(self) -> (c: u8)
        ensures
            c == if self == Theme::Light { 1u8 } else { 0u8 },
    {
        match self {
            Theme::Light => 1,
            Theme::Dark => 0,
        }
    }

    /// The theme kept as `code`: light for 1, dark otherwise.
    pub fn from_code(code: u8) -> (t: Theme)
        ensures
            t == if code == 1 { Theme::Light } else { Theme::Dark },
    {
        if code == 1 {
            Theme::Light
        } else {
            Theme::Dark
        }
    }
}

/// The colour a surface written as `hex` shows in `theme`.
pub fn themed_rgb(theme: Theme, hex: u32) -> (c: u32)
    ensures
        c == if theme == Theme::Light { light(hex) } else { hex as int },
{
    match theme {
        Theme::Light => light_color(hex),
        Theme::Dark => hex,
    }
}

/// The colour with alpha, `0xRRGGBBAA`, shown in `theme`: the colour part
/// as [`themed_rgb`], except the dimmed scrim behind dialogs, which has a
/// colour of its own in the light theme; the alpha is kept.
pub fn themed_rgba(theme: Theme, hex: u32) -> (c: u32)
    ensures
        c == ((if theme == Theme::Light {
            if hex >> 8u32 == 0x141820 { 0x263242u32 } else { light(hex >> 8u32) as u32 }
        } else {
            hex >> 8u32
        }) << 8u32) | (hex & 0xffu32),
{
    let color = match theme {
        Theme::Light => if hex >> 8 == 0x141820 {
            0x263242
        } else {
            light_color(hex >> 8)
        },
        Theme::Dark => hex >> 8,
    };
    (color << 8) | (hex & 0xff)
}
} // verus!
