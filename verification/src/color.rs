//! Colours and the tests of the pixel filter.

use vstd::prelude::*;
use vstd::string::StringExecFns;

use crate::error::PaletteError;

verus! {

/// A pixel is near white when every channel is at least this.
pub const WHITE_THRESHOLD: u8 = 250;

/// A pixel is near black when every channel is at most this.
pub const BLACK_THRESHOLD: u8 = 5;

/// The number of threshold steps between 0.0 and 1.0.
pub const THRESHOLD_SCALE: u32 = 1_000_000;

/// Three 8-bit channel intensities. Two colours are equal exactly when
/// all three channels are.
#[derive(Clone, Copy, Debug, PartialEq, Eq, Structural, Hash)]
pub struct Color {
    pub red: u8,
    pub green: u8,
    pub blue: u8,
}

/// A saturation or luminance threshold between 0.0 and 1.0, held in
/// millionths.
#[derive(Clone, Copy, Debug)]
pub struct Threshold {
    millionths: u32,
}

impl Threshold {
    #[verifier::type_invariant]
    spec fn in_range(self) -> bool {
        self.millionths <= THRESHOLD_SCALE
    }

    /// The threshold in millionths, from 0 to 1 000 000.
    pub closed spec fn value(self) -> int {
        self.millionths as int
    }

    /// The threshold `millionths / 1 000 000`, refused above 1.0.
    pub fn new(millionths: u32) -> (r: Result<Threshold, PaletteError>)
        ensures
            millionths <= THRESHOLD_SCALE ==> r is Ok && r->Ok_0.value() == millionths,
            millionths > THRESHOLD_SCALE ==> r == Err::<Threshold, PaletteError>(
                PaletteError::InvalidConfiguration,
            ),
    {
        if millionths <= THRESHOLD_SCALE {
            Ok(Threshold { millionths })
        } else {
            Err(PaletteError::InvalidConfiguration)
        }
    }

    /// The threshold 0.0, which every pixel reaches.
    pub fn zero() -> (r: Threshold)
        ensures
            r.value() == 0,
    {
        Threshold { millionths: 0 }
    }

    pub fn millionths(&self) -> (m: u32)
        ensures
            m == self.value(),
            m <= THRESHOLD_SCALE,
    {
        proof {
            use_type_invariant(self);
        }
        self.millionths
    }
}

/// The largest of the three channels.
pub open spec fn max_channel(c: Color) -> int {
    if c.red >= c.green && c.red >= c.blue {
        c.red as int
    } else if c.green >= c.blue {
        c.green as int
    } else {
        c.blue as int
    }
}

/// The smallest of the three channels.
pub open spec fn min_channel(c: Color) -> int {
    if c.red <= c.green && c.red <= c.blue {
        c.red as int
    } else if c.green <= c.blue {
        c.green as int
    } else {
        c.blue as int
    }
}

/// Every channel is at least `WHITE_THRESHOLD`.
pub open spec fn near_white(c: Color) -> bool {
    c.red >= WHITE_THRESHOLD && c.green >= WHITE_THRESHOLD && c.blue >= WHITE_THRESHOLD
}

/// Every channel is at most `BLACK_THRESHOLD`.
pub open spec fn near_black(c: Color) -> bool {
    c.red <= BLACK_THRESHOLD && c.green <= BLACK_THRESHOLD && c.blue <= BLACK_THRESHOLD
}

/// The saturation `(max - min) / max` of `c`, taken as 0 for black, is at
/// least `millionths / 1 000 000`. Both sides are multiplied out, so the
/// comparison is exact.
pub open spec fn saturation_reaches(c: Color, millionths: int) -> bool {
    if max_channel(c) == 0 {
        millionths <= 0
    } else {
        (max_channel(c) - min_channel(c)) * THRESHOLD_SCALE >= millionths * max_channel(c)
    }
}

/// The value `max / 255` of `c` is at least `millionths / 1 000 000`.
pub open spec fn value_reaches(c: Color, millionths: int) -> bool {
    max_channel(c) * THRESHOLD_SCALE >= millionths * 255
}

/// The pixel filter: outside both exclusion bands, and at or above both
/// thresholds.
pub open spec fn keeps(c: Color, saturation: Threshold, luminance: Threshold) -> bool {
    &&& !near_white(c)
    &&& !near_black(c)
    &&& saturation_reaches(c, saturation.value())
    &&& value_reaches(c, luminance.value())
}

/// The pixel filter as a predicate on colours.
pub open spec fn keeps_under(saturation: Threshold, luminance: Threshold) -> spec_fn(Color) -> bool {
    |c: Color| keeps(c, saturation, luminance)
}

/// The upper-case hexadecimal digit of a number below sixteen.
pub open spec fn hex_char(n: int) -> char {
    if n == 0 {
        '0'
    } else if n == 1 {
        '1'
    } else if n == 2 {
        '2'
    } else if n == 3 {
        '3'
    } else if n == 4 {
        '4'
    } else if n == 5 {
        '5'
    } else if n == 6 {
        '6'
    } else if n == 7 {
        '7'
    } else if n == 8 {
        '8'
    } else if n == 9 {
        '9'
    } else if n == 10 {
        'A'
    } else if n == 11 {
        'B'
    } else if n == 12 {
        'C'
    } else if n == 13 {
        'D'
    } else if n == 14 {
        'E'
    } else {
        'F'
    }
}

/// The two hexadecimal digits of a channel.
pub open spec fn hex_pair(channel: u8) -> Seq<char> {
    seq![hex_char(channel as int / 16), hex_char(channel as int % 16)]
}

/// The colour as six hexadecimal digits: red, green, blue.
pub open spec fn hex_code(c: Color) -> Seq<char> {
    hex_pair(c.red) + hex_pair(c.green) + hex_pair(c.blue)
}

fn hex_digit(n: u8) -> (digit: &'static str)
    requires
        n < 16,
    ensures
        digit@ == seq![hex_char(n as int)],
{
    proof {
        reveal_strlit("0");
        reveal_strlit("1");
        reveal_strlit("2");
        reveal_strlit("3");
        reveal_strlit("4");
        reveal_strlit("5");
        reveal_strlit("6");
        reveal_strlit("7");
        reveal_strlit("8");
        reveal_strlit("9");
        reveal_strlit("A");
        reveal_strlit("B");
        reveal_strlit("C");
        reveal_strlit("D");
        reveal_strlit("E");
        reveal_strlit("F");
    }
    let digit = if n == 0 {
        "0"
    } else if n == 1 {
        "1"
    } else if n == 2 {
        "2"
    } else if n == 3 {
        "3"
    } else if n == 4 {
        "4"
    } else if n == 5 {
        "5"
    } else if n == 6 {
        "6"
    } else if n == 7 {
        "7"
    } else if n == 8 {
        "8"
    } else if n == 9 {
        "9"
    } else if n == 10 {
        "A"
    } else if n == 11 {
        "B"
    } else if n == 12 {
        "C"
    } else if n == 13 {
        "D"
    } else if n == 14 {
        "E"
    } else {
        "F"
    };
    digit
}

fn push_hex_pair(text: &mut String, channel: u8)
    ensures
        final(text)@ == old(text)@ + hex_pair(channel),
{
    text.append(hex_digit(channel / 16));
    text.append(hex_digit(channel % 16));
}

impl Color {
    /// The colour as six upper-case hexadecimal digits, such as `FF0080`.
    pub fn hex_code(&self) -> (code: String)
        ensures
            code@ == hex_code(*self),
            code@.len() == 6,
    {
        let mut code = String::new();
        push_hex_pair(&mut code, self.red);
        push_hex_pair(&mut code, self.green);
        push_hex_pair(&mut code, self.blue);
        code
    }

    pub fn new(red: u8, green: u8, blue: u8) -> (c: Color)
        ensures
            c == (Color { red, green, blue }),
    {
        Color { red, green, blue }
    }

    pub fn max_channel(&self) -> (m: u8)
        ensures
            m == max_channel(*self),
    {
        if self.red >= self.green && self.red >= self.blue {
            self.red
        } else if self.green >= self.blue {
            self.green
        } else {
            self.blue
        }
    }

    pub fn min_channel(&self) -> (m: u8)
        ensures
            m == min_channel(*self),
    {
        if self.red <= self.green && self.red <= self.blue {
            self.red
        } else if self.green <= self.blue {
            self.green
        } else {
            self.blue
        }
    }

    pub fn is_near_white(&self) -> (b: bool)
        ensures
            b == near_white(*self),
    {
        self.red >= WHITE_THRESHOLD && self.green >= WHITE_THRESHOLD && self.blue
            >= WHITE_THRESHOLD
    }

    pub fn is_near_black(&self) -> (b: bool)
        ensures
            b == near_black(*self),
    {
        self.red <= BLACK_THRESHOLD && self.green <= BLACK_THRESHOLD && self.blue
            <= BLACK_THRESHOLD
    }

    /// Whether the saturation of this colour is at least `threshold`.
    pub fn saturation_reaches(&self, threshold: Threshold) -> (b: bool)
        ensures
            b == saturation_reaches(*self, threshold.value()),
    {
        let max: u64 = self.max_channel() as u64;
        let min: u64 = self.min_channel() as u64;
        let wanted: u64 = threshold.millionths() as u64;
        if max == 0 {
            wanted == 0
        } else {
            assert((max - min) * 1_000_000 <= 255 * 1_000_000) by (nonlinear_arith)
                requires
                    min <= max <= 255,
            ;
            assert(wanted * max <= 1_000_000 * 255) by (nonlinear_arith)
                requires
                    wanted <= 1_000_000,
                    max <= 255,
            ;
            (max - min) * 1_000_000 >= wanted * max
        }
    }

    /// Whether the value of this colour is at least `threshold`.
    pub fn value_reaches(&self, threshold: Threshold) -> (b: bool)
        ensures
            b == value_reaches(*self, threshold.value()),
    {
        let max: u64 = self.max_channel() as u64;
        let wanted: u64 = threshold.millionths() as u64;
        max * 1_000_000 >= wanted * 255
    }

    /// Whether the pixel filter keeps this colour.
    pub fn is_kept(&self, saturation: Threshold, luminance: Threshold) -> (b: bool)
        ensures
            b == keeps(*self, saturation, luminance),
    {
        !self.is_near_white() && !self.is_near_black() && self.saturation_reaches(saturation)
            && self.value_reaches(luminance)
    }
}

} // verus!
