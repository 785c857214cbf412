//! The colours of the candles.
use vstd::prelude::*;
use colored::Colorize;

verus! {

/// Whether a candle closed above its opening price.
pub enum CandleType {
    /// Closed above the opening price.
    Bearish,
    /// Closed at or below the opening price.
    Bullish,
}

/// The two colours of the candles, as red, green and blue.
#[derive(Debug)]
pub struct ChartRender {
    pub bearish_color: (u8, u8, u8),
    pub bullish_color: (u8, u8, u8),
}

/// The escape sequence that ends a colour in a terminal.
pub open spec fn reset() -> Seq<char> {
    seq!['\u{1b}', '[', '0', 'm']
}

/// The character of the decimal digit `d`.
pub open spec fn digit_char(d: int) -> char {
    (48 + d) as char
}

/// The decimal digits of `n`.
pub open spec fn decimal(n: nat) -> Seq<char>
    decreases n,
{
    if n < 10 {
        seq![digit_char(n as int)]
    } else {
        decimal(n / 10).push(digit_char((n % 10) as int))
    }
}

/// The escape sequence that starts the 24-bit foreground colour `(r, g, b)`.
pub open spec fn truecolor_style(r: u8, g: u8, b: u8) -> Seq<char> {
    seq!['\u{1b}', '[', '3', '8', ';', '2', ';'] + decimal(r as nat) + seq![';'] + decimal(
        g as nat,
    ) + seq![';'] + decimal(b as nat) + seq!['m']
}

/// The red, green and blue of the sixteen named terminal colours, numbered
/// black, red, green, yellow, blue, magenta, cyan, white, then their bright
/// forms in the same order.
pub open spec fn named_rgb(k: int) -> (int, int, int) {
    if k == 0 {
        (0, 0, 0)
    } else if k == 1 {
        (205, 0, 0)
    } else if k == 2 {
        (0, 205, 0)
    } else if k == 3 {
        (205, 205, 0)
    } else if k == 4 {
        (0, 0, 238)
    } else if k == 5 {
        (205, 0, 205)
    } else if k == 6 {
        (0, 205, 205)
    } else if k == 7 {
        (229, 229, 229)
    } else if k == 8 {
        (127, 127, 127)
    } else if k == 9 {
        (255, 0, 0)
    } else if k == 10 {
        (0, 255, 0)
    } else if k == 11 {
        (255, 255, 0)
    } else if k == 12 {
        (92, 92, 255)
    } else if k == 13 {
        (255, 0, 255)
    } else if k == 14 {
        (0, 255, 255)
    } else {
        (255, 255, 255)
    }
}

/// The squared distance from the named colour `k` to `(r, g, b)`.
pub open spec fn distance(k: int, r: u8, g: u8, b: u8) -> int {
    let (nr, ng, nb) = named_rgb(k);
    (nr - r) * (nr - r) + (ng - g) * (ng - g) + (nb - b) * (nb - b)
}

/// The first of the named colours `0..n` at the least distance from
/// `(r, g, b)`.
pub open spec fn closest_among(n: nat, r: u8, g: u8, b: u8) -> int
    decreases n,
{
    if n <= 1 {
        0
    } else {
        let c = closest_among((n - 1) as nat, r, g, b);
        if distance(n - 1, r, g, b) < distance(c, r, g, b) {
            n - 1
        } else {
            c
        }
    }
}

/// The escape sequence that starts the named foreground colour `k`: codes
/// 30 to 37 for the plain colours and 90 to 97 for the bright ones.
pub open spec fn named_style(k: int) -> Seq<char> {
    if k < 8 {
        seq!['\u{1b}', '[', '3', digit_char(k), 'm']
    } else {
        seq!['\u{1b}', '[', '9', digit_char(k - 8), 'm']
    }
}

/// `res` is `s` painted in `(r, g, b)`: left plain where colours are off,
/// in the 24-bit colour where the terminal takes it, or else in the named
/// colour closest to it.
pub open spec fn painted(res: Seq<char>, s: Seq<char>, rgb: (u8, u8, u8)) -> bool {
    let (r, g, b) = rgb;
    ||| res == s
    ||| res == truecolor_style(r, g, b) + s + reset()
    ||| res == named_style(closest_among(16, r, g, b)) + s + reset()
}

/// `s` painted in the colour `(r, g, b)` for a terminal.
///
/// Calls `colored::Colorize::truecolor` on `s` and formats the result with
/// `Display`. Whether colours are written at all depends on the environment
/// and on whether the output is a terminal, and whether the 24-bit form or
/// the closest of the sixteen named colours is written depends on the
/// `COLORTERM` variable; the contract claims, for a `s` without an escape
/// character, that the result is one of those three forms. Which one comes
/// out is left unsaid.
#[verifier::external_body]
fn paint(s: &str, r: u8, g: u8, b: u8) -> (res: String)
    ensures
        !s@.contains('\u{1b}') ==> painted(res@, s@, (r, g, b)),
{
    format!("{}", s.truecolor(r, g, b))
}

impl ChartRender {
    /// The default colours: green for bullish candles, red for bearish ones.
    pub fn new() -> (c: Self)
        ensures
            c.bullish_color == (52u8, 208u8, 88u8),
            c.bearish_color == (234u8, 74u8, 90u8),
    {
        Self { bullish_color: (52, 208, 88), bearish_color: (234, 74, 90) }
    }

    /// The colour of candles of type `candle_type`.
    pub fn color_of(&self, candle_type: &CandleType) -> (rgb: (u8, u8, u8))
        ensures
            rgb == match candle_type {
                CandleType::Bearish => self.bearish_color,
                CandleType::Bullish => self.bullish_color,
            },
    {
        match candle_type {
            CandleType::Bearish => self.bearish_color,
            CandleType::Bullish => self.bullish_color,
        }
    }

    /// `string` painted in the colour of candles of type `candle_type`.
    pub fn colorize(&self, candle_type: &CandleType, string: &str) -> (res: String)
        ensures
            !string@.contains('\u{1b}') ==> painted(
                res@,
                string@,
                match candle_type {
                    CandleType::Bearish => self.bearish_color,
                    CandleType::Bullish => self.bullish_color,
                },
            ),
    {
        let (r, g, b) = self.color_of(candle_type);
        paint(string, r, g, b)
    }
}

} // verus!
