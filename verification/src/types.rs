//! Colour modes, error-correction levels, colours and the metadata of a code.
use vstd::prelude::*;
use vstd::string::StrSliceExecFns;
use vstd::string::StringExecFns;

use crate::text::{decimal, push_decimal};

verus! {

/// Whether `c` has the Unicode White_Space property.
pub open spec fn is_white_space(c: char) -> bool {
    let u = c as u32;
    (9 <= u <= 13) || u == 32 || u == 0x85 || u == 0xa0 || u == 0x1680 || (0x2000 <= u <= 0x200a)
        || u == 0x2028 || u == 0x2029 || u == 0x202f || u == 0x205f || u == 0x3000
}

/// `s` without its leading white space.
pub open spec fn trim_start(s: Seq<char>) -> Seq<char>
    decreases s.len(),
{
    if s.len() > 0 && is_white_space(s[0]) {
        trim_start(s.drop_first())
    } else {
        s
    }
}

/// `s` without its trailing white space.
pub open spec fn trim_end(s: Seq<char>) -> Seq<char>
    decreases s.len(),
{
    if s.len() > 0 && is_white_space(s.last()) {
        trim_end(s.drop_last())
    } else {
        s
    }
}

/// `s` without its leading and trailing white space.
pub open spec fn trimmed(s: Seq<char>) -> Seq<char> {
    trim_end(trim_start(s))
}

/// The lowercase form of a text, by the Unicode Lowercase mapping.
pub uninterp spec fn lowercased(s: Seq<char>) -> Seq<char>;

/// `str::trim`. Claimed: the text without its leading and trailing characters of the Unicode
/// White_Space property, as its documentation gives.
#[verifier::external_body]
fn trim_text(s: &str) -> (r: &str)
    ensures
        r@ == trimmed(s@),
{
    s.trim()
}

/// `str::to_lowercase`. Claimed: the result is the text named `lowercased`.
#[verifier::external_body]
pub(crate) fn lowercase_text(s: &str) -> (r: String)
    ensures
        r@ == lowercased(s@),
{
    s.to_lowercase()
}

/// The trimmed, lowercased form of a setting given as text.
fn clean_setting(s: &str) -> (r: String)
    ensures
        r@ == lowercased(trimmed(s@)),
{
    lowercase_text(trim_text(s))
}

/// Whether a text is the literal `lit`.
pub(crate) fn text_is(t: &String, lit: &str) -> (b: bool)
    ensures
        b == (t@ == lit@),
{
    *t == lit.to_owned()
}

/// Whether `c` is an ASCII decimal digit.
pub open spec fn is_digit(c: char) -> bool {
    48 <= (c as u32) <= 57
}

/// The number that the decimal digits `d` write.
pub open spec fn digits_value(d: Seq<char>) -> nat
    decreases d.len(),
{
    if d.len() == 0 {
        0
    } else {
        digits_value(d.drop_last()) * 10 + ((d.last() as u32) - 48) as nat
    }
}

/// What a run of decimal digits worth at most 255 gives; nothing for anything else.
pub open spec fn parse_digits(d: Seq<char>) -> Option<u8> {
    if d.len() > 0 && (forall|k: int| 0 <= k < d.len() ==> #[trigger] is_digit(d[k])) && digits_value(
        d,
    ) <= 255 {
        Some(digits_value(d) as u8)
    } else {
        None
    }
}

/// What parsing a text as a `u8` gives: an optional `+` then one or more decimal digits whose
/// value is at most 255; nothing else.
pub open spec fn spec_parse_u8(t: Seq<char>) -> Option<u8> {
    parse_digits(
        if t.len() > 0 && t[0] == '+' {
            t.drop_first()
        } else {
            t
        },
    )
}

proof fn lemma_digits_step(d: Seq<char>, j: int)
    requires
        0 <= j < d.len(),
    ensures
        digits_value(d.take(j + 1)) == digits_value(d.take(j)) * 10 + ((d[j] as u32) - 48) as nat,
{
    assert(d.take(j + 1).drop_last() =~= d.take(j));
}

proof fn lemma_digits_prefix(d: Seq<char>, m: int)
    requires
        0 <= m <= d.len(),
        forall|k: int| 0 <= k < d.len() ==> #[trigger] is_digit(d[k]),
    ensures
        digits_value(d.take(m)) <= digits_value(d),
    decreases d.len(),
{
    if m < d.len() {
        assert(d.drop_last().take(m) =~= d.take(m));
        lemma_digits_prefix(d.drop_last(), m);
    } else {
        assert(d.take(m) =~= d);
    }
}

/// Parses a text as a `u8`: an optional `+`, then decimal digits worth at most 255.
fn parse_u8(t: &str) -> (r: Option<u8>)
    ensures
        r == spec_parse_u8(t@),
{
    let n = t.unicode_len();
    let start: usize = if n > 0 && t.get_char(0) == '+' {
        1
    } else {
        0
    };
    let ghost d = if t@.len() > 0 && t@[0] == '+' {
        t@.drop_first()
    } else {
        t@
    };
    assert(d =~= t@.subrange(start as int, n as int));
    if start >= n {
        return None;
    }
    let mut v: u32 = 0;
    let mut i: usize = start;
    while i < n
        invariant
            start <= i <= n,
            n == t@.len(),
            d == t@.subrange(start as int, n as int),
            d == (if t@.len() > 0 && t@[0] == '+' {
                t@.drop_first()
            } else {
                t@
            }),
            forall|k: int| 0 <= k < i - start ==> #[trigger] is_digit(d[k]),
            v == digits_value(d.take(i - start)),
            v <= 255,
        decreases n - i,
    {
        let c = t.get_char(i);
        let cu = c as u32;
        let ghost j = i - start;
        assert(d[j] == c);
        if cu < 48 || cu > 57 {
            assert(!is_digit(d[j]));
            assert(parse_digits(d) is None);
            return None;
        }
        proof {
            lemma_digits_step(d, j);
        }
        v = v * 10 + (cu - 48);
        i += 1;
        if v > 255 {
            proof {
                if forall|k: int| 0 <= k < d.len() ==> #[trigger] is_digit(d[k]) {
                    lemma_digits_prefix(d, i - start);
                    assert(digits_value(d) > 255);
                }
                assert(parse_digits(d) is None);
            }
            return None;
        }
    }
    assert(d.take(n - start) =~= d);
    Some(v as u8)
}

/// Colour mode: how many colours a cell may take, and so how many bits it carries.
#[derive(Debug, Clone, Copy, PartialEq, Eq, Structural, Default)]
pub enum ColorMode {
    /// 2 colours, black and white: 1 bit per cell.
    #[default]
    Monochrome,
    /// 4 colours, white, black, red, blue: 2 bits per cell.
    FourColor,
    /// 8 colours, white, black, red, blue, green, cyan, magenta, yellow: 3 bits per cell.
    EightColor,
}

impl ColorMode {
    pub open spec fn spec_num_colors(self) -> nat {
        match self {
            ColorMode::Monochrome => 2,
            ColorMode::FourColor => 4,
            ColorMode::EightColor => 8,
        }
    }

    pub open spec fn spec_bits_per_cell(self) -> nat {
        match self {
            ColorMode::Monochrome => 1,
            ColorMode::FourColor => 2,
            ColorMode::EightColor => 3,
        }
    }

    /// The number of colours.
    pub fn num_colors(&self) -> (n: usize)
        ensures
            n == self.spec_num_colors(),
    {
        match self {
            ColorMode::Monochrome => 2,
            ColorMode::FourColor => 4,
            ColorMode::EightColor => 8,
        }
    }

    /// The number of bits a cell carries.
    pub fn bits_per_cell(&self) -> (n: usize)
        ensures
            n == self.spec_bits_per_cell(),
    {
        match self {
            ColorMode::Monochrome => 1,
            ColorMode::FourColor => 2,
            ColorMode::EightColor => 3,
        }
    }

    /// Reads a colour mode from a setting, trimmed and lowercased: "0", "no", "none", "bw",
    /// "wk", "mono", "2", "b/w", "false" or "off" give monochrome; "4", "default", "min" or
    /// "wkrb" four colours; "8", "all", "max" or "wkrbgcmy" eight colours; anything else none.
    pub fn from_str_loose(s: &str) -> (r: Option<ColorMode>)
        ensures
            r == color_mode_named(lowercased(trimmed(s@))),
    {
        let clean = clean_setting(s);
        if text_is(&clean, "0") || text_is(&clean, "no") || text_is(&clean, "none") || text_is(
            &clean,
            "bw",
        ) || text_is(&clean, "wk") || text_is(&clean, "mono") || text_is(&clean, "2") || text_is(
            &clean,
            "b/w",
        ) || text_is(&clean, "false") || text_is(&clean, "off") {
            Some(ColorMode::Monochrome)
        } else if text_is(&clean, "4") || text_is(&clean, "default") || text_is(&clean, "min")
            || text_is(&clean, "wkrb") {
            Some(ColorMode::FourColor)
        } else if text_is(&clean, "8") || text_is(&clean, "all") || text_is(&clean, "max")
            || text_is(&clean, "wkrbgcmy") {
            Some(ColorMode::EightColor)
        } else {
            None
        }
    }
}

/// The colour mode a cleaned setting names.
pub open spec fn color_mode_named(t: Seq<char>) -> Option<ColorMode> {
    if t == "0"@ || t == "no"@ || t == "none"@ || t == "bw"@ || t == "wk"@ || t == "mono"@ || t
        == "2"@ || t == "b/w"@ || t == "false"@ || t == "off"@ {
        Some(ColorMode::Monochrome)
    } else if t == "4"@ || t == "default"@ || t == "min"@ || t == "wkrb"@ {
        Some(ColorMode::FourColor)
    } else if t == "8"@ || t == "all"@ || t == "max"@ || t == "wkrbgcmy"@ {
        Some(ColorMode::EightColor)
    } else {
        None
    }
}

/// The error-correction level a cleaned setting names: "0", "no", "none", "off", "false" none;
/// "1", "low" low; "2", "mid", "med", "normal" medium; "3", "high", "max" high; another number
/// up to 255 that many parity bytes; anything else medium.
pub open spec fn ecc_level_named(t: Seq<char>) -> EccLevel {
    if t == "0"@ || t == "no"@ || t == "none"@ || t == "off"@ || t == "false"@ {
        EccLevel::Off
    } else if t == "1"@ || t == "low"@ {
        EccLevel::Low
    } else if t == "2"@ || t == "mid"@ || t == "med"@ || t == "normal"@ {
        EccLevel::Medium
    } else if t == "3"@ || t == "high"@ || t == "max"@ {
        EccLevel::High
    } else {
        match spec_parse_u8(t) {
            Some(n) => EccLevel::Custom(n),
            None => EccLevel::Medium,
        }
    }
}

/// Reed-Solomon error-correction level.
#[derive(Debug, Clone, Copy, PartialEq, Eq, Structural, Default)]
pub enum EccLevel {
    /// No parity bytes.
    Off,
    Low,
    #[default]
    Medium,
    High,
    Custom(u8),
}

impl EccLevel {
    pub open spec fn spec_parity_bytes(self) -> nat {
        match self {
            EccLevel::Off => 0,
            EccLevel::Low => 4,
            EccLevel::Medium => 12,
            EccLevel::High => 28,
            EccLevel::Custom(b) => b as nat,
        }
    }

    /// The number of parity bytes per Reed-Solomon block.
    pub fn parity_bytes(&self) -> (n: usize)
        ensures
            n == self.spec_parity_bytes(),
    {
        match self {
            EccLevel::Off => 0,
            EccLevel::Low => 4,
            EccLevel::Medium => 12,
            EccLevel::High => 28,
            EccLevel::Custom(b) => *b as usize,
        }
    }

    /// Reads a level from a setting, trimmed and lowercased, as `ecc_level_named` says.
    pub fn from_str_loose(s: &str) -> (r: EccLevel)
        ensures
            r == ecc_level_named(lowercased(trimmed(s@))),
    {
        let clean = clean_setting(s);
        if text_is(&clean, "0") || text_is(&clean, "no") || text_is(&clean, "none") || text_is(
            &clean,
            "off",
        ) || text_is(&clean, "false") {
            EccLevel::Off
        } else if text_is(&clean, "1") || text_is(&clean, "low") {
            EccLevel::Low
        } else if text_is(&clean, "2") || text_is(&clean, "mid") || text_is(&clean, "med")
            || text_is(&clean, "normal") {
            EccLevel::Medium
        } else if text_is(&clean, "3") || text_is(&clean, "high") || text_is(&clean, "max") {
            EccLevel::High
        } else {
            match parse_u8(clean.as_str()) {
                Some(n) => EccLevel::Custom(n),
                None => EccLevel::Medium,
            }
        }
    }
}

/// A 24-bit RGB colour.
#[derive(Debug, Clone, Copy, PartialEq, Eq, Structural)]
pub struct Rgb(pub u8, pub u8, pub u8);

/// The colours of the palette, by cell value: white, black, red, blue, green, cyan, magenta,
/// yellow.
pub open spec fn spec_palette(i: int) -> Rgb {
    if i == 0 {
        Rgb(255, 255, 255)
    } else if i == 1 {
        Rgb(0, 0, 0)
    } else if i == 2 {
        Rgb(255, 0, 0)
    } else if i == 3 {
        Rgb(0, 0, 255)
    } else if i == 4 {
        Rgb(0, 255, 0)
    } else if i == 5 {
        Rgb(0, 255, 255)
    } else if i == 6 {
        Rgb(255, 0, 255)
    } else {
        Rgb(255, 255, 0)
    }
}

pub open spec fn spec_distance_sq(a: Rgb, b: Rgb) -> int {
    (a.0 - b.0) * (a.0 - b.0) + (a.1 - b.1) * (a.1 - b.1) + (a.2 - b.2) * (a.2 - b.2)
}

/// The colour `c` written as `rgb(r,g,b)`.
pub open spec fn rgb_text(c: Rgb) -> Seq<char> {
    "rgb("@ + decimal(c.0 as nat) + ","@ + decimal(c.1 as nat) + ","@ + decimal(c.2 as nat) + ")"@
}

impl Rgb {
    /// The colour as it is displayed: `rgb(r,g,b)`.
    pub fn to_text(&self) -> (s: String)
        ensures
            s@ == rgb_text(*self),
    {
        let mut out = String::new();
        out.append("rgb(");
        push_decimal(&mut out, self.0 as u64);
        out.append(",");
        push_decimal(&mut out, self.1 as u64);
        out.append(",");
        push_decimal(&mut out, self.2 as u64);
        out.append(")");
        proof {
            assert(out@ =~= rgb_text(*self));
        }
        out
    }

    /// Palette colour number `i` (`i < 8`).
    pub fn palette(i: usize) -> (c: Rgb)
        requires
            i < 8,
        ensures
            c == spec_palette(i as int),
    {
        if i == 0 {
            Rgb(255, 255, 255)
        } else if i == 1 {
            Rgb(0, 0, 0)
        } else if i == 2 {
            Rgb(255, 0, 0)
        } else if i == 3 {
            Rgb(0, 0, 255)
        } else if i == 4 {
            Rgb(0, 255, 0)
        } else if i == 5 {
            Rgb(0, 255, 255)
        } else if i == 6 {
            Rgb(255, 0, 255)
        } else {
            Rgb(255, 255, 0)
        }
    }

    /// The squared Euclidean distance between two colours.
    pub fn distance_sq(&self, other: &Rgb) -> (d: u32)
        ensures
            d == spec_distance_sq(*self, *other),
    {
        let dr = self.0 as i32 - other.0 as i32;
        let dg = self.1 as i32 - other.1 as i32;
        let db = self.2 as i32 - other.2 as i32;
        assert(0 <= dr * dr <= 65025 && 0 <= dg * dg <= 65025 && 0 <= db * db <= 65025) by (nonlinear_arith)
            requires
                -255 <= dr <= 255,
                -255 <= dg <= 255,
                -255 <= db <= 255,
        ;
        (dr * dr + dg * dg + db * db) as u32
    }
}

/// Summary of an encoded or decoded code.
#[derive(Debug, Clone, Default)]
pub struct Metadata {
    pub size: usize,
    pub raw_bytes: usize,
    pub packed_bytes: usize,
    pub header_bytes_count: usize,
    pub data_bytes_count: usize,
    pub ecc_start_byte: usize,
    pub total_cap_bytes: usize,
    pub ecc_bytes: usize,
    pub colors: usize,
    pub bits_per_cell: usize,
    pub flags: u8,
    pub is_dual: bool,
    pub is_binary: bool,
    pub is_signed: bool,
    pub is_encrypted: bool,
    pub is_min_header: bool,
    pub is_nano: bool,
}

/// A decoded payload: text, bytes, or a public and a private text.
#[derive(Debug, Clone, PartialEq, Eq)]
pub enum DecodedPayload {
    Text(String),
    Binary(Vec<u8>),
    Dual { public_data: String, private_data: String },
}

} // verus!
