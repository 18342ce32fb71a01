//! 24-bit RGB colors: channel clamping, packing into an integer and
//! saturating addition.

use vstd::prelude::*;
use vstd::std_specs::ops::AddSpecImpl;
use vstd::string::StringExecFns;

verus! {

/// An RGB color with eight bits per channel.
#[derive(Debug, Copy, Clone)]
pub struct Color {
    pub r: u8,
    pub g: u8,
    pub b: u8,
}

/// The channel value closest to `v`: `v` itself inside `0..=255`, the nearer
/// end of that range outside it.
pub open spec fn clamp_channel(v: int) -> u8 {
    if v < 0 {
        0u8
    } else if v > 255 {
        255u8
    } else {
        v as u8
    }
}

fn clamp_to_channel(v: i32) -> (c: u8)
    ensures
        c == clamp_channel(v as int),
{
    if v < 0 {
        0
    } else if v > 255 {
        255
    } else {
        v as u8
    }
}

fn saturating_channel_sum(a: u8, b: u8) -> (c: u8)
    ensures
        c == clamp_channel(a + b),
{
    let sum: u32 = a as u32 + b as u32;
    if sum > 255 {
        255
    } else {
        sum as u8
    }
}

/// The character that writes the decimal digit `d`.
pub open spec fn digit_char(d: int) -> char {
    seq!['0', '1', '2', '3', '4', '5', '6', '7', '8', '9'][d]
}

/// The decimal numeral of `v`, without leading zeros.
pub open spec fn decimal(v: nat) -> Seq<char>
    decreases v,
{
    if v < 10 {
        seq![digit_char(v as int)]
    } else {
        decimal(v / 10).push(digit_char((v % 10) as int))
    }
}

fn digit_text(d: u8) -> (t: &'static str)
    requires
        d < 10,
    ensures
        t@ == seq![digit_char(d as int)],
{
    proof {
        reveal_strlit("0");
        reveal_strlit("1");
        reveal_strlit("2");
        reveal_strlit("3");
        reveal_strlit("4");
        reveal_strlit("5");
        reveal_strlit("6");
        reveal_strlit("7");
        reveal_strlit("8");
        reveal_strlit("9");
    }
    let t: &'static str = match d {
        0 => "0",
        1 => "1",
        2 => "2",
        3 => "3",
        4 => "4",
        5 => "5",
        6 => "6",
        7 => "7",
        8 => "8",
        _ => "9",
    };
    assert(t@ =~= seq![digit_char(d as int)]);
    t
}

fn append_decimal(text: &mut String, v: u8)
    ensures
        final(text)@ == old(text)@ + decimal(v as nat),
{
    let ghost before = text@;
    if v >= 100 {
        text.append(digit_text(v / 100));
    }
    if v >= 10 {
        text.append(digit_text((v / 10) % 10));
    }
    text.append(digit_text(v % 10));
    proof {
        reveal_with_fuel(decimal, 3);
        assert(text@ =~= before + decimal(v as nat));
    }
}

impl Color {
    /// The packed form of a color: red in bits 16..24, green in bits 8..16,
    /// blue in bits 0..8, and nothing above.
    pub open spec fn packed(self) -> u32 {
        (self.r * 0x1_0000 + self.g * 0x100 + self.b) as u32
    }

    /// The color held in the low 24 bits of `hex`; higher bits are ignored.
    pub open spec fn unpacked(hex: u32) -> Color {
        Color {
            r: ((hex as int / 0x1_0000) % 0x100) as u8,
            g: ((hex as int / 0x100) % 0x100) as u8,
            b: (hex as int % 0x100) as u8,
        }
    }

    /// The channel-wise sum of two colors, each channel stopping at 255.
    pub open spec fn saturating_sum(self, other: Color) -> Color {
        Color {
            r: clamp_channel(self.r + other.r),
            g: clamp_channel(self.g + other.g),
            b: clamp_channel(self.b + other.b),
        }
    }

    /// Builds a color from three integers, clamping each into `0..=255`.
    pub fn new(r: i32, g: i32, b: i32) -> (c: Color)
        ensures
            c.r == clamp_channel(r as int),
            c.g == clamp_channel(g as int),
            c.b == clamp_channel(b as int),
    {
        Color { r: clamp_to_channel(r), g: clamp_to_channel(g), b: clamp_to_channel(b) }
    }

    /// Reads a color out of the low 24 bits of `hex`.
    pub fn from_hex(hex: u32) -> (c: Color)
        ensures
            c == Color::unpacked(hex),
    {
        let r: u32 = (hex >> 16) & 0xFF;
        let g: u32 = (hex >> 8) & 0xFF;
        let b: u32 = hex & 0xFF;
        assert(((hex >> 16) & 0xFF) == (hex / 0x1_0000) % 0x100) by (bit_vector);
        assert(((hex >> 8) & 0xFF) == (hex / 0x100) % 0x100) by (bit_vector);
        assert((hex & 0xFF) == hex % 0x100) by (bit_vector);
        Color { r: r as u8, g: g as u8, b: b as u8 }
    }

    /// Packs the color into an integer: `0xRRGGBB`.
    pub fn to_hex(&self) -> (hex: u32)
        ensures
            hex == self.packed(),
            hex <= 0xFF_FFFF,
    {
        let r: u32 = self.r as u32;
        let g: u32 = self.g as u32;
        let b: u32 = self.b as u32;
        assert(((r << 16) | (g << 8) | b) == r * 0x1_0000 + g * 0x100 + b) by (bit_vector)
            requires
                r <= 0xFF,
                g <= 0xFF,
                b <= 0xFF,
        ;
        (r << 16) | (g << 8) | b
    }

    /// The text that shows a color: `Color (R: r, G: g, B: b)`, the channels
    /// in decimal.
    pub open spec fn text(self) -> Seq<char> {
        "Color (R: "@ + decimal(self.r as nat) + ", G: "@ + decimal(self.g as nat) + ", B: "@
            + decimal(self.b as nat) + ")"@
    }

    /// Writes the color as text.
    pub fn to_string(&self) -> (s: String)
        ensures
            s@ == self.text(),
    {
        let mut s: String = String::from_str("Color (R: ");
        append_decimal(&mut s, self.r);
        s.append(", G: ");
        append_decimal(&mut s, self.g);
        s.append(", B: ");
        append_decimal(&mut s, self.b);
        s.append(")");
        s
    }

    /// Unpacking a packed color gives the color back.
    pub proof fn lemma_unpack_packed(c: Color)
        ensures
            Color::unpacked(c.packed()) == c,
    {
    }

    /// Packing an unpacked integer keeps exactly its low 24 bits.
    pub proof fn lemma_pack_unpacked(hex: u32)
        ensures
            Color::unpacked(hex).packed() == hex % 0x100_0000,
    {
    }
}

impl core::ops::Add for Color {
    type Output = Color;

    /// Adds two colors channel by channel; a channel whose sum passes 255
    /// stays at 255.
    fn add(self, other: Color) -> (sum: Color)
        ensures
            sum == self.saturating_sum(other),
    {
        Color {
            r: saturating_channel_sum(self.r, other.r),
            g: saturating_channel_sum(self.g, other.g),
            b: saturating_channel_sum(self.b, other.b),
        }
    }
}

impl AddSpecImpl for Color {
    open spec fn obeys_add_spec() -> bool {
        true
    }

    open spec fn add_req(self, other: Color) -> bool {
        true
    }

    open spec fn add_spec(self, other: Color) -> Color {
        self.saturating_sum(other)
    }
}

} // verus!
