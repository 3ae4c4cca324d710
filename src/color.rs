use vstd::prelude::*;
use vstd::std_specs::cmp::PartialEqSpec;
use vstd::string::StringSliceAdditionalSpecFns;

verus! {

/// The alpha channel of a packed `0xAARRGGBB` value.
pub open spec fn alpha_of(d: u32) -> int {
    d as int / 0x1000000
}

/// The red channel of a packed `0xAARRGGBB` value.
pub open spec fn red_of(d: u32) -> int {
    (d as int / 0x10000) % 0x100
}

/// The green channel of a packed `0xAARRGGBB` value.
pub open spec fn green_of(d: u32) -> int {
    (d as int / 0x100) % 0x100
}

/// The blue channel of a packed `0xAARRGGBB` value.
pub open spec fn blue_of(d: u32) -> int {
    d as int % 0x100
}

/// The packed value of four channels.
pub open spec fn pack(a: int, r: int, g: int, b: int) -> int {
    a * 0x1000000 + r * 0x10000 + g * 0x100 + b
}

/// One color channel of `old` composited under `new` at coverage `a`.
pub open spec fn mix(o: int, n: int, a: int) -> int {
    (o * (255 - a)) / 256 + (n * a) / 256
}

/// The compositing rule: a transparent `new` leaves `old`, an opaque one
/// replaces it, anything between is a weighted sum of the channels.
pub open spec fn blend(old: u32, new: u32) -> u32 {
    let a = alpha_of(new);
    if a == 0 {
        old
    } else if a >= 255 {
        new
    } else {
        pack(
            (alpha_of(old) * (255 - a)) / 256 + a,
            mix(red_of(old), red_of(new), a),
            mix(green_of(old), green_of(new), a),
            mix(blue_of(old), blue_of(new), a),
        ) as u32
    }
}

pub(crate) proof fn lemma_unpack(d: u32)
    ensures
        d >> 24 == alpha_of(d),
        (d >> 24) & 0xff == alpha_of(d),
        (d & 0xFF000000) >> 24 == alpha_of(d),
        (d & 0x00FF0000) >> 16 == red_of(d),
        (d & 0x0000FF00) >> 8 == green_of(d),
        (d >> 16) & 0xff == red_of(d),
        (d >> 8) & 0xff == green_of(d),
        d & 0xff == blue_of(d),
        d == pack(alpha_of(d), red_of(d), green_of(d), blue_of(d)),
        0 <= alpha_of(d) < 256,
        0 <= red_of(d) < 256,
        0 <= green_of(d) < 256,
        0 <= blue_of(d) < 256,
{
    assert((d >> 24) & 0xff == d / 0x1000000) by (bit_vector);
    assert(d >> 24 == d / 0x1000000) by (bit_vector);
    assert((d >> 16) & 0xff == (d / 0x10000) % 0x100) by (bit_vector);
    assert((d >> 8) & 0xff == (d / 0x100) % 0x100) by (bit_vector);
    assert(d & 0xff == d % 0x100) by (bit_vector);
    assert((d & 0xFF000000) >> 24 == d / 0x1000000) by (bit_vector);
    assert((d & 0x00FF0000) >> 16 == (d / 0x10000) % 0x100) by (bit_vector);
    assert((d & 0x0000FF00) >> 8 == (d / 0x100) % 0x100) by (bit_vector);
    assert(d == (d / 0x1000000) * 0x1000000 + ((d / 0x10000) % 0x100) * 0x10000 + ((d / 0x100)
        % 0x100) * 0x100 + d % 0x100) by (bit_vector);
}

proof fn lemma_pack(a: u32, r: u32, g: u32, b: u32)
    requires
        a < 256,
        r < 256,
        g < 256,
        b < 256,
    ensures
        (a << 24) | (r << 16) | (g << 8) | b == pack(a as int, r as int, g as int, b as int),
        alpha_of(pack(a as int, r as int, g as int, b as int) as u32) == a,
        red_of(pack(a as int, r as int, g as int, b as int) as u32) == r,
        green_of(pack(a as int, r as int, g as int, b as int) as u32) == g,
        blue_of(pack(a as int, r as int, g as int, b as int) as u32) == b,
{
    assert((a << 24) | (r << 16) | (g << 8) | b == a * 0x1000000 + r * 0x10000 + g * 0x100 + b)
        by (bit_vector)
        requires
            a < 256,
            r < 256,
            g < 256,
            b < 256,
    ;
    let p = pack(a as int, r as int, g as int, b as int);
    assert(p / 0x1000000 == a && (p / 0x10000) % 0x100 == r && (p / 0x100) % 0x100 == g && p
        % 0x100 == b) by (nonlinear_arith)
        requires
            p == a * 0x1000000 + r * 0x10000 + g * 0x100 + b,
            a < 256,
            r < 256,
            g < 256,
            b < 256,
    ;
}

proof fn lemma_scale(c: u32, k: u32)
    requires
        c < 256,
        k < 256,
    ensures
        c * k < 0x10000,
        ((c * k) as u32) >> 8 == (c * k) / 256,
{
    assert(c * k < 0x10000) by (nonlinear_arith)
        requires
            c < 256,
            k < 256,
    ;
    let p = (c * k) as u32;
    assert(p >> 8 == p / 256) by (bit_vector);
}

proof fn lemma_mix_bound(o: int, n: int, a: int)
    requires
        0 <= o < 256,
        0 <= n < 256,
        0 < a < 255,
    ensures
        0 <= mix(o, n, a) < 256,
        0 <= (o * (255 - a)) / 256 + a < 256,
{
    assert(0 <= (o * (255 - a)) / 256 <= (255 * (255 - a)) / 256) by (nonlinear_arith)
        requires
            0 <= o < 256,
            0 < a < 255,
    ;
    assert(0 <= (n * a) / 256 <= (255 * a) / 256) by (nonlinear_arith)
        requires
            0 <= n < 256,
            0 < a < 255,
    ;
    assert((255 * (255 - a)) / 256 + (255 * a) / 256 < 256) by (nonlinear_arith)
        requires
            0 < a < 255,
    ;
    assert((255 * (255 - a)) / 256 + a < 256) by (nonlinear_arith)
        requires
            0 < a < 255,
    ;
}

/// Composites `new` onto `old` by the blending rule.
pub fn blend_value(old: u32, new: u32) -> (r: u32)
    ensures
        r == blend(old, new),
{
    let alpha = (new >> 24) & 0xFF;
    proof {
        lemma_unpack(old);
        lemma_unpack(new);
    }
    if alpha == 0 {
        old
    } else if alpha >= 255 {
        new
    } else {
        let nr = (new >> 16) & 0xFF;
        let ng = (new >> 8) & 0xFF;
        let nb = new & 0xFF;
        let n_alpha = 255 - alpha;
        let oa = (old >> 24) & 0xFF;
        let or = (old >> 16) & 0xFF;
        let og = (old >> 8) & 0xFF;
        let ob = old & 0xFF;
        proof {
            lemma_scale(nr, alpha);
            lemma_scale(ng, alpha);
            lemma_scale(nb, alpha);
            lemma_scale(oa, n_alpha);
            lemma_scale(or, n_alpha);
            lemma_scale(og, n_alpha);
            lemma_scale(ob, n_alpha);
        }
        let n_r = (nr * alpha) >> 8;
        let n_g = (ng * alpha) >> 8;
        let n_b = (nb * alpha) >> 8;
        let o_a = (oa * n_alpha) >> 8;
        let o_r = (or * n_alpha) >> 8;
        let o_g = (og * n_alpha) >> 8;
        let o_b = (ob * n_alpha) >> 8;
        proof {
            lemma_mix_bound(or as int, nr as int, alpha as int);
            lemma_mix_bound(og as int, ng as int, alpha as int);
            lemma_mix_bound(ob as int, nb as int, alpha as int);
            lemma_mix_bound(oa as int, nb as int, alpha as int);
            lemma_pack(o_a, o_r, o_g, o_b);
            lemma_pack(alpha, n_r, n_g, n_b);
            assert(o_a + alpha < 256 && o_r + n_r < 256 && o_g + n_g < 256 && o_b + n_b < 256);
        }
        ((o_a << 24) | (o_r << 16) | (o_g << 8) | o_b) + ((alpha << 24) | (n_r << 16) | (n_g << 8)
            | n_b)
    }
}

/// A color, packed as `0xAARRGGBB`.
#[derive(Copy, Clone, Debug)]
pub struct Color {
    pub data: u32,
}

impl Color {
    /// An opaque color.
    pub fn rgb(r: u8, g: u8, b: u8) -> (c: Color)
        ensures
            c.data == pack(255, r as int, g as int, b as int),
            alpha_of(c.data) == 255,
            red_of(c.data) == r,
            green_of(c.data) == g,
            blue_of(c.data) == b,
    {
        proof {
            lemma_pack(255, r as u32, g as u32, b as u32);
            assert(255u32 << 24 == 0xFF000000u32) by (bit_vector);
        }
        Color { data: 0xFF000000 | ((r as u32) << 16) | ((g as u32) << 8) | (b as u32) }
    }

    /// A color with the given alpha.
    pub fn rgba(r: u8, g: u8, b: u8, a: u8) -> (c: Color)
        ensures
            c.data == pack(a as int, r as int, g as int, b as int),
            alpha_of(c.data) == a,
            red_of(c.data) == r,
            green_of(c.data) == g,
            blue_of(c.data) == b,
    {
        proof {
            lemma_pack(a as u32, r as u32, g as u32, b as u32);
        }
        Color { data: ((a as u32) << 24) | ((r as u32) << 16) | ((g as u32) << 8) | (b as u32) }
    }

    /// The red channel.
    pub fn r(&self) -> (v: u8)
        ensures
            v == red_of(self.data),
    {
        proof {
            lemma_unpack(self.data);
        }
        ((self.data & 0x00FF0000) >> 16) as u8
    }

    /// The green channel.
    pub fn g(&self) -> (v: u8)
        ensures
            v == green_of(self.data),
    {
        proof {
            lemma_unpack(self.data);
        }
        ((self.data & 0x0000FF00) >> 8) as u8
    }

    /// The blue channel.
    pub fn b(&self) -> (v: u8)
        ensures
            v == blue_of(self.data),
    {
        proof {
            lemma_unpack(self.data);
        }
        (self.data & 0x000000FF) as u8
    }

    /// The alpha channel.
    pub fn a(&self) -> (v: u8)
        ensures
            v == alpha_of(self.data),
    {
        proof {
            lemma_unpack(self.data);
        }
        ((self.data & 0xFF000000) >> 24) as u8
    }
}


/// Colors compare by their red, green and blue channels; alpha is ignored.
impl PartialEq for Color {
    fn eq(&self, other: &Color) -> (res: bool) {
        self.r() == other.r() && self.g() == other.g() && self.b() == other.b()
    }
}

impl vstd::std_specs::cmp::PartialEqSpecImpl for Color {
    open spec fn obeys_eq_spec() -> bool {
        true
    }

    open spec fn eq_spec(&self, other: &Color) -> bool {
        same_rgb(self.data, other.data)
    }
}

/// Two packed values that agree on red, green and blue.
pub open spec fn same_rgb(x: u32, y: u32) -> bool {
    red_of(x) == red_of(y) && green_of(x) == green_of(y) && blue_of(x) == blue_of(y)
}

/// Colors that differ in alpha alone are equal, and equal colors agree on
/// red, green and blue.
pub proof fn lemma_eq_ignores_alpha(c: Color, d: Color)
    ensures
        c.eq_spec(&d) <==> same_rgb(c.data, d.data),
        same_rgb(c.data, d.data) && alpha_of(c.data) != alpha_of(d.data) ==> c.eq_spec(&d),
{
}

/// The value of an ASCII hexadecimal digit, or -1 for any other byte.
pub open spec fn hex_value(b: u8) -> int {
    if 48 <= b <= 57 {
        b - 48
    } else if 65 <= b <= 70 {
        b - 55
    } else if 97 <= b <= 102 {
        b - 87
    } else {
        -1
    }
}

/// A color text `#AARRGGBB`: a `#` and eight hexadecimal digits.
pub open spec fn is_color_spec(s: Seq<u8>) -> bool {
    &&& s.len() == 9
    &&& s[0] == 35
    &&& forall|i: int| 1 <= i < 9 ==> hex_value(#[trigger] s[i]) >= 0
}

/// The `k`-th channel byte of a color text, counted from the left.
pub open spec fn spec_channel(s: Seq<u8>, k: int) -> int {
    hex_value(s[2 * k + 1]) * 16 + hex_value(s[2 * k + 2])
}

/// Reads one hexadecimal digit.
pub fn hex_digit(b: u8) -> (r: Option<u8>)
    ensures
        hex_value(b) >= 0 <==> r is Some,
        r matches Some(v) ==> v == hex_value(b),
{
    if b >= 48 && b <= 57 {
        Some(b - 48)
    } else if b >= 65 && b <= 70 {
        Some(b - 55)
    } else if b >= 97 && b <= 102 {
        Some(b - 87)
    } else {
        None
    }
}

/// The error of a color text that is not `#AARRGGBB`.
#[derive(Copy, Clone, Debug, PartialEq, Eq)]
pub struct InvalidColorSpec;

fn channel_at(s: &[u8], k: usize) -> (r: Option<u8>)
    requires
        k < 4,
        s@.len() == 9,
    ensures
        r is Some <==> hex_value(s@[2 * k + 1]) >= 0 && hex_value(s@[2 * k + 2]) >= 0,
        r matches Some(v) ==> v == spec_channel(s@, k as int),
{
    match (hex_digit(s[2 * k + 1]), hex_digit(s[2 * k + 2])) {
        (Some(hi), Some(lo)) => Some(hi * 16 + lo),
        _ => None,
    }
}

impl Color {
    /// Parses a color text `#AARRGGBB`: alpha, red, green and blue, two
    /// hexadecimal digits each.
    pub fn from_spec(text: &str) -> (r: Result<Color, InvalidColorSpec>)
        ensures
            r is Ok <==> is_color_spec(text.spec_bytes()),
            r matches Ok(c) ==> {
                &&& alpha_of(c.data) == spec_channel(text.spec_bytes(), 0)
                &&& red_of(c.data) == spec_channel(text.spec_bytes(), 1)
                &&& green_of(c.data) == spec_channel(text.spec_bytes(), 2)
                &&& blue_of(c.data) == spec_channel(text.spec_bytes(), 3)
            },
    {
        let s = text.as_bytes();
        if s.len() != 9 || s[0] != 35u8 {
            return Err(InvalidColorSpec);
        }
        let a = channel_at(s, 0);
        let r = channel_at(s, 1);
        let g = channel_at(s, 2);
        let b = channel_at(s, 3);
        match (a, r, g, b) {
            (Some(a), Some(r), Some(g), Some(b)) => {
                assert(is_color_spec(s@)) by {
                    assert forall|i: int| 1 <= i < 9 implies hex_value(#[trigger] s@[i]) >= 0 by {
                        if i == 1 || i == 2 {
                        } else if i == 3 || i == 4 {
                        } else if i == 5 || i == 6 {
                        } else {
                        }
                    }
                }
                Ok(Color::rgba(r, g, b, a))
            },
            _ => {
                assert(!is_color_spec(s@));
                Err(InvalidColorSpec)
            },
        }
    }
}

} // verus!
