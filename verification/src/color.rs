//! 8-bit RGB colours.

use vstd::prelude::*;

verus! {

/// An 8-bit RGB colour.
#[derive(Debug, Clone, Copy, PartialEq, Eq, Structural)]
pub struct Rgb {
    pub r: u8,
    pub g: u8,
    pub b: u8,
}

/// Squared Euclidean distance between two colours, as a mathematical integer.
pub open spec fn rgb_dist_sq(a: Rgb, b: Rgb) -> int {
    (a.r - b.r) * (a.r - b.r) + (a.g - b.g) * (a.g - b.g) + (a.b - b.b) * (a.b - b.b)
}

/// Channel `ch` (0 red, 1 green, 2 blue) of a colour.
pub open spec fn chan(c: Rgb, ch: int) -> int {
    if ch == 0 {
        c.r as int
    } else if ch == 1 {
        c.g as int
    } else {
        c.b as int
    }
}

/// Sum of one colour channel (`ch` in 0..3) over a sequence of pixels.
pub open spec fn channel_total(s: Seq<Rgb>, ch: int) -> int
    decreases s.len(),
{
    if s.len() == 0 {
        0
    } else {
        channel_total(s.drop_last(), ch) + chan(s.last(), ch)
    }
}

/// Squared colour distance is symmetric, and two colours that differ in one
/// channel only are as far apart as the square of that channel's difference,
/// whichever channel it is.
pub proof fn lemma_dist_one_channel(a: Rgb, b: Rgb)
    ensures
        rgb_dist_sq(a, b) == rgb_dist_sq(b, a),
        a.g == b.g && a.b == b.b ==> rgb_dist_sq(a, b) == (a.r - b.r) * (a.r - b.r),
        a.r == b.r && a.b == b.b ==> rgb_dist_sq(a, b) == (a.g - b.g) * (a.g - b.g),
        a.r == b.r && a.g == b.g ==> rgb_dist_sq(a, b) == (a.b - b.b) * (a.b - b.b),
{
    assert((a.r - b.r) * (a.r - b.r) == (b.r - a.r) * (b.r - a.r)) by (nonlinear_arith);
    assert((a.g - b.g) * (a.g - b.g) == (b.g - a.g) * (b.g - a.g)) by (nonlinear_arith);
    assert((a.b - b.b) * (a.b - b.b) == (b.b - a.b) * (b.b - a.b)) by (nonlinear_arith);
    let (x, y, z) = (a.r - b.r, a.g - b.g, a.b - b.b);
    assert(x == 0 ==> x * x == 0) by (nonlinear_arith);
    assert(y == 0 ==> y * y == 0) by (nonlinear_arith);
    assert(z == 0 ==> z * z == 0) by (nonlinear_arith);
}

/// The truncated quotient `t / n` of a total `t` of `n` values, each in
/// `[lo, hi]`, is the `q` with `n·q <= t < n·(q + 1)`, and lies in `[lo, hi]`.
pub(crate) proof fn lemma_truncated_mean(t: int, n: int, lo: int, hi: int)
    requires
        n >= 1,
        n * lo <= t <= n * hi,
    ensures
        n * (t / n) <= t < n * (t / n + 1),
        lo <= t / n <= hi,
{
    let q = t / n;
    let r = t % n;
    assert(t == n * q + r && 0 <= r < n) by (nonlinear_arith)
        requires
            n >= 1,
            q == t / n,
            r == t % n,
    ;
    assert(n * (q + 1) == n * q + n) by (nonlinear_arith);
    if q < lo {
        assert(n * (q + 1) <= n * lo) by (nonlinear_arith)
            requires
                q + 1 <= lo,
                n >= 1,
        ;
    }
    if q > hi {
        assert(n * q >= n * (hi + 1)) by (nonlinear_arith)
            requires
                q >= hi + 1,
                n >= 1,
        ;
        assert(n * (hi + 1) == n * hi + n) by (nonlinear_arith);
    }
}

/// The lowercase hexadecimal digit of a value below 16.
pub open spec fn hex_digit(n: int) -> char {
    if n < 10 {
        (48 + n) as char
    } else {
        (87 + n) as char
    }
}

/// The two lowercase hexadecimal digits of a byte.
pub open spec fn hex_byte(v: u8) -> Seq<char> {
    seq![hex_digit((v / 16) as int), hex_digit((v % 16) as int)]
}

/// The `#rrggbb` form of a colour.
pub open spec fn hex_string(c: Rgb) -> Seq<char> {
    seq!['#'] + hex_byte(c.r) + hex_byte(c.g) + hex_byte(c.b)
}

/// Appends one character to a string with `String::push`; claims what the
/// standard library documents: the character is added at the end.
#[verifier::external_body]
fn push_char(s: &mut String, c: char)
    ensures
        final(s)@ == old(s)@.push(c),
{
    s.push(c)
}

fn digit_char(n: u8) -> (c: char)
    requires
        n < 16,
    ensures
        c == hex_digit(n as int),
{
    if n < 10 {
        (n + 48) as char
    } else {
        (n + 87) as char
    }
}

impl Rgb {
    pub fn new(r: u8, g: u8, b: u8) -> (c: Self)
        ensures
            c == (Rgb { r, g, b }),
    {
        Rgb { r, g, b }
    }

    /// Returns the colour as a lowercase hex string (e.g. `"#ff8000"`).
    pub fn to_hex(self) -> (s: String)
        ensures
            s@ == hex_string(self),
    {
        let mut s = String::new();
        push_char(&mut s, '#');
        push_char(&mut s, digit_char(self.r / 16));
        push_char(&mut s, digit_char(self.r % 16));
        push_char(&mut s, digit_char(self.g / 16));
        push_char(&mut s, digit_char(self.g % 16));
        push_char(&mut s, digit_char(self.b / 16));
        push_char(&mut s, digit_char(self.b % 16));
        assert(s@ =~= hex_string(self));
        s
    }

    /// Returns the squared Euclidean distance to another RGB colour.
    pub fn distance_squared(self, other: Rgb) -> (d: u32)
        ensures
            d == rgb_dist_sq(self, other),
    {
        let dr = self.r as i32 - other.r as i32;
        let dg = self.g as i32 - other.g as i32;
        let db = self.b as i32 - other.b as i32;
        assert(dr * dr <= 65025 && dg * dg <= 65025 && db * db <= 65025) by (nonlinear_arith)
            requires
                -255 <= dr <= 255,
                -255 <= dg <= 255,
                -255 <= db <= 255,
        ;
        assert(dr * dr >= 0 && dg * dg >= 0 && db * db >= 0) by (nonlinear_arith);
        (dr * dr + dg * dg + db * db) as u32
    }
}

} // verus!
