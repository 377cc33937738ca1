use vstd::prelude::*;

verus! {

/// An RGB pixel with 8-bit channels.
#[derive(Clone, Copy, Debug, PartialEq, Eq, Structural)]
pub struct Rgb {
    pub r: u8,
    pub g: u8,
    pub b: u8,
}

/// The lowercase ASCII hex digit for `v` in `0..16`.
pub open spec fn hex_char(v: int) -> u8 {
    if v < 10 {
        (48 + v) as u8
    } else {
        (87 + v) as u8
    }
}

/// The two lowercase hex digits of a byte, high nibble first.
pub open spec fn byte_hex(x: u8) -> Seq<u8> {
    seq![hex_char(x as int / 16), hex_char(x as int % 16)]
}

/// The six hex digits of a color: red, green, blue.
pub open spec fn rgb_hex(c: Rgb) -> Seq<u8> {
    byte_hex(c.r) + byte_hex(c.g) + byte_hex(c.b)
}

/// Squared Euclidean distance between two colors.
pub open spec fn dist_sq(a: Rgb, b: Rgb) -> int {
    (a.r - b.r) * (a.r - b.r) + (a.g - b.g) * (a.g - b.g) + (a.b - b.b) * (a.b - b.b)
}

/// The largest `r <= k` with `r * r <= s` (0 if there is none).
pub open spec fn sqrt_below(s: int, k: nat) -> nat
    decreases k,
{
    if k == 0 || k * k <= s {
        k
    } else {
        sqrt_below(s, (k - 1) as nat)
    }
}

/// Euclidean distance of two colors, rounded down and saturated at 255.
pub open spec fn distance(a: Rgb, b: Rgb) -> nat {
    sqrt_below(dist_sq(a, b), 255)
}

proof fn lemma_sqrt_below(s: int, r: nat, k: nat)
    requires
        r <= k <= 255,
        r * r <= s,
        r == 255 || s < (r + 1) * (r + 1),
    ensures
        sqrt_below(s, k) == r,
    decreases k,
{
    if k > r {
        assert(k * k > s) by (nonlinear_arith)
            requires
                k >= r + 1,
                s < (r + 1) * (r + 1),
        ;
        lemma_sqrt_below(s, r, (k - 1) as nat);
    }
}

/// A color is at distance zero from itself.
pub proof fn lemma_distance_self(a: Rgb)
    ensures
        distance(a, a) == 0,
{
    assert(dist_sq(a, a) == 0) by (nonlinear_arith);
    assert(0 < (0nat + 1) * (0nat + 1)) by (nonlinear_arith);
    lemma_sqrt_below(0, 0, 255);
}

/// Distinct colors have distinct hex forms.
pub proof fn lemma_rgb_hex_injective(a: Rgb, b: Rgb)
    requires
        rgb_hex(a) == rgb_hex(b),
    ensures
        a == b,
{
    assert forall|x: u8, y: u8| #[trigger] byte_hex(x) == #[trigger] byte_hex(y) implies x == y by {
        assert(byte_hex(x)[0] == byte_hex(y)[0]);
        assert(byte_hex(x)[1] == byte_hex(y)[1]);
        assert(x == (x / 16) * 16 + x % 16);
        assert(y == (y / 16) * 16 + y % 16);
    }
    assert(rgb_hex(a).subrange(0, 2) =~= byte_hex(a.r));
    assert(rgb_hex(b).subrange(0, 2) =~= byte_hex(b.r));
    assert(rgb_hex(a).subrange(2, 4) =~= byte_hex(a.g));
    assert(rgb_hex(b).subrange(2, 4) =~= byte_hex(b.g));
    assert(rgb_hex(a).subrange(4, 6) =~= byte_hex(a.b));
    assert(rgb_hex(b).subrange(4, 6) =~= byte_hex(b.b));
}

fn hex_digit(v: u8) -> (r: u8)
    requires
        v < 16,
    ensures
        r == hex_char(v as int),
{
    if v < 10 {
        48 + v
    } else {
        87 + v
    }
}

/// The value of a lowercase hex digit; `None` for any other byte.
fn hex_value(d: u8) -> (r: Option<u8>)
    ensures
        r matches Some(v) ==> v < 16 && hex_char(v as int) == d,
        forall|v: u8| v < 16 && hex_char(v as int) == d ==> r == Some(v),
{
    if 48 <= d && d <= 57 {
        Some(d - 48)
    } else if 97 <= d && d <= 102 {
        Some(d - 87)
    } else {
        None
    }
}

/// Appends the six hex digits of `c`.
pub fn push_rgb_hex(out: &mut Vec<u8>, c: Rgb)
    ensures
        final(out)@ == old(out)@ + rgb_hex(c),
{
    out.push(hex_digit(c.r / 16));
    out.push(hex_digit(c.r % 16));
    out.push(hex_digit(c.g / 16));
    out.push(hex_digit(c.g % 16));
    out.push(hex_digit(c.b / 16));
    out.push(hex_digit(c.b % 16));
    assert(out@ =~= old(out)@ + rgb_hex(c));
}

fn decode_byte(hi: u8, lo: u8) -> (r: Option<u8>)
    ensures
        r matches Some(x) ==> byte_hex(x) == seq![hi, lo],
        forall|x: u8| byte_hex(x) == seq![hi, lo] ==> r == Some(x),
{
    match (hex_value(hi), hex_value(lo)) {
        (Some(h), Some(l)) => {
            let x = h * 16 + l;
            assert(x / 16 == h && x % 16 == l) by (nonlinear_arith)
                requires
                    x == h * 16 + l,
                    l < 16,
            ;
            assert(byte_hex(x) =~= seq![hi, lo]);
            assert forall|y: u8| byte_hex(y) == seq![hi, lo] implies y == x by {
                assert(byte_hex(y)[0] == hi && byte_hex(y)[1] == lo);
                assert(y == (y / 16) * 16 + y % 16);
            }
            Some(x)
        },
        _ => {
            assert forall|x: u8| byte_hex(x) != seq![hi, lo] by {
                if byte_hex(x) == seq![hi, lo] {
                    assert(byte_hex(x)[0] == hi && byte_hex(x)[1] == lo);
                }
            }
            None
        },
    }
}

/// Reads a color from six lowercase hex digits; `None` for anything else.
pub fn decode_rgb(v: Vec<u8>) -> (r: Option<Rgb>)
    ensures
        r matches Some(c) ==> rgb_hex(c) == v@,
        forall|c: Rgb| rgb_hex(c) == v@ ==> r == Some(c),
{
    if v.len() != 6 {
        return None;
    }
    let r = decode_byte(v[0], v[1]);
    let g = decode_byte(v[2], v[3]);
    let b = decode_byte(v[4], v[5]);
    assert forall|c: Rgb| rgb_hex(c) == v@ implies byte_hex(c.r) == seq![v@[0], v@[1]] && byte_hex(
        c.g,
    ) == seq![v@[2], v@[3]] && byte_hex(c.b) == seq![v@[4], v@[5]] by {
        assert(rgb_hex(c)[0] == v@[0] && rgb_hex(c)[1] == v@[1]);
        assert(rgb_hex(c)[2] == v@[2] && rgb_hex(c)[3] == v@[3]);
        assert(rgb_hex(c)[4] == v@[4] && rgb_hex(c)[5] == v@[5]);
        assert(byte_hex(c.r) =~= seq![v@[0], v@[1]]);
        assert(byte_hex(c.g) =~= seq![v@[2], v@[3]]);
        assert(byte_hex(c.b) =~= seq![v@[4], v@[5]]);
    }
    match (r, g, b) {
        (Some(r), Some(g), Some(b)) => {
            let c = Rgb { r, g, b };
            assert(rgb_hex(c) =~= v@);
            Some(c)
        },
        _ => None,
    }
}

/// Euclidean distance between two colors, rounded down and saturated at 255.
pub fn pxdiff(a: &Rgb, b: &Rgb) -> (r: u8)
    ensures
        r == distance(*a, *b),
        dist_sq(*a, *b) >= 255 * 255 ==> r == 255,
{
    let dr: i32 = a.r as i32 - b.r as i32;
    let dg: i32 = a.g as i32 - b.g as i32;
    let db: i32 = a.b as i32 - b.b as i32;
    assert(dr * dr <= 65025 && dg * dg <= 65025 && db * db <= 65025 && 0 <= dr * dr && 0 <= dg
        * dg && 0 <= db * db) by (nonlinear_arith)
        requires
            -255 <= dr <= 255,
            -255 <= dg <= 255,
            -255 <= db <= 255,
    ;
    let d: i32 = dr * dr + dg * dg + db * db;
    // binary search for the largest root in 0..256
    let mut lo: i32 = 0;
    let mut hi: i32 = 256;
    while hi - lo > 1
        invariant
            0 <= lo < hi <= 256,
            lo * lo <= d,
            hi < 256 ==> d < hi * hi,
        decreases hi - lo,
    {
        let mid: i32 = lo + (hi - lo) / 2;
        assert(mid * mid <= 65536) by (nonlinear_arith)
            requires
                0 <= mid < 256,
        ;
        if mid * mid <= d {
            lo = mid;
        } else {
            hi = mid;
        }
    }
    proof {
        assert(d == dist_sq(*a, *b));
        lemma_sqrt_below(d as int, lo as nat, 255);
        if d >= 255 * 255 && lo < 255 {
            assert((lo + 1) * (lo + 1) <= 255 * 255) by (nonlinear_arith)
                requires
                    0 <= lo < 255,
            ;
        }
    }
    lo as u8
}

} // verus!
