//! Compositing of RGBA pixels onto a white background.
//!
//! A channel `c` under the opacity `a` becomes `c·α + 255·(1 − α)` with
//! `α = a / 255`, computed as binary32 arithmetic computes it: every
//! operation gives the binary32 number nearest to its exact result, of two
//! equally near the one with the even significand, and the sum is cut off
//! to a byte. The arithmetic is carried out on integers, so that it gives
//! the same bytes everywhere. A number is held as a multiple of 2^-31,
//! which every binary32 number from 2^-8 to 2^24 is.

use vstd::arithmetic::div_mod::{lemma_fundamental_div_mod, lemma_fundamental_div_mod_converse};
use vstd::prelude::*;

verus! {

/// The number 1 in units of 2^-31.
pub open spec fn unit() -> int {
    2147483648
}

/// The spacing of the binary32 numbers around `n / d`, in units of 2^-31,
/// found from the candidate `q` upwards: the least power of two times `q`
/// whose 2^24-fold exceeds `n / d`. A binary32 number has 24 significant
/// bits, so that the numbers from `q · 2^23` to `q · 2^24` are `q` apart.
pub open spec fn spacing_from(n: int, d: int, q: int) -> int
    decreases n - q,
{
    if q >= 1 && d >= 1 && 2 * q <= n && q <= n / (16777216 * d) {
        spacing_from(n, d, 2 * q)
    } else {
        q
    }
}

/// The binary32 number nearest to `n / d`, all in units of 2^-31: the
/// multiple of the spacing nearest to `n / d`, and of two equally near
/// multiples the even one.
pub open spec fn nearest_single(n: int, d: int) -> int {
    let q = spacing_from(n, d, 1);
    let k = n / (d * q);
    let r = n % (d * q);
    if 2 * r > d * q || (2 * r == d * q && k % 2 == 1) {
        (k + 1) * q
    } else {
        k * q
    }
}

/// One colour channel `c` under the opacity `a`, laid over white.
pub open spec fn blend_on_white(c: u8, a: u8) -> int {
    let alpha = nearest_single(a * unit(), 255);
    let colour = nearest_single(c * alpha, 1);
    let rest = nearest_single(
        if alpha <= unit() {
            unit() - alpha
        } else {
            0
        },
        1,
    );
    let white = nearest_single(255 * rest, 1);
    let sum = nearest_single(colour + white, 1);
    if sum / unit() > 255 {
        255
    } else {
        sum / unit()
    }
}

/// The RGB bytes of the whole pixels of `rgba`, each laid over white.
/// Bytes after the last whole pixel are left out.
pub open spec fn rgb_on_white(rgba: Seq<u8>) -> Seq<u8> {
    Seq::new(
        ((rgba.len() / 4) * 3) as nat,
        |k: int| blend_on_white(rgba[4 * (k / 3) + k % 3], rgba[4 * (k / 3) + 3]) as u8,
    )
}

/// Whether `s` is a power of two up to 2^17.
pub open spec fn small_power(s: int) -> bool {
    s == 1 || s == 2 || s == 4 || s == 8 || s == 16 || s == 32 || s == 64 || s == 128 || s == 256
        || s == 512 || s == 1024 || s == 2048 || s == 4096 || s == 8192 || s == 16384 || s
        == 32768 || s == 65536 || s == 131072
}

/// A divisor times a number that is at most the quotient is at most the
/// dividend.
proof fn lemma_below_quotient(n: int, divisor: int, q: int)
    requires
        n >= 0,
        divisor >= 1,
        0 <= q <= n / divisor,
    ensures
        q * divisor <= n,
{
    lemma_fundamental_div_mod(n, divisor);
    let whole = n / divisor;
    assert(q * divisor <= divisor * whole) by (nonlinear_arith)
        requires
            0 <= q <= whole,
            divisor >= 1,
    ;
}

/// The spacing around a number below 2^10 is a power of two up to 2^17,
/// and it is 1 or its 2^23-fold is at most the number.
proof fn lemma_spacing(n: int, d: int, q: int)
    requires
        0 <= n < 0x200_0000_0000,
        d >= 1,
        small_power(q),
        q == 1 || q * 8388608 * d <= n,
    ensures
        small_power(spacing_from(n, d, q)),
        spacing_from(n, d, q) == 1 || spacing_from(n, d, q) * 8388608 * d <= n,
    decreases n - q,
{
    if q >= 1 && d >= 1 && 2 * q <= n && q <= n / (16777216 * d) {
        lemma_below_quotient(n, 16777216 * d, q);
        assert(q * 16777216 <= q * (16777216 * d)) by (nonlinear_arith)
            requires
                q >= 1,
                d >= 1,
        ;
        assert((2 * q) * 8388608 * d == q * (16777216 * d)) by (nonlinear_arith);
        lemma_spacing(n, d, 2 * q);
    }
}

/// A multiple of 2^17 is a multiple of every lesser power of two.
proof fn lemma_small_power_divides(v: int, q: int)
    requires
        small_power(q),
        v % 131072 == 0,
    ensures
        v % q == 0,
{
    let t = v / 131072;
    assert(v == 131072 * t);
    if q == 1 {
        assert(v == 1 * (131072 * t));
        assert(v % 1 == 0);
    } else if q == 2 {
        assert(v == 2 * (65536 * t));
        assert(v % 2 == 0);
    } else if q == 4 {
        assert(v == 4 * (32768 * t));
        assert(v % 4 == 0);
    } else if q == 8 {
        assert(v == 8 * (16384 * t));
        assert(v % 8 == 0);
    } else if q == 16 {
        assert(v == 16 * (8192 * t));
        assert(v % 16 == 0);
    } else if q == 32 {
        assert(v == 32 * (4096 * t));
        assert(v % 32 == 0);
    } else if q == 64 {
        assert(v == 64 * (2048 * t));
        assert(v % 64 == 0);
    } else if q == 128 {
        assert(v == 128 * (1024 * t));
        assert(v % 128 == 0);
    } else if q == 256 {
        assert(v == 256 * (512 * t));
        assert(v % 256 == 0);
    } else if q == 512 {
        assert(v == 512 * (256 * t));
        assert(v % 512 == 0);
    } else if q == 1024 {
        assert(v == 1024 * (128 * t));
        assert(v % 1024 == 0);
    } else if q == 2048 {
        assert(v == 2048 * (64 * t));
        assert(v % 2048 == 0);
    } else if q == 4096 {
        assert(v == 4096 * (32 * t));
        assert(v % 4096 == 0);
    } else if q == 8192 {
        assert(v == 8192 * (16 * t));
        assert(v % 8192 == 0);
    } else if q == 16384 {
        assert(v == 16384 * (8 * t));
        assert(v % 16384 == 0);
    } else if q == 32768 {
        assert(v == 32768 * (4 * t));
        assert(v % 32768 == 0);
    } else if q == 65536 {
        assert(v == 65536 * (2 * t));
        assert(v % 65536 == 0);
    } else if q == 131072 {
        assert(v == 131072 * (1 * t));
        assert(v % 131072 == 0);
    }
}

/// A multiple of 2^17 below 2^10 is a binary32 number: where `n / d` is
/// such a number `v`, the binary32 number nearest to `n / d` is `v`.
proof fn lemma_nearest_is_exact(n: int, d: int, v: int)
    requires
        0 <= n < 0x200_0000_0000,
        d >= 1,
        v >= 0,
        n == v * d,
        v % 131072 == 0,
    ensures
        nearest_single(n, d) == v,
{
    lemma_spacing(n, d, 1);
    let q = spacing_from(n, d, 1);
    lemma_small_power_divides(v, q);
    lemma_fundamental_div_mod(v, q);
    let g = v / q;
    assert(d * q >= 1) by (nonlinear_arith)
        requires
            d >= 1,
            q >= 1,
    ;
    assert(n == g * (d * q) + 0 && g * q == v) by (nonlinear_arith)
        requires
            n == v * d,
            v == q * g + v % q,
            v % q == 0,
    ;
    lemma_fundamental_div_mod_converse(n, d * q, g, 0);
}

/// An opaque pixel keeps its colour.
pub proof fn lemma_opaque_keeps_colour(c: u8)
    ensures
        blend_on_white(c, 255) == c,
{
    lemma_nearest_is_exact(255 * unit(), 255, unit());
    lemma_nearest_is_exact(c * unit(), 1, c * unit());
    lemma_nearest_is_exact(0, 1, 0);
}

/// A transparent pixel becomes white.
pub proof fn lemma_transparent_becomes_white(c: u8)
    ensures
        blend_on_white(c, 0) == 255,
{
    lemma_nearest_is_exact(0, 255, 0);
    lemma_nearest_is_exact(0, 1, 0);
    lemma_nearest_is_exact(unit(), 1, unit());
    lemma_nearest_is_exact(255 * unit(), 1, 255 * unit());
}

/// The weighted mean of a channel `c` and white, with the weights `a` and
/// `255 - a`, rounded down.
pub open spec fn weighted_mean(c: u8, a: u8) -> int {
    (c * a + 255 * (255 - a)) / 255
}

/// The binary32 number nearest to `n / d` differs from `n / d` by at most
/// half the spacing, which is at most the 2^-24-fold of `n / d`, or half a
/// unit.
proof fn lemma_nearest_is_near(n: int, d: int)
    requires
        0 <= n < 0x200_0000_0000,
        d >= 1,
    ensures
        nearest_single(n, d) >= 0,
        16777216 * (d * nearest_single(n, d) - n) <= n + 8388608 * d,
        16777216 * (n - d * nearest_single(n, d)) <= n + 8388608 * d,
{
    lemma_spacing(n, d, 1);
    let q = spacing_from(n, d, 1);
    let m = d * q;
    lemma_multiple_below(n, d, q);
    lemma_fundamental_div_mod(n, m);
    let k = n / m;
    let r = n % m;
    let v = nearest_single(n, d);
    assert(8388608 * m <= n + 8388608 * d) by (nonlinear_arith)
        requires
            m == d * q,
            q == 1 || q * 8388608 * d <= n,
            n >= 0,
            d >= 1,
    ;
    if 2 * r > m || (2 * r == m && k % 2 == 1) {
        assert(d * ((k + 1) * q) == m * k + m) by (nonlinear_arith)
            requires
                m == d * q,
        ;
    } else {
        assert(d * (k * q) == m * k) by (nonlinear_arith)
            requires
                m == d * q,
        ;
    }
}

/// A blended channel is the weighted mean of the channel and white, or one
/// less: the roundings of binary32 arithmetic cost less than one step of a
/// byte, and never add one.
pub proof fn lemma_blend_near_weighted_mean(c: u8, a: u8)
    ensures
        weighted_mean(c, a) - 1 <= blend_on_white(c, a) <= weighted_mean(c, a),
{
    let one = unit();
    let alpha = nearest_single(a * one, 255);
    lemma_nearest_is_near(a * one, 255);
    assert(-32767 <= 255 * alpha - a * one <= 32767);
    assert(0 <= alpha <= one + 128);
    let product = c * alpha;
    let both = c * a;
    assert(0 <= product <= 255 * alpha && 0 <= both <= 65025 && -8355585 <= 255 * product - both
        * one <= 8355585) by (nonlinear_arith)
        requires
            product == c * alpha,
            both == c * a,
            0 <= c <= 255,
            0 <= a <= 255,
            0 <= alpha,
            -32767 <= 255 * alpha - a * one <= 32767,
    ;
    let colour = nearest_single(product, 1);
    lemma_nearest_is_near(product, 1);
    assert(-32641 <= colour - product <= 32641);
    let left = if alpha <= one {
        one - alpha
    } else {
        0
    };
    let rest = nearest_single(left, 1);
    lemma_nearest_is_near(left, 1);
    assert(-128 <= rest - left <= 128);
    assert(0 <= left - (one - alpha) <= 128);
    let white = nearest_single(255 * rest, 1);
    lemma_nearest_is_near(255 * rest, 1);
    assert(-32641 <= white - 255 * rest <= 32641);
    let sum = nearest_single(colour + white, 1);
    lemma_nearest_is_near(colour + white, 1);
    assert(-65290 <= sum - (colour + white) <= 65290);
    let exact = both + 255 * (255 - a);
    assert(-66653430 <= 255 * sum - exact * one <= 66653430);
    let mean = exact / 255;
    assert(exact == 255 * mean + exact % 255 && 0 <= exact % 255 <= 254);
    assert(0 <= mean <= 255);
    assert(sum < (mean + 1) * one);
    assert(sum >= (mean - 1) * one);
    assert(sum >= 0);
    assert(mean - 1 <= sum / one <= mean);
}

/// The multiples of `q` around `n / d`: the one below is at most `n`.
proof fn lemma_multiple_below(n: int, d: int, q: int)
    requires
        n >= 0,
        d >= 1,
        q >= 1,
    ensures
        d * q >= 1,
        0 <= n / (d * q),
        (n / (d * q)) * q <= n,
        (n / (d * q) + 1) * q == (n / (d * q)) * q + q,
{
    let m = d * q;
    assert(m >= q) by (nonlinear_arith)
        requires
            m == d * q,
            d >= 1,
            q >= 1,
    ;
    lemma_fundamental_div_mod(n, m);
    let k = n / m;
    assert(k >= 0 && m * k <= n) by (nonlinear_arith)
        requires
            n == m * k + n % m,
            0 <= n % m < m,
            m >= 1,
            n >= 0,
    ;
    assert(k * q <= m * k) by (nonlinear_arith)
        requires
            k >= 0,
            m >= q,
            q >= 1,
    ;
    assert((k + 1) * q == k * q + q) by (nonlinear_arith);
}

/// The binary32 number nearest to `n / d`, in units of 2^-31, for `d`
/// being 1 or 255.
fn nearest(n: u64, d: u64) -> (r: u64)
    requires
        d == 1 || d == 255,
        n <= 0x10_0000_0000_0000,
    ensures
        r == nearest_single(n as int, d as int),
        r <= 2 * n + 1,
{
    let limit: u64 = n / (16777216 * d);
    let mut q: u64 = 1;
    while 2 * q <= n && q <= limit
        invariant
            d == 1 || d == 255,
            n <= 0x10_0000_0000_0000,
            limit == (n as int) / (16777216 * d),
            q >= 1,
            q <= n || q == 1,
            spacing_from(n as int, d as int, q as int) == spacing_from(n as int, d as int, 1),
        decreases n - q,
    {
        q = 2 * q;
    }
    let m: u64 = if d == 1 {
        q
    } else {
        255 * q
    };
    proof {
        lemma_multiple_below(n as int, d as int, q as int);
        assert(m == d * q);
    }
    let k: u64 = n / m;
    let r: u64 = n % m;
    if 2 * r > m || (2 * r == m && k % 2 == 1) {
        (k + 1) * q
    } else {
        k * q
    }
}

/// One colour channel `c` under the opacity `a`, laid over white.
fn blend_channel(c: u8, a: u8) -> (r: u8)
    ensures
        r == blend_on_white(c, a),
{
    let one: u64 = 2147483648;
    let alpha: u64 = nearest(a as u64 * one, 255);
    assert(c * alpha <= 255 * alpha) by (nonlinear_arith)
        requires
            c <= 255,
            alpha >= 0,
    ;
    let colour: u64 = nearest(c as u64 * alpha, 1);
    let rest: u64 = nearest(
        if alpha <= one {
            one - alpha
        } else {
            0
        },
        1,
    );
    let white: u64 = nearest(255 * rest, 1);
    let sum: u64 = nearest(colour + white, 1);
    let whole: u64 = sum / one;
    if whole > 255 {
        255
    } else {
        whole as u8
    }
}

/// Lays every whole RGBA pixel of `rgba_data` over a white background and
/// returns the resulting RGB bytes, three for each four of the input.
pub fn convert_rgba_to_rgb_with_white_bg(rgba_data: &[u8]) -> (rgb_data: Vec<u8>)
    ensures
        rgb_data@ == rgb_on_white(rgba_data@),
{
    let len: usize = rgba_data.len();
    let pixels: usize = len / 4;
    let mut rgb_data: Vec<u8> = Vec::new();
    let mut i: usize = 0;
    while i < pixels
        invariant
            len == rgba_data@.len(),
            pixels == len / 4,
            i <= pixels,
            rgb_data@.len() == 3 * i,
            forall|k: int|
                0 <= k < 3 * i ==> #[trigger] rgb_data@[k] == blend_on_white(
                    rgba_data@[4 * (k / 3) + k % 3],
                    rgba_data@[4 * (k / 3) + 3],
                ),
        decreases pixels - i,
    {
        let alpha: u8 = rgba_data[4 * i + 3];
        let r: u8 = blend_channel(rgba_data[4 * i], alpha);
        let g: u8 = blend_channel(rgba_data[4 * i + 1], alpha);
        let b: u8 = blend_channel(rgba_data[4 * i + 2], alpha);
        rgb_data.push(r);
        rgb_data.push(g);
        rgb_data.push(b);
        i += 1;
    }
    assert(rgb_data@ =~= rgb_on_white(rgba_data@));
    rgb_data
}

} // verus!
