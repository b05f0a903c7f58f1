//! Dominant-color extraction from images: which files qualify, how an image
//! is reduced before sampling, which pixels are sampled, the median-cut
//! quantizer and the ranking of its buckets.

use image::DynamicImage;
use image::GenericImageView;
use vstd::prelude::*;
use vstd::arithmetic::power2::pow2;

use crate::text::{ascii_lower, ascii_lower_seq, chars_eq, chars_of, split, split_chars, string_of};

verus! {

// ---------------------------------------------------------------------------
// Supported files
// ---------------------------------------------------------------------------

/// The last component of a `/`-separated path that `Path::components` yields
/// as a normal component: empty and `.` components are skipped.
pub open spec fn last_named(parts: Seq<Seq<char>>) -> Option<Seq<char>>
    decreases parts.len(),
{
    if parts.len() == 0 {
        None
    } else if parts.last().len() == 0 || parts.last() == seq!['.'] {
        last_named(parts.drop_last())
    } else {
        Some(parts.last())
    }
}

/// `Path::file_name`: absent for a path ending in `..` or with no component.
pub open spec fn file_name(path: Seq<char>) -> Option<Seq<char>> {
    match last_named(split(path, '/')) {
        Some(c) => if c == seq!['.', '.'] {
            None
        } else {
            Some(c)
        },
        None => None,
    }
}

/// Index of the last `.` in `s`, or -1.
pub open spec fn last_dot(s: Seq<char>) -> int
    decreases s.len(),
{
    if s.len() == 0 {
        -1
    } else if s.last() == '.' {
        s.len() - 1
    } else {
        last_dot(s.drop_last())
    }
}

/// `Path::extension`: what follows the last `.` of the file name, unless that
/// `.` starts the name.
pub open spec fn extension(path: Seq<char>) -> Option<Seq<char>> {
    match file_name(path) {
        Some(f) => {
            let k = last_dot(f);
            if k <= 0 {
                None
            } else {
                Some(f.subrange(k + 1, f.len() as int))
            }
        },
        None => None,
    }
}

/// The extensions the bundled decoders read.
pub open spec fn image_extension(e: Seq<char>) -> bool {
    let l = ascii_lower_seq(e);
    ||| l == "png"@
    ||| l == "jpg"@
    ||| l == "jpeg"@
    ||| l == "webp"@
    ||| l == "gif"@
    ||| l == "bmp"@
    ||| l == "tif"@
    ||| l == "tiff"@
}

proof fn lemma_last_dot_range(s: Seq<char>)
    ensures
        -1 <= last_dot(s) < s.len(),
        last_dot(s) >= 0 ==> s[last_dot(s)] == '.',
    decreases s.len(),
{
    if s.len() > 0 && s.last() != '.' {
        lemma_last_dot_range(s.drop_last());
    }
}

fn find_last_dot(f: &Vec<char>) -> (k: Option<usize>)
    ensures
        match k {
            Some(i) => i == last_dot(f@),
            None => last_dot(f@) == -1,
        },
{
    let mut j: usize = f.len();
    assert(f@.subrange(0, j as int) =~= f@);
    while j > 0 && f[j - 1] != '.'
        invariant
            j <= f.len(),
            last_dot(f@) == last_dot(f@.subrange(0, j as int)),
        decreases j,
    {
        assert(f@.subrange(0, j as int).drop_last() =~= f@.subrange(0, j - 1));
        j = j - 1;
    }
    if j == 0 {
        assert(f@.subrange(0, 0) =~= Seq::<char>::empty());
        None
    } else {
        Some(j - 1)
    }
}

fn lowercase_ascii_chars(v: &Vec<char>) -> (r: Vec<char>)
    ensures
        r@ == ascii_lower_seq(v@),
{
    let mut r: Vec<char> = Vec::new();
    let mut i: usize = 0;
    while i < v.len()
        invariant
            i <= v.len(),
            r@ == ascii_lower_seq(v@.subrange(0, i as int)),
        decreases v.len() - i,
    {
        let c = v[i];
        let l = if 'A' <= c && c <= 'Z' {
            ((c as u32) + 32) as u8 as char
        } else {
            c
        };
        assert(l == ascii_lower(c));
        r.push(l);
        i = i + 1;
        assert(r@ =~= ascii_lower_seq(v@.subrange(0, i as int)));
    }
    assert(v@.subrange(0, v.len() as int) =~= v@);
    r
}

fn is_literal(v: &Vec<char>, text: &str) -> (b: bool)
    ensures
        b == (v@ == text@),
{
    let t = chars_of(text);
    chars_eq(v, &t)
}

/// `Path::file_name` of a path given as text.
fn file_name_chars(path: &str) -> (r: Option<Vec<char>>)
    ensures
        match file_name(path@) {
            Some(n) => r matches Some(v) && v@ == n,
            None => r is None,
        },
{
    let chars = chars_of(path);
    let parts = split_chars(&chars, '/');
    let ghost ps = parts@.map_values(|p: Vec<char>| p@);
    let mut j: usize = parts.len();
    assert(ps.subrange(0, j as int) =~= ps);
    while j > 0 && (parts[j - 1].len() == 0 || (parts[j - 1].len() == 1 && parts[j - 1][0] == '.'))
        invariant
            j <= parts.len(),
            ps == parts@.map_values(|p: Vec<char>| p@),
            last_named(ps) == last_named(ps.subrange(0, j as int)),
        decreases j,
    {
        assert(ps[j - 1] == parts@[j - 1]@);
        assert(parts@[j - 1]@.len() == 1 ==> (parts@[j - 1]@ =~= seq!['.'] <==> parts@[j - 1]@[0]
            == '.'));
        assert(ps.subrange(0, j as int).drop_last() =~= ps.subrange(0, j - 1));
        j = j - 1;
    }
    if j == 0 {
        assert(ps.subrange(0, 0) =~= Seq::<Seq<char>>::empty());
        return None;
    }
    assert(ps[j - 1] == parts@[j - 1]@);
    assert(parts@[j - 1]@.len() == 1 ==> (parts@[j - 1]@ =~= seq!['.'] <==> parts@[j - 1]@[0]
        == '.'));
    let f = parts[j - 1].clone();
    if f.len() == 2 && f[0] == '.' && f[1] == '.' {
        assert(f@ =~= seq!['.', '.']);
        return None;
    }
    assert(f@ != seq!['.', '.']) by {
        if f@.len() == 2 {
            assert(f@ =~= seq!['.', '.'] ==> f@[0] == '.' && f@[1] == '.');
        }
    }
    Some(f)
}

/// How a file is named in messages: its file name, or the whole path when
/// it has none.
pub fn file_label(path: &str) -> (r: String)
    ensures
        r@ == (match file_name(path@) {
            Some(n) => n,
            None => path@,
        }),
{
    match file_name_chars(path) {
        Some(v) => string_of(&v),
        None => String::from_str(path),
    }
}

/// True when the file extension is one the bundled decoders read (`png`,
/// `jpg`, `jpeg`, `webp`, `gif`, `bmp`, `tif`, `tiff`, in any ASCII case).
pub fn is_supported_image(path: &str) -> (b: bool)
    ensures
        b == (extension(path@) matches Some(e) && image_extension(e)),
{
    let f = match file_name_chars(path) {
        Some(v) => v,
        None => {
            return false;
        },
    };
    let k = match find_last_dot(&f) {
        Some(k) => k,
        None => {
            return false;
        },
    };
    proof {
        lemma_last_dot_range(f@);
    }
    if k == 0 {
        return false;
    }
    let mut ext: Vec<char> = Vec::new();
    let mut i: usize = k + 1;
    while i < f.len()
        invariant
            k + 1 <= i <= f.len(),
            ext@ == f@.subrange(k + 1, i as int),
        decreases f.len() - i,
    {
        ext.push(f[i]);
        i = i + 1;
        assert(ext@ =~= f@.subrange(k + 1, i as int));
    }
    let l = lowercase_ascii_chars(&ext);
    is_literal(&l, "png") || is_literal(&l, "jpg") || is_literal(&l, "jpeg") || is_literal(
        &l,
        "webp",
    ) || is_literal(&l, "gif") || is_literal(&l, "bmp") || is_literal(&l, "tif") || is_literal(
        &l,
        "tiff",
    )
}

// ---------------------------------------------------------------------------
// Reduction before sampling
// ---------------------------------------------------------------------------

/// `n / d` rounded to the nearest integer, ties to even (`d > 0`).
pub open spec fn round_even(n: int, d: int) -> int {
    let q = n / d;
    let r = n % d;
    if 2 * r < d {
        q
    } else if 2 * r > d {
        q + 1
    } else if q % 2 == 0 {
        q
    } else {
        q + 1
    }
}

/// The first exponent `k`, counting from `from`, with `a * 2^k >= 2^52 * b`:
/// the scale that puts the 53-bit significand of `a / b` in place.
pub open spec fn ratio_exp(a: int, b: int, from: int) -> int
    decreases 200 - from,
{
    if from >= 200 || a * pow2(from as nat) >= pow2(52) * b {
        from
    } else {
        ratio_exp(a, b, from + 1)
    }
}

/// The first `s`, counting from `from`, with `x < 2^(53 + s)`: how many low
/// bits of `x` an `f64` cannot hold.
pub open spec fn excess_bits(x: int, from: int) -> int
    decreases 200 - from,
{
    if from >= 200 || x < pow2((53 + from) as nat) {
        from
    } else {
        excess_bits(x, from + 1)
    }
}

/// `((edge as f64) * ((max as f64) / (longest as f64))).round()`, taken to
/// at least 1 (and at most `u32::MAX`, as the cast to `u32` saturates), in
/// exact integer arithmetic: the quotient is rounded to an `f64` (53
/// significant bits, ties to even) as `q / 2^k`, the product `edge * q` is
/// rounded the same way to `m`, and `m / 2^k` is rounded half away from zero.
pub open spec fn scaled_edge(edge: int, max: int, longest: int) -> int {
    if max == 0 {
        1
    } else {
        let k = ratio_exp(max, longest, 0);
        let p = pow2(k as nat) as int;
        let q = round_even(max * p, longest);
        let x = edge * q;
        let u = pow2(excess_bits(x, 0) as nat) as int;
        let m = round_even(x, u) * u;
        let v = (2 * m + p) / (2 * p);
        if v < 1 {
            1
        } else if v > 0xffff_ffff {
            0xffff_ffff
        } else {
            v
        }
    }
}

/// The largest box with the same aspect ratio whose longest edge is at most
/// `max`; never upscales. Each edge is scaled by `max / longest` in `f64`
/// arithmetic and rounded (see `scaled_edge`), and is at least 1.
pub open spec fn fitted(width: u32, height: u32, max: u32) -> (u32, u32) {
    let longest = if width >= height {
        width
    } else {
        height
    };
    if longest == 0 || longest <= max {
        (width, height)
    } else {
        (
            scaled_edge(width as int, max as int, longest as int) as u32,
            scaled_edge(height as int, max as int, longest as int) as u32,
        )
    }
}

/// Rounding to the nearest multiple of `d` moves `n` by at most `d / 2`.
proof fn lemma_round_even(n: int, d: int)
    requires
        n >= 0,
        d > 0,
    ensures
        round_even(n, d) >= 0,
        2 * (round_even(n, d) * d - n) <= d,
        2 * (n - round_even(n, d) * d) <= d,
        d == 1 ==> round_even(n, d) == n,
{
    let q = n / d;
    let r = n % d;
    assert(n == q * d + r && 0 <= r < d && q >= 0) by (nonlinear_arith)
        requires
            n >= 0,
            d > 0,
            q == n / d,
            r == n % d,
    ;
    assert((q + 1) * d == q * d + d) by (nonlinear_arith);
}

/// The quotient's exponent: `2^52 * b <= a * 2^k < 2^53 * b`, `1 <= k <= 84`.
proof fn lemma_ratio_exp(a: int, b: int, j: int)
    requires
        1 <= a < b <= 0xffff_ffff,
        0 <= j <= 84,
        a * pow2(j as nat) < pow2(52) * b,
    ensures
        j < ratio_exp(a, b, j) <= 84,
        a * pow2(ratio_exp(a, b, j) as nat) >= pow2(52) * b,
        a * pow2((ratio_exp(a, b, j) - 1) as nat) < pow2(52) * b,
    decreases 84 - j,
{
    lemma_pow2_facts();
    if j == 84 {
        assert(a * pow2(84) >= pow2(84)) by (nonlinear_arith)
            requires
                a >= 1,
                pow2(84) > 0,
        ;
        assert(pow2(52) * b < pow2(84)) by (nonlinear_arith)
            requires
                b <= 0xffff_ffff,
                pow2(52) == 0x10_0000_0000_0000,
                pow2(84) == 0x10_0000_0000_0000_0000_0000,
        ;
        assert(false);
    }
    let n = (j + 1) as nat;
    vstd::arithmetic::power2::lemma_pow2_unfold(n);
    assert(a * pow2(n) == 2 * (a * pow2(j as nat))) by (nonlinear_arith)
        requires
            pow2(n) == 2 * pow2(j as nat),
    ;
    assert(ratio_exp(a, b, j) == ratio_exp(a, b, j + 1));
    if a * pow2(n) < pow2(52) * b {
        lemma_ratio_exp(a, b, j + 1);
    } else {
        assert(ratio_exp(a, b, j + 1) == j + 1);
    }
}

/// The excess bits of a product below `2^86`: at most 33, `x < 2^(53 + s)`,
/// and `x >= 2^(52 + s)` when any bit is dropped.
proof fn lemma_excess_bits(x: int, j: int)
    requires
        0 <= x < pow2(86),
        0 <= j <= 33,
        j == 0 || x >= pow2((52 + j) as nat),
    ensures
        j <= excess_bits(x, j) <= 33,
        x < pow2((53 + excess_bits(x, j)) as nat),
        excess_bits(x, j) == 0 || x >= pow2((52 + excess_bits(x, j)) as nat),
    decreases 33 - j,
{
    if x >= pow2((53 + j) as nat) {
        if j == 33 {
            assert(false);
        }
        lemma_excess_bits(x, j + 1);
    }
}

/// Powers of two that the scaling proofs use.
proof fn lemma_pow2_facts()
    ensures
        pow2(52) == 0x10_0000_0000_0000,
        pow2(53) == 0x20_0000_0000_0000,
        pow2(84) == 0x10_0000_0000_0000_0000_0000,
        pow2(86) == 0x40_0000_0000_0000_0000_0000,
{
    vstd::arithmetic::power2::lemma2_to64();
    vstd::arithmetic::power2::lemma2_to64_rest();
    vstd::arithmetic::power2::lemma_pow2_adds(64, 20);
    vstd::arithmetic::power2::lemma_pow2_adds(64, 22);
}

/// The parts of the `f64` scaling (see `scaled_edge`) for `1 <= max <
/// longest`: the quotient `q / 2^k` is within half a unit of
/// `max / longest`, and the product `m` within `2^-53` of `edge * q`.
proof fn lemma_scaled_parts(edge: int, max: int, longest: int)
    requires
        0 <= edge <= longest <= 0xffff_ffff,
        1 <= max < longest,
    ensures
        ({
            let k = ratio_exp(max, longest, 0);
            let p = pow2(k as nat) as int;
            let q = round_even(max * p, longest);
            let x = edge * q;
            let u = pow2(excess_bits(x, 0) as nat) as int;
            let m = round_even(x, u) * u;
            &&& 1 <= k <= 84
            &&& p == pow2(k as nat)
            &&& pow2(52) * longest <= max * p < pow2(53) * longest
            &&& longest < p
            &&& 2 * (q * longest) <= 2 * (max * p) + longest
            &&& 2 * (q * longest) + longest >= 2 * (max * p)
            &&& 0 <= q < p
            &&& 0 <= x < pow2(86)
            &&& m >= 0
            &&& pow2(53) * (m - x) <= x
            &&& pow2(53) * (x - m) <= x
        }),
{
    lemma_pow2_facts();
    vstd::arithmetic::power2::lemma2_to64();
    assert(max * pow2(0) < pow2(52) * longest) by (nonlinear_arith)
        requires
            pow2(0) == 1,
            pow2(52) == 0x10_0000_0000_0000,
            1 <= max < longest,
    ;
    lemma_ratio_exp(max, longest, 0);
    let k = ratio_exp(max, longest, 0);
    let p = pow2(k as nat) as int;
    vstd::arithmetic::power2::lemma_pow2_unfold(k as nat);
    let pk1 = pow2((k - 1) as nat) as int;
    assert(max * p == 2 * (max * pk1)) by (nonlinear_arith)
        requires
            p == 2 * pk1,
    ;
    assert(longest < p) by (nonlinear_arith)
        requires
            pow2(52) * longest <= max * p,
            pow2(52) == 0x10_0000_0000_0000,
            1 <= max <= 0xffff_ffff,
            0 < longest,
            p > 0,
    ;
    let mp = max * p;
    let q = round_even(mp, longest);
    lemma_round_even(mp, longest);
    assert(q * longest == longest * q) by (nonlinear_arith);
    assert(q <= pow2(53)) by (nonlinear_arith)
        requires
            2 * (q * longest - mp) <= longest,
            mp < pow2(53) * longest,
            longest > 0,
    ;
    assert(q < p) by (nonlinear_arith)
        requires
            2 * (q * longest - mp) <= longest,
            mp == max * p,
            max <= longest - 1,
            longest < p,
            longest > 0,
    ;
    let x = edge * q;
    assert(0 <= x <= 0xffff_ffff * pow2(53)) by (nonlinear_arith)
        requires
            0 <= edge <= 0xffff_ffff,
            0 <= q <= pow2(53),
            x == edge * q,
    ;
    lemma_excess_bits(x, 0);
    let s = excess_bits(x, 0);
    let u = pow2(s as nat) as int;
    vstd::arithmetic::power2::lemma_pow2_pos(s as nat);
    lemma_round_even(x, u);
    let m = round_even(x, u) * u;
    if s > 0 {
        vstd::arithmetic::power2::lemma_pow2_adds(52, s as nat);
        assert(pow2(52) * u <= x);
        assert(pow2(53) * (m - x) <= x && pow2(53) * (x - m) <= x) by (nonlinear_arith)
            requires
                2 * (m - x) <= u,
                2 * (x - m) <= u,
                pow2(52) * u <= x,
                pow2(53) == 2 * pow2(52),
        ;
    } else {
        assert(u == 1) by {
            vstd::arithmetic::power2::lemma2_to64();
        }
    }
    assert(m >= 0) by (nonlinear_arith)
        requires
            round_even(x, u) >= 0,
            u > 0,
            m == round_even(x, u) * u,
    ;
}

/// One scaled edge is at most the original edge and at most `max`; the
/// longest edge scales to exactly `max`.
proof fn lemma_scaled_edge_bounds(edge: int, max: int, longest: int)
    requires
        1 <= edge <= longest <= 0xffff_ffff,
        1 <= max < longest,
    ensures
        scaled_edge(edge, max, longest) <= edge,
        scaled_edge(edge, max, longest) <= max,
        scaled_edge(longest, max, longest) == max,
{
    lemma_scaled_below(edge, max, longest);
    lemma_scaled_longest(max, longest);
}

/// The `f64` scaling never exceeds `max` nor the edge itself.
proof fn lemma_scaled_below(edge: int, max: int, longest: int)
    requires
        0 <= edge <= longest <= 0xffff_ffff,
        1 <= max < longest,
    ensures
        1 <= scaled_edge(edge, max, longest) <= max,
        edge >= 1 ==> scaled_edge(edge, max, longest) <= edge,
{
    lemma_scaled_parts(edge, max, longest);
    lemma_pow2_facts();
    let k = ratio_exp(max, longest, 0);
    let p = pow2(k as nat) as int;
    let q = round_even(max * p, longest);
    let x = edge * q;
    let u = pow2(excess_bits(x, 0) as nat) as int;
    let m = round_even(x, u) * u;
    let mp = max * p;
    let lq = q * longest;
    let ep = edge * p;
    assert(mp < 0x1_0000_0000 * p) by (nonlinear_arith)
        requires
            mp == max * p,
            max <= 0xffff_ffff,
            p > 0,
    ;
    assert(ep < 0x1_0000_0000 * p) by (nonlinear_arith)
        requires
            ep == edge * p,
            edge <= 0xffff_ffff,
            p > 0,
    ;
    assert(x <= lq) by (nonlinear_arith)
        requires
            x == edge * q,
            lq == q * longest,
            0 <= edge <= longest,
            q >= 0,
    ;
    assert(x <= ep - edge) by (nonlinear_arith)
        requires
            x == edge * q,
            ep == edge * p,
            edge >= 0,
            q <= p - 1,
    ;
    assert(2 * m < 2 * mp + p);
    assert(2 * m < 2 * ep + p);
    let v = (2 * m + p) / (2 * p);
    assert(2 * p * (max + 1) == 2 * mp + 2 * p) by (nonlinear_arith)
        requires
            mp == max * p,
    ;
    assert(v <= max) by (nonlinear_arith)
        requires
            2 * m + p < 2 * p * (max + 1),
            p > 0,
            m >= 0,
            v == (2 * m + p) / (2 * p),
    ;
    assert(v <= edge) by (nonlinear_arith)
        requires
            2 * m + p < 2 * ep + 2 * p,
            p > 0,
            m >= 0,
            ep == edge * p,
            v == (2 * m + p) / (2 * p),
    ;
}

/// The longest edge scales to exactly `max`.
proof fn lemma_scaled_longest(max: int, longest: int)
    requires
        1 <= max < longest <= 0xffff_ffff,
    ensures
        scaled_edge(longest, max, longest) == max,
{
    lemma_scaled_below(longest, max, longest);
    lemma_scaled_parts(longest, max, longest);
    lemma_pow2_facts();
    let k = ratio_exp(max, longest, 0);
    let p = pow2(k as nat) as int;
    let q = round_even(max * p, longest);
    let x = longest * q;
    let u = pow2(excess_bits(x, 0) as nat) as int;
    let m = round_even(x, u) * u;
    let mp = max * p;
    assert(mp < 0x1_0000_0000 * p) by (nonlinear_arith)
        requires
            mp == max * p,
            max <= 0xffff_ffff,
            p > 0,
    ;
    assert(x == q * longest) by (nonlinear_arith)
        requires
            x == longest * q,
    ;
    assert(2 * m + p >= 2 * mp);
    let v = (2 * m + p) / (2 * p);
    assert(2 * p * max == 2 * mp) by (nonlinear_arith)
        requires
            mp == max * p,
    ;
    assert(v >= max) by (nonlinear_arith)
        requires
            2 * m + p >= 2 * p * max,
            mp == max * p,
            p > 0,
            v == (2 * m + p) / (2 * p),
    ;
}

/// `n / d` rounded to the nearest integer, ties to even.
fn round_even_exec(n: u128, d: u128) -> (r: u128)
    requires
        0 < d < 0x1_0000_0000_0000_0000_0000_0000,
        n < 0x1_0000_0000_0000_0000_0000_0000,
    ensures
        r == round_even(n as int, d as int),
{
    let q = n / d;
    let r = n % d;
    if 2 * r < d {
        q
    } else if 2 * r > d {
        q + 1
    } else if q % 2 == 0 {
        q
    } else {
        q + 1
    }
}

fn scale_edge(edge: u32, max: u32, longest: u32) -> (r: u32)
    requires
        0 < longest,
        edge <= longest,
        max < longest,
    ensures
        r == scaled_edge(edge as int, max as int, longest as int),
        1 <= r <= max || (max == 0 && r == 1),
{
    if max == 0 {
        return 1;
    }
    proof {
        lemma_scaled_parts(edge as int, max as int, longest as int);
        lemma_scaled_below(edge as int, max as int, longest as int);
        lemma_pow2_facts();
        vstd::arithmetic::power2::lemma2_to64();
    }
    let ghost kk = ratio_exp(max as int, longest as int, 0);
    let l = longest as u128;
    let bound: u128 = l * 0x10_0000_0000_0000;
    let mut k: u32 = 0;
    let mut p: u128 = 1;
    let mut mp: u128 = max as u128;
    while mp < bound
        invariant
            1 <= max < longest,
            l == longest,
            bound == pow2(52) * longest,
            bound < pow2(84),
            pow2(84) == 0x10_0000_0000_0000_0000_0000,
            0 <= k <= kk,
            1 <= kk <= 84,
            p == pow2(k as nat),
            mp == max * p,
            1 <= p <= mp,
            ratio_exp(max as int, longest as int, k as int) == kk,
            pow2(52) * longest <= max * pow2(kk as nat),
        decreases kk - k,
    {
        proof {
            if k == kk {
                assert(false);
            }
            vstd::arithmetic::power2::lemma_pow2_unfold((k + 1) as nat);
            assert(ratio_exp(max as int, longest as int, k as int) == ratio_exp(
                max as int,
                longest as int,
                k + 1,
            ));
            assert(mp * 2 == max * (p * 2)) by (nonlinear_arith)
                requires
                    mp == max * p,
            ;
        }
        p = p * 2;
        mp = mp * 2;
        k = k + 1;
    }
    assert(k == kk);
    let q = round_even_exec(mp, l);
    let x = (edge as u128) * q;
    proof {
        lemma_excess_bits(x as int, 0);
    }
    let ghost ss = excess_bits(x as int, 0);
    let mut s: u32 = 0;
    let mut unit: u128 = 1;
    let mut top: u128 = 0x20_0000_0000_0000;
    while x >= top
        invariant
            0 <= s <= ss,
            ss <= 33,
            unit == pow2(s as nat),
            top == pow2((53 + s) as nat),
            unit * 0x20_0000_0000_0000 == top,
            excess_bits(x as int, s as int) == ss,
            x < pow2((53 + ss) as nat),
            x < pow2(86),
            pow2(86) == 0x40_0000_0000_0000_0000_0000,
        decreases ss - s,
    {
        proof {
            if s == ss {
                assert(false);
            }
            assert(excess_bits(x as int, s as int) == excess_bits(x as int, s + 1));
            vstd::arithmetic::power2::lemma_pow2_unfold((s + 1) as nat);
            vstd::arithmetic::power2::lemma_pow2_unfold((54 + s) as nat);
        }
        unit = unit * 2;
        top = top * 2;
        s = s + 1;
    }
    assert(s == ss);
    proof {
        lemma_round_even(x as int, unit as int);
    }
    let m = round_even_exec(x, unit) * unit;
    let v = (2 * m + p) / (2 * p);
    if v < 1 {
        1
    } else if v > 0xffff_ffff {
        0xffff_ffff
    } else {
        v as u32
    }
}

/// `fit` never upscales: an image that already fits keeps its size, and a
/// larger one gets exactly `max` on its longest edge while the other edge
/// shrinks with it.
pub proof fn lemma_fit_never_upscales(width: u32, height: u32, max: u32)
    requires
        width >= 1,
        height >= 1,
        max >= 1,
    ensures
        fitted(width, height, max).0 <= width,
        fitted(width, height, max).1 <= height,
        (width <= max && height <= max) ==> fitted(width, height, max) == (width, height),
        (width > max || height > max) ==> if width >= height {
            fitted(width, height, max).0 == max && fitted(width, height, max).1 <= max
        } else {
            fitted(width, height, max).1 == max && fitted(width, height, max).0 <= max
        },
{
    let longest = if width >= height {
        width
    } else {
        height
    };
    if longest > max {
        lemma_scaled_edge_bounds(width as int, max as int, longest as int);
        lemma_scaled_edge_bounds(height as int, max as int, longest as int);
    }
}

/// Largest box that fits `max` on its longest edge, preserving aspect ratio.
/// Never upscales.
pub fn fit(width: u32, height: u32, max: u32) -> (r: (u32, u32))
    ensures
        r == fitted(width, height, max),
{
    let longest = if width >= height {
        width
    } else {
        height
    };
    if longest == 0 || longest <= max {
        return (width, height);
    }
    (scale_edge(width, max, longest), scale_edge(height, max, longest))
}


// ---------------------------------------------------------------------------
// Median cut
// ---------------------------------------------------------------------------

/// Value of channel `ch` of a pixel.
pub open spec fn chan(p: [u8; 3], ch: int) -> int {
    p@[ch] as int
}

/// Smallest value of channel `ch` (255 for no pixels).
pub open spec fn ch_min(s: Seq<[u8; 3]>, ch: int) -> int
    decreases s.len(),
{
    if s.len() == 0 {
        255
    } else {
        let m = ch_min(s.drop_last(), ch);
        if chan(s.last(), ch) < m {
            chan(s.last(), ch)
        } else {
            m
        }
    }
}

/// Largest value of channel `ch` (0 for no pixels).
pub open spec fn ch_max(s: Seq<[u8; 3]>, ch: int) -> int
    decreases s.len(),
{
    if s.len() == 0 {
        0
    } else {
        let m = ch_max(s.drop_last(), ch);
        if chan(s.last(), ch) > m {
            chan(s.last(), ch)
        } else {
            m
        }
    }
}

/// Range of channel `ch` (`max - min`, saturating at 0).
pub open spec fn spread(s: Seq<[u8; 3]>, ch: int) -> int {
    if ch_max(s, ch) > ch_min(s, ch) {
        ch_max(s, ch) - ch_min(s, ch)
    } else {
        0
    }
}

/// The widest channel of a pixel run and its range; the first channel wins
/// a tie, channel 0 when all ranges are 0.
pub open spec fn widest(s: Seq<[u8; 3]>) -> (int, int) {
    let a = if spread(s, 0) > 0 {
        (0int, spread(s, 0))
    } else {
        (0int, 0int)
    };
    let b = if spread(s, 1) > a.1 {
        (1int, spread(s, 1))
    } else {
        a
    };
    if spread(s, 2) > b.1 {
        (2int, spread(s, 2))
    } else {
        b
    }
}

/// Every pixel of the run is the same color.
pub open spec fn uniform(s: Seq<[u8; 3]>) -> bool {
    forall|i: int, j: int| 0 <= i < s.len() && 0 <= j < s.len() ==> s[i] == s[j]
}

/// Sum of channel `ch`.
pub open spec fn ch_sum(s: Seq<[u8; 3]>, ch: int) -> int
    decreases s.len(),
{
    if s.len() == 0 {
        0
    } else {
        ch_sum(s.drop_last(), ch) + chan(s.last(), ch)
    }
}

/// Mean of channel `ch`, rounded half up.
pub open spec fn ch_mean(s: Seq<[u8; 3]>, ch: int) -> int {
    let n = s.len() as int;
    let m = (2 * ch_sum(s, ch) + n) / (2 * n);
    if m > 255 {
        255
    } else {
        m
    }
}

/// A bucket's `(mean color, pixel count)`.
pub open spec fn summary(s: Seq<[u8; 3]>) -> ([u8; 3], usize) {
    ([ch_mean(s, 0) as u8, ch_mean(s, 1) as u8, ch_mean(s, 2) as u8], s.len() as usize)
}

proof fn lemma_ch_bounds(s: Seq<[u8; 3]>, ch: int)
    requires
        0 <= ch < 3,
    ensures
        forall|i: int| 0 <= i < s.len() ==> ch_min(s, ch) <= chan(#[trigger] s[i], ch) <= ch_max(s, ch),
        s.len() > 0 ==> exists|i: int| 0 <= i < s.len() && chan(#[trigger] s[i], ch) == ch_min(s, ch),
        s.len() > 0 ==> exists|i: int| 0 <= i < s.len() && chan(#[trigger] s[i], ch) == ch_max(s, ch),
        0 <= ch_sum(s, ch) <= 255 * s.len(),
    decreases s.len(),
{
    if s.len() > 0 {
        let t = s.drop_last();
        lemma_ch_bounds(t, ch);
        assert forall|i: int| 0 <= i < s.len() implies ch_min(s, ch) <= chan(#[trigger] s[i], ch)
            <= ch_max(s, ch) by {
            if i < t.len() {
                assert(s[i] == t[i]);
            }
        }
        if t.len() > 0 {
            let a = choose|i: int| 0 <= i < t.len() && chan(#[trigger] t[i], ch) == ch_min(t, ch);
            let b = choose|i: int| 0 <= i < t.len() && chan(#[trigger] t[i], ch) == ch_max(t, ch);
            assert(s[a] == t[a] && s[b] == t[b]);
            let l = s.len() - 1;
            assert(s[l] == s.last());
            if chan(s.last(), ch) < ch_min(t, ch) {
                assert(chan(s[l], ch) == ch_min(s, ch));
            } else {
                assert(chan(s[a], ch) == ch_min(s, ch));
            }
            if chan(s.last(), ch) > ch_max(t, ch) {
                assert(chan(s[l], ch) == ch_max(s, ch));
            } else {
                assert(chan(s[b], ch) == ch_max(s, ch));
            }
        } else {
            assert(s[0] == s.last());
            assert(chan(s[0], ch) == ch_min(s, ch));
            assert(chan(s[0], ch) == ch_max(s, ch));
        }
    }
}

/// A run with no spread on any channel is one color.
proof fn lemma_flat_is_uniform(s: Seq<[u8; 3]>)
    requires
        widest(s).1 == 0,
    ensures
        uniform(s),
{
    lemma_ch_bounds(s, 0);
    lemma_ch_bounds(s, 1);
    lemma_ch_bounds(s, 2);
    assert forall|i: int, j: int| 0 <= i < s.len() && 0 <= j < s.len() implies s[i] == s[j] by {
        assert(chan(s[i], 0) == chan(s[j], 0));
        assert(chan(s[i], 1) == chan(s[j], 1));
        assert(chan(s[i], 2) == chan(s[j], 2));
        assert(s[i]@ =~= s[j]@);
    }
}

/// A one-color run has no spread on any channel.
proof fn lemma_uniform_is_flat(s: Seq<[u8; 3]>)
    requires
        uniform(s),
        s.len() > 0,
    ensures
        widest(s).1 == 0,
{
    lemma_ch_bounds(s, 0);
    lemma_ch_bounds(s, 1);
    lemma_ch_bounds(s, 2);
    assert forall|ch: int| 0 <= ch < 3 implies spread(s, ch) == 0 by {
        let a = choose|i: int| 0 <= i < s.len() && chan(#[trigger] s[i], ch) == ch_min(s, ch);
        let b = choose|i: int| 0 <= i < s.len() && chan(#[trigger] s[i], ch) == ch_max(s, ch);
        assert(s[a] == s[b]);
    }
    assert(spread(s, 0) == 0 && spread(s, 1) == 0 && spread(s, 2) == 0);
}

proof fn lemma_uniform_sum(s: Seq<[u8; 3]>, ch: int)
    requires
        uniform(s),
        s.len() > 0,
    ensures
        ch_sum(s, ch) == s.len() * chan(s[0], ch),
    decreases s.len(),
{
    if s.len() > 1 {
        let t = s.drop_last();
        assert(uniform(t)) by {
            assert forall|i: int, j: int| 0 <= i < t.len() && 0 <= j < t.len() implies t[i] == t[j] by {
                assert(t[i] == s[i] && t[j] == s[j]);
            }
        }
        lemma_uniform_sum(t, ch);
        assert(t[0] == s[0]);
        assert(s.last() == s[0]);
        let v = chan(s[0], ch);
        let m = t.len() as int;
        assert(m * v + v == (m + 1) * v) by (nonlinear_arith);
        assert(ch_sum(s, ch) == ch_sum(t, ch) + v);
    } else {
        assert(s.drop_last() =~= Seq::<[u8; 3]>::empty());
        assert(s.last() == s[0]);
        assert(ch_sum(Seq::<[u8; 3]>::empty(), ch) == 0);
        let v = chan(s[0], ch);
        assert(ch_sum(s, ch) == v);
        assert(1 * v == v);
    }
}

/// A one-color run summarises to that color and its length.
proof fn lemma_uniform_summary(s: Seq<[u8; 3]>)
    requires
        uniform(s),
        0 < s.len() <= usize::MAX,
    ensures
        summary(s) == (s[0], s.len() as usize),
{
    let n = s.len() as int;
    assert forall|ch: int| 0 <= ch < 3 implies ch_mean(s, ch) == chan(s[0], ch) by {
        lemma_uniform_sum(s, ch);
        let v = chan(s[0], ch);
        assert(0 <= v <= 255);
        assert((2 * (n * v) + n) / (2 * n) == v) by (nonlinear_arith)
            requires
                n > 0,
                0 <= v,
        ;
    }
    let c = summary(s).0;
    assert(c@[0] == s[0]@[0] && c@[1] == s[0]@[1] && c@[2] == s[0]@[2]);
    assert(c@ =~= s[0]@);
    assert(c == s[0]);
}

/// One contiguous run of the samples, with its widest channel cached.
struct Bucket {
    start: usize,
    end: usize,
    channel: usize,
    spread: u8,
}

/// A bucket whose cached channel and spread describe `s[start..end]`.
spec fn bucket_ok(b: Bucket, s: Seq<[u8; 3]>) -> bool {
    &&& b.start < b.end <= s.len()
    &&& b.channel < 3
    &&& widest(s.subrange(b.start as int, b.end as int)) == (b.channel as int, b.spread as int)
}

spec fn disjoint(a: Bucket, b: Bucket) -> bool {
    a.end <= b.start || b.end <= a.start
}

spec fn bucket_len(b: Bucket) -> int {
    b.end - b.start
}

spec fn total_len(bs: Seq<Bucket>) -> int
    decreases bs.len(),
{
    if bs.len() == 0 {
        0
    } else {
        total_len(bs.drop_last()) + bucket_len(bs.last())
    }
}

proof fn lemma_total_len_update(bs: Seq<Bucket>, i: int, x: Bucket)
    requires
        0 <= i < bs.len(),
    ensures
        total_len(bs.update(i, x)) == total_len(bs) - bucket_len(bs[i]) + bucket_len(x),
    decreases bs.len(),
{
    if i < bs.len() - 1 {
        lemma_total_len_update(bs.drop_last(), i, x);
        assert(bs.update(i, x).drop_last() =~= bs.drop_last().update(i, x));
    } else {
        assert(bs.update(i, x).drop_last() =~= bs.drop_last());
    }
}

/// A lone bucket whose length is the whole sample count covers it all.
proof fn lemma_single_bucket_covers(bs: Seq<Bucket>, len: int)
    requires
        bs.len() == 1,
        total_len(bs) == len,
        bs[0].end <= len,
    ensures
        bs[0].start == 0 && bs[0].end == len,
{
    assert(bs.drop_last() =~= Seq::<Bucket>::empty());
    assert(bs.last() == bs[0]);
    assert(total_len(Seq::<Bucket>::empty()) == 0);
}

impl Bucket {
    /// The bucket over `samples[start..end]`.
    fn new(samples: &Vec<[u8; 3]>, start: usize, end: usize) -> (b: Bucket)
        requires
            start < end <= samples.len(),
        ensures
            b.start == start && b.end == end,
            bucket_ok(b, samples@),
    {
        let ghost run = samples@.subrange(start as int, end as int);
        let mut channel: usize = 0;
        let mut best: u8 = 0;
        let mut axis: usize = 0;
        while axis < 3
            invariant
                axis <= 3,
                start < end <= samples.len(),
                run == samples@.subrange(start as int, end as int),
                channel < 3,
                axis == 0 ==> (channel == 0 && best == 0),
                axis == 1 ==> (channel as int, best as int) == (if spread(run, 0) > 0 {
                    (0int, spread(run, 0))
                } else {
                    (0int, 0int)
                }),
                axis == 2 ==> (channel as int, best as int) == (if spread(run, 1) > (if spread(
                    run,
                    0,
                ) > 0 {
                    (0int, spread(run, 0))
                } else {
                    (0int, 0int)
                }).1 {
                    (1int, spread(run, 1))
                } else {
                    (if spread(run, 0) > 0 {
                        (0int, spread(run, 0))
                    } else {
                        (0int, 0int)
                    })
                }),
                axis == 3 ==> (channel as int, best as int) == widest(run),
            decreases 3 - axis,
        {
            let mut lo: u8 = 255;
            let mut hi: u8 = 0;
            let mut k: usize = start;
            while k < end
                invariant
                    start <= k <= end,
                    end <= samples.len(),
                    axis < 3,
                    run == samples@.subrange(start as int, end as int),
                    lo == ch_min(samples@.subrange(start as int, k as int), axis as int),
                    hi == ch_max(samples@.subrange(start as int, k as int), axis as int),
                decreases end - k,
            {
                let ghost pre = samples@.subrange(start as int, k as int);
                assert(samples@.subrange(start as int, k + 1).drop_last() =~= pre);
                let v = samples[k][axis];
                if v < lo {
                    lo = v;
                }
                if v > hi {
                    hi = v;
                }
                k = k + 1;
            }
            assert(samples@.subrange(start as int, end as int) =~= run);
            let range: u8 = if hi > lo {
                hi - lo
            } else {
                0
            };
            if range > best {
                best = range;
                channel = axis;
            }
            axis = axis + 1;
        }
        Bucket { start, end, channel, spread: best }
    }

    fn splittable(&self) -> (b: bool)
        ensures
            b == (self.end - self.start > 1 && self.spread > 0),
    {
        self.end > self.start && self.end - self.start > 1 && self.spread > 0
    }
}

/// `std`'s `sort_unstable_by_key` on `v[start..end]`, keyed by channel
/// `channel`: claims the run ends up ordered by that channel, holding the same
/// pixels as before, and that everything outside the run is untouched.
#[verifier::external_body]
fn sort_run_by_channel(v: &mut Vec<[u8; 3]>, start: usize, end: usize, channel: usize)
    requires
        start <= end <= old(v).len(),
        channel < 3,
    ensures
        final(v)@.len() == old(v)@.len(),
        forall|k: int|
            0 <= k < old(v)@.len() && !(start <= k < end) ==> final(v)@[k] == old(v)@[k],
        final(v)@.subrange(start as int, end as int).to_multiset() == old(v)@.subrange(
            start as int,
            end as int,
        ).to_multiset(),
        forall|i: int, j: int|
            start <= i <= j < end ==> chan(final(v)@[i], channel as int) <= chan(
                final(v)@[j],
                channel as int,
            ),
{
    v[start..end].sort_unstable_by_key(|pixel| pixel[channel]);
}

/// No color has pixels in two different buckets.
spec fn buckets_separated(s: Seq<[u8; 3]>, bs: Seq<Bucket>) -> bool {
    forall|i: int, j: int, a: int, b: int|
        #![trigger bs[i], bs[j], s[a], s[b]]
        0 <= i < bs.len() && 0 <= j < bs.len() && i != j && bs[i].start <= a < bs[i].end
            && bs[j].start <= b < bs[j].end ==> s[a] != s[b]
}

/// Splitting a bucket at a value change of the channel its run was sorted
/// by keeps every color within one bucket.
proof fn lemma_split_keeps_separated(
    before: Seq<[u8; 3]>,
    after: Seq<[u8; 3]>,
    bs: Seq<Bucket>,
    index: int,
    middle: int,
    channel: int,
    left: Bucket,
    right: Bucket,
)
    requires
        buckets_separated(before, bs),
        0 <= index < bs.len(),
        forall|i: int| 0 <= i < bs.len() ==> (#[trigger] bs[i]).start < bs[i].end <= before.len(),
        forall|i: int, j: int|
            0 <= i < bs.len() && 0 <= j < bs.len() && i != j ==> disjoint(
                #[trigger] bs[i],
                #[trigger] bs[j],
            ),
        after.len() == before.len(),
        forall|k: int|
            0 <= k < before.len() && !(bs[index].start <= k < bs[index].end) ==> after[k]
                == before[k],
        after.subrange(bs[index].start as int, bs[index].end as int).to_multiset()
            == before.subrange(bs[index].start as int, bs[index].end as int).to_multiset(),
        forall|i: int, j: int|
            bs[index].start <= i <= j < bs[index].end ==> chan(after[i], channel) <= chan(
                after[j],
                channel,
            ),
        bs[index].start < middle < bs[index].end,
        chan(after[middle - 1], channel) != chan(after[middle], channel),
        left.start == bs[index].start && left.end == middle,
        right.start == middle && right.end == bs[index].end,
    ensures
        buckets_separated(after, bs.update(index, left).push(right)),
{
    let nb = bs.update(index, left).push(right);
    let start = bs[index].start as int;
    let end = bs[index].end as int;
    let old_run = before.subrange(start, end);
    let new_run = after.subrange(start, end);
    assert forall|i: int, j: int, a: int, b: int|
        #![trigger nb[i], nb[j], after[a], after[b]]
        0 <= i < nb.len() && 0 <= j < nb.len() && i != j && nb[i].start <= a < nb[i].end
            && nb[j].start <= b < nb[j].end implies after[a] != after[b] by {
        let half_i = i == index || i == bs.len();
        let half_j = j == index || j == bs.len();
        if half_i && half_j {
            let (lo, hi) = if a < b {
                (a, b)
            } else {
                (b, a)
            };
            assert(lo < middle <= hi);
            assert(chan(after[lo], channel) <= chan(after[middle - 1], channel));
            assert(chan(after[middle], channel) <= chan(after[hi], channel));
            assert(chan(after[middle - 1], channel) <= chan(after[middle], channel));
        } else if half_i {
            assert(nb[j] == bs[j]);
            assert(disjoint(bs[j], bs[index]));
            assert(after[b] == before[b]);
            let x = after[a];
            assert(new_run[a - start] == x);
            vstd::seq_lib::to_multiset_contains(new_run, x);
            vstd::seq_lib::to_multiset_contains(old_run, x);
            let k = choose|k: int| 0 <= k < old_run.len() && old_run[k] == x;
            assert(before[start + k] == x);
            assert(before[start + k] != before[b]);
        } else if half_j {
            assert(nb[i] == bs[i]);
            assert(disjoint(bs[i], bs[index]));
            assert(after[a] == before[a]);
            let x = after[b];
            assert(new_run[b - start] == x);
            vstd::seq_lib::to_multiset_contains(new_run, x);
            vstd::seq_lib::to_multiset_contains(old_run, x);
            let k = choose|k: int| 0 <= k < old_run.len() && old_run[k] == x;
            assert(before[start + k] == x);
            assert(before[a] != before[start + k]);
        } else {
            assert(nb[i] == bs[i] && nb[j] == bs[j]);
            assert(disjoint(bs[i], bs[index]) && disjoint(bs[j], bs[index]));
            assert(after[a] == before[a] && after[b] == before[b]);
        }
    }
}

/// Channel `ch` changes between `s[j - 1]` and `s[j]`.
pub open spec fn is_boundary(s: Seq<[u8; 3]>, ch: int, j: int) -> bool {
    chan(s[j - 1], ch) != chan(s[j], ch)
}

pub open spec fn dist(a: int, b: int) -> int {
    if a >= b {
        a - b
    } else {
        b - a
    }
}

/// Index (relative to `start`) of the value-change boundary on `channel`
/// closest to the middle of `samples[start..end]`; on a tie the later one.
fn boundary_near_median(samples: &Vec<[u8; 3]>, start: usize, end: usize, channel: usize) -> (r:
    usize)
    requires
        start < end <= samples.len(),
        channel < 3,
        exists|j: int|
            1 <= j < end - start && is_boundary(
                samples@.subrange(start as int, end as int),
                channel as int,
                j,
            ),
    ensures
        ({
            let s = samples@.subrange(start as int, end as int);
            let med = (end - start) / 2;
            &&& 1 <= r < s.len()
            &&& is_boundary(s, channel as int, r as int)
            &&& forall|j: int|
                1 <= j < s.len() && dist(j, med) < dist(r as int, med) ==> !is_boundary(
                    s,
                    channel as int,
                    j,
                )
            &&& (r < med && med + (med - r) < s.len()) ==> !is_boundary(
                s,
                channel as int,
                med + (med - r),
            )
        }),
{
    let ghost s = samples@.subrange(start as int, end as int);
    let len = end - start;
    let median = len / 2;
    let mut offset: usize = 0;
    while offset < len
        invariant
            len == end - start,
            start < end <= samples.len(),
            channel < 3,
            s == samples@.subrange(start as int, end as int),
            median == len / 2,
            offset <= len,
            forall|j: int|
                1 <= j < len && dist(j, median as int) < offset ==> !is_boundary(s, channel as int, j),
        decreases len - offset,
    {
        if offset < len - median {
            let j = median + offset;
            if j >= 1 {
                assert(s[j - 1] == samples@[start + j - 1] && s[j as int] == samples@[start + j]);
                if samples[start + j - 1][channel] != samples[start + j][channel] {
                    return j;
                }
            }
        }
        if median >= offset + 1 {
            let j = median - offset;
            assert(s[j - 1] == samples@[start + j - 1] && s[j as int] == samples@[start + j]);
            if samples[start + j - 1][channel] != samples[start + j][channel] {
                return j;
            }
        }
        offset = offset + 1;
    }
    proof {
        let w = choose|j: int| 1 <= j < end - start && is_boundary(s, channel as int, j);
        assert(dist(w, median as int) < len);
    }
    median
}


/// In a run sorted on channel `ch`, two pixels that differ on `ch` force a
/// value-change boundary.
proof fn lemma_boundary_exists(s: Seq<[u8; 3]>, ch: int, lo: int, hi: int)
    requires
        0 <= lo < hi < s.len(),
        chan(s[lo], ch) != chan(s[hi], ch),
    ensures
        exists|j: int| 1 <= j < s.len() && is_boundary(s, ch, j),
    decreases hi - lo,
{
    if chan(s[hi - 1], ch) != chan(s[hi], ch) {
        assert(is_boundary(s, ch, hi));
    } else {
        lemma_boundary_exists(s, ch, lo, hi - 1);
    }
}

/// Rewriting `v[start..end]` with the same pixels keeps the whole multiset.
proof fn lemma_run_permuted(v: Seq<[u8; 3]>, w: Seq<[u8; 3]>, start: int, end: int)
    requires
        0 <= start <= end <= v.len(),
        w.len() == v.len(),
        forall|k: int| 0 <= k < v.len() && !(start <= k < end) ==> w[k] == v[k],
        w.subrange(start, end).to_multiset() == v.subrange(start, end).to_multiset(),
    ensures
        w.to_multiset() == v.to_multiset(),
{
    let n = v.len() as int;
    assert(v =~= v.subrange(0, start) + v.subrange(start, end) + v.subrange(end, n));
    assert(w =~= w.subrange(0, start) + w.subrange(start, end) + w.subrange(end, n));
    assert(w.subrange(0, start) =~= v.subrange(0, start));
    assert(w.subrange(end, n) =~= v.subrange(end, n));
    vstd::seq_lib::lemma_multiset_commutative(
        v.subrange(0, start) + v.subrange(start, end),
        v.subrange(end, n),
    );
    vstd::seq_lib::lemma_multiset_commutative(v.subrange(0, start), v.subrange(start, end));
    vstd::seq_lib::lemma_multiset_commutative(
        w.subrange(0, start) + w.subrange(start, end),
        w.subrange(end, n),
    );
    vstd::seq_lib::lemma_multiset_commutative(w.subrange(0, start), w.subrange(start, end));
}

/// A run that is spread on its widest channel still holds two pixels that
/// differ on that channel after being reordered and sorted on it, so it has a
/// value-change boundary.
proof fn lemma_sorted_spread_has_boundary(
    old_run: Seq<[u8; 3]>,
    new_run: Seq<[u8; 3]>,
    ch: int,
)
    requires
        0 <= ch < 3,
        spread(old_run, ch) > 0,
        new_run.to_multiset() == old_run.to_multiset(),
        forall|i: int, j: int|
            0 <= i <= j < new_run.len() ==> chan(new_run[i], ch) <= chan(new_run[j], ch),
    ensures
        exists|j: int| 1 <= j < new_run.len() && is_boundary(new_run, ch, j),
{
    lemma_ch_bounds(old_run, ch);
    let a = choose|i: int| 0 <= i < old_run.len() && chan(#[trigger] old_run[i], ch) == ch_min(old_run, ch);
    let b = choose|i: int| 0 <= i < old_run.len() && chan(#[trigger] old_run[i], ch) == ch_max(old_run, ch);
    let pa = old_run[a];
    let pb = old_run[b];
    assert(old_run.contains(pa));
    assert(old_run.contains(pb));
    vstd::seq_lib::to_multiset_contains(old_run, pa);
    vstd::seq_lib::to_multiset_contains(old_run, pb);
    vstd::seq_lib::to_multiset_contains(new_run, pa);
    vstd::seq_lib::to_multiset_contains(new_run, pb);
    let ia = choose|i: int| 0 <= i < new_run.len() && new_run[i] == pa;
    let ib = choose|i: int| 0 <= i < new_run.len() && new_run[i] == pb;
    let last = new_run.len() - 1;
    assert(chan(new_run[0], ch) <= chan(new_run[ia], ch));
    assert(chan(new_run[ib], ch) <= chan(new_run[last], ch));
    lemma_boundary_exists(new_run, ch, 0, last);
}

/// Sum of the pixel counts of a list of buckets.
pub open spec fn count_total(r: Seq<([u8; 3], usize)>) -> int
    decreases r.len(),
{
    if r.len() == 0 {
        0
    } else {
        count_total(r.drop_last()) + r.last().1
    }
}

/// The buckets `r` describe disjoint runs `bounds` of the reordered samples
/// `s`, each by its mean color and pixel count; no color has pixels in two
/// runs; and when fewer than `target` buckets came out, every run is a
/// single color.
pub open spec fn cut_witness(
    s: Seq<[u8; 3]>,
    target: int,
    r: Seq<([u8; 3], usize)>,
    bounds: Seq<(int, int)>,
) -> bool {
    &&& bounds.len() == r.len()
    &&& forall|i: int|
        0 <= i < bounds.len() ==> 0 <= (#[trigger] bounds[i]).0 < bounds[i].1 <= s.len() && r[i]
            == summary(s.subrange(bounds[i].0, bounds[i].1))
    &&& forall|i: int, j: int|
        0 <= i < bounds.len() && 0 <= j < bounds.len() && i != j ==> (#[trigger] bounds[i]).1
            <= (#[trigger] bounds[j]).0 || bounds[j].1 <= bounds[i].0
    &&& r.len() < target ==> forall|i: int|
        0 <= i < bounds.len() ==> uniform(s.subrange((#[trigger] bounds[i]).0, bounds[i].1))
    &&& colors_separated(s, bounds)
}

/// No color has pixels in two different runs.
pub open spec fn colors_separated(s: Seq<[u8; 3]>, bounds: Seq<(int, int)>) -> bool {
    forall|i: int, j: int, a: int, b: int|
        #![trigger bounds[i], bounds[j], s[a], s[b]]
        0 <= i < bounds.len() && 0 <= j < bounds.len() && i != j && bounds[i].0 <= a < bounds[i].1
            && bounds[j].0 <= b < bounds[j].1 ==> s[a] != s[b]
}

/// How many samples have color `x`.
pub open spec fn count_of(s: Seq<[u8; 3]>, x: [u8; 3]) -> int
    decreases s.len(),
{
    if s.len() == 0 {
        0
    } else {
        count_of(s.drop_last(), x) + if s.last() == x {
            1int
        } else {
            0int
        }
    }
}

/// The samples are exactly the two distinct colors `a` and `b`, both
/// present.
pub open spec fn two_tone(s: Seq<[u8; 3]>, a: [u8; 3], b: [u8; 3]) -> bool {
    &&& a != b
    &&& s.contains(a)
    &&& s.contains(b)
    &&& forall|i: int| 0 <= i < s.len() ==> #[trigger] s[i] == a || s[i] == b
}

proof fn lemma_count_concat(u: Seq<[u8; 3]>, v: Seq<[u8; 3]>, x: [u8; 3])
    ensures
        count_of(u + v, x) == count_of(u, x) + count_of(v, x),
    decreases v.len(),
{
    if v.len() == 0 {
        assert(u + v =~= u);
    } else {
        lemma_count_concat(u, v.drop_last(), x);
        assert((u + v).drop_last() =~= u + v.drop_last());
        assert((u + v).last() == v.last());
    }
}

proof fn lemma_count_bounds(s: Seq<[u8; 3]>, x: [u8; 3])
    ensures
        0 <= count_of(s, x) <= s.len(),
    decreases s.len(),
{
    if s.len() > 0 {
        lemma_count_bounds(s.drop_last(), x);
    }
}

/// A run of one color counts all its samples for that color.
proof fn lemma_count_uniform(s: Seq<[u8; 3]>, x: [u8; 3])
    requires
        forall|i: int| 0 <= i < s.len() ==> #[trigger] s[i] == x,
    ensures
        count_of(s, x) == s.len(),
    decreases s.len(),
{
    if s.len() > 0 {
        let t = s.drop_last();
        assert forall|i: int| 0 <= i < t.len() implies #[trigger] t[i] == x by {
            assert(t[i] == s[i]);
        }
        lemma_count_uniform(t, x);
        assert(s.last() == s[s.len() - 1]);
    }
}

/// Samples of two colors only are counted by those two colors.
proof fn lemma_count_two(s: Seq<[u8; 3]>, a: [u8; 3], b: [u8; 3])
    requires
        a != b,
        forall|i: int| 0 <= i < s.len() ==> #[trigger] s[i] == a || s[i] == b,
    ensures
        count_of(s, a) + count_of(s, b) == s.len(),
    decreases s.len(),
{
    if s.len() > 0 {
        let t = s.drop_last();
        assert forall|i: int| 0 <= i < t.len() implies #[trigger] t[i] == a || t[i] == b by {
            assert(t[i] == s[i]);
        }
        lemma_count_two(t, a, b);
        assert(s.last() == s[s.len() - 1]);
    }
}

/// Counting by color agrees with the multiset of the samples.
proof fn lemma_count_multiset(s: Seq<[u8; 3]>, x: [u8; 3])
    ensures
        count_of(s, x) == s.to_multiset().count(x),
    decreases s.len(),
{
    broadcast use vstd::seq_lib::to_multiset_build;

    if s.len() == 0 {
        vstd::seq_lib::to_multiset_contains(s, x);
        assert(!s.contains(x));
    } else {
        let t = s.drop_last();
        lemma_count_multiset(t, x);
        assert(t.push(s.last()) =~= s);
    }
}

/// A count within a run is at most the count over the whole sequence.
proof fn lemma_count_subrange(s: Seq<[u8; 3]>, st: int, en: int, x: [u8; 3])
    requires
        0 <= st <= en <= s.len(),
    ensures
        count_of(s.subrange(st, en), x) <= count_of(s, x),
{
    let n = s.len() as int;
    assert(s =~= s.subrange(0, st) + s.subrange(st, en) + s.subrange(en, n));
    lemma_count_concat(s.subrange(0, st) + s.subrange(st, en), s.subrange(en, n), x);
    lemma_count_concat(s.subrange(0, st), s.subrange(st, en), x);
    lemma_count_bounds(s.subrange(0, st), x);
    lemma_count_bounds(s.subrange(en, n), x);
}

/// Median cut keeps a two-tone image at two colors: when the samples hold
/// exactly two colors and there is room for two buckets, any cut described
/// as `cut_witness` states yields one bucket per color, with every sample of
/// that color.
pub proof fn lemma_two_tone_cut(
    s: Seq<[u8; 3]>,
    target: int,
    r: Seq<([u8; 3], usize)>,
    bounds: Seq<(int, int)>,
    a: [u8; 3],
    b: [u8; 3],
)
    requires
        two_tone(s, a, b),
        target >= 2,
        1 <= r.len() <= target,
        count_total(r) == s.len(),
        s.len() <= usize::MAX,
        cut_witness(s, target, r, bounds),
    ensures
        r.len() == 2,
        r.contains((a, count_of(s, a) as usize)),
        r.contains((b, count_of(s, b) as usize)),
{
    let ia = choose|i: int| 0 <= i < s.len() && s[i] == a;
    let ib = choose|i: int| 0 <= i < s.len() && s[i] == b;
    // One bucket would cover every sample, both colors included.
    if r.len() == 1 {
        let (st, en) = bounds[0];
        assert(r[0] == summary(s.subrange(st, en)));
        assert(r.drop_last() =~= Seq::<([u8; 3], usize)>::empty());
        assert(count_total(Seq::<([u8; 3], usize)>::empty()) == 0);
        assert(r.last() == r[0]);
        assert(count_total(r) == r[0].1);
        assert(st == 0 && en == s.len());
        assert(s.subrange(st, en) =~= s);
        assert(s[ia] != s[ib]);
        assert(false);
    }
    // A third bucket would repeat one of the two colors.
    if r.len() >= 3 {
        let x0 = s[bounds[0].0];
        let x1 = s[bounds[1].0];
        let x2 = s[bounds[2].0];
        assert(x0 == a || x0 == b);
        assert(x1 == a || x1 == b);
        assert(x2 == a || x2 == b);
        assert(false);
    }
    assert(r.len() == 2);
    let (s0, e0) = bounds[0];
    let (s1, e1) = bounds[1];
    let c0 = s[s0];
    let c1 = s[s1];
    assert(c0 != c1);
    let run0 = s.subrange(s0, e0);
    let run1 = s.subrange(s1, e1);
    assert forall|k: int| 0 <= k < run0.len() implies #[trigger] run0[k] == c0 by {
        assert(run0[k] == s[s0 + k]);
        assert(s[s0 + k] != c1);
        assert(c0 == a || c0 == b);
        assert(c1 == a || c1 == b);
        assert(s[s0 + k] == a || s[s0 + k] == b);
    }
    assert forall|k: int| 0 <= k < run1.len() implies #[trigger] run1[k] == c1 by {
        assert(run1[k] == s[s1 + k]);
        assert(s[s1 + k] != c0);
        assert(c0 == a || c0 == b);
        assert(c1 == a || c1 == b);
        assert(s[s1 + k] == a || s[s1 + k] == b);
    }
    lemma_count_uniform(run0, c0);
    lemma_count_uniform(run1, c1);
    lemma_count_subrange(s, s0, e0, c0);
    lemma_count_subrange(s, s1, e1, c1);
    lemma_count_two(s, a, b);
    let r1 = r.drop_last();
    assert(r1.drop_last() =~= Seq::<([u8; 3], usize)>::empty());
    assert(count_total(Seq::<([u8; 3], usize)>::empty()) == 0);
    assert(r1.last() == r[0] && r.last() == r[1]);
    assert(count_total(r1) == r[0].1);
    assert(r[0] == summary(run0) && r[1] == summary(run1));
    assert(count_total(r) == r[0].1 + r[1].1);
    assert(uniform(run0) && uniform(run1));
    lemma_uniform_summary(run0);
    lemma_uniform_summary(run1);
    assert(run0[0] == c0 && run1[0] == c1);
    if c0 == a {
        assert(r[0] == (a, count_of(s, a) as usize));
        assert(r[1] == (b, count_of(s, b) as usize));
    } else {
        assert(r[0] == (b, count_of(s, b) as usize));
        assert(r[1] == (a, count_of(s, a) as usize));
    }
}

/// The two-tone law for the samples before they were reordered.
proof fn lemma_two_tone_reordered(
    orig: Seq<[u8; 3]>,
    s: Seq<[u8; 3]>,
    target: int,
    r: Seq<([u8; 3], usize)>,
    bounds: Seq<(int, int)>,
)
    requires
        s.to_multiset() == orig.to_multiset(),
        1 <= r.len(),
        target >= 1 ==> r.len() <= target,
        count_total(r) == s.len(),
        s.len() <= usize::MAX,
        cut_witness(s, target, r, bounds),
    ensures
        forall|a: [u8; 3], b: [u8; 3]|
            #[trigger] two_tone(orig, a, b) && target >= 2 ==> r.len() == 2 && r.contains(
                (a, count_of(orig, a) as usize),
            ) && r.contains((b, count_of(orig, b) as usize)),
{
    assert forall|a: [u8; 3], b: [u8; 3]|
        #[trigger] two_tone(orig, a, b) && target >= 2 implies r.len() == 2 && r.contains(
            (a, count_of(orig, a) as usize),
        ) && r.contains((b, count_of(orig, b) as usize)) by {
        vstd::seq_lib::to_multiset_contains(orig, a);
        vstd::seq_lib::to_multiset_contains(orig, b);
        vstd::seq_lib::to_multiset_contains(s, a);
        vstd::seq_lib::to_multiset_contains(s, b);
        assert forall|i: int| 0 <= i < s.len() implies #[trigger] s[i] == a || s[i] == b by {
            let x = s[i];
            assert(s.contains(x));
            vstd::seq_lib::to_multiset_contains(s, x);
            vstd::seq_lib::to_multiset_contains(orig, x);
            let k = choose|k: int| 0 <= k < orig.len() && orig[k] == x;
            assert(orig[k] == a || orig[k] == b);
        }
        assert(two_tone(s, a, b));
        lemma_count_multiset(s, a);
        lemma_count_multiset(s, b);
        lemma_count_multiset(orig, a);
        lemma_count_multiset(orig, b);
        lemma_two_tone_cut(s, target, r, bounds, a, b);
    }
}

fn summarize(samples: &Vec<[u8; 3]>, start: usize, end: usize) -> (r: ([u8; 3], usize))
    requires
        start < end <= samples.len(),
    ensures
        r == summary(samples@.subrange(start as int, end as int)),
{
    let mut s0: u128 = 0;
    let mut s1: u128 = 0;
    let mut s2: u128 = 0;
    let mut k: usize = start;
    while k < end
        invariant
            start <= k <= end,
            end <= samples.len(),
            s0 == ch_sum(samples@.subrange(start as int, k as int), 0),
            s1 == ch_sum(samples@.subrange(start as int, k as int), 1),
            s2 == ch_sum(samples@.subrange(start as int, k as int), 2),
            s0 <= 255 * (k - start) && s1 <= 255 * (k - start) && s2 <= 255 * (k - start),
        decreases end - k,
    {
        assert(samples@.subrange(start as int, k + 1).drop_last() =~= samples@.subrange(
            start as int,
            k as int,
        ));
        let p = samples[k];
        s0 = s0 + p[0] as u128;
        s1 = s1 + p[1] as u128;
        s2 = s2 + p[2] as u128;
        k = k + 1;
    }
    let n = (end - start) as u128;
    let m0 = (2 * s0 + n) / (2 * n);
    let m1 = (2 * s1 + n) / (2 * n);
    let m2 = (2 * s2 + n) / (2 * n);
    let c0: u8 = if m0 > 255 {
        255
    } else {
        m0 as u8
    };
    let c1: u8 = if m1 > 255 {
        255
    } else {
        m1 as u8
    };
    let c2: u8 = if m2 > 255 {
        255
    } else {
        m2 as u8
    };
    let r = ([c0, c1, c2], end - start);
    assert(r.0@ =~= summary(samples@.subrange(start as int, end as int)).0@);
    r
}

/// The pixels of run `b` (its start and end) of the samples `s`.
pub open spec fn run_of(s: Seq<[u8; 3]>, b: (int, int)) -> Seq<[u8; 3]> {
    s.subrange(b.0, b.1)
}

/// A run can be split: it holds at least two pixels and its widest channel
/// has a range.
pub open spec fn can_split(s: Seq<[u8; 3]>, b: (int, int)) -> bool {
    b.1 - b.0 > 1 && widest(run_of(s, b)).1 > 0
}

/// Run `i` of `bs` is the one median cut splits next: a splittable run of
/// greatest spread, the last one among equals.
pub open spec fn is_pick(s: Seq<[u8; 3]>, bs: Seq<(int, int)>, i: int) -> bool {
    &&& 0 <= i < bs.len()
    &&& can_split(s, bs[i])
    &&& forall|j: int|
        0 <= j < bs.len() && can_split(s, #[trigger] bs[j]) ==> widest(run_of(s, bs[j])).1 <= widest(
            run_of(s, bs[i]),
        ).1
    &&& forall|j: int|
        i < j < bs.len() && can_split(s, #[trigger] bs[j]) ==> widest(run_of(s, bs[j])).1 < widest(
            run_of(s, bs[i]),
        ).1
}

/// The run is ordered by channel `ch`.
pub open spec fn sorted_on(run: Seq<[u8; 3]>, ch: int) -> bool {
    forall|i: int, j: int| 0 <= i <= j < run.len() ==> chan(run[i], ch) <= chan(run[j], ch)
}

/// `j` is the value-change boundary on `ch` nearest the middle of `run`, the
/// later one on a tie.
pub open spec fn is_cut(run: Seq<[u8; 3]>, ch: int, j: int) -> bool {
    let med = (run.len() / 2) as int;
    &&& 1 <= j < run.len()
    &&& is_boundary(run, ch, j)
    &&& forall|k: int| 1 <= k < run.len() && dist(k, med) < dist(j, med) ==> !is_boundary(run, ch, k)
    &&& (j < med && med + (med - j) < run.len()) ==> !is_boundary(run, ch, med + (med - j))
}

/// One split of median cut, from samples `s` in runs `bs` to samples `t` in
/// runs `cs`: run `i`, the pick, is ordered by its widest channel (the rest
/// of the samples untouched) and cut at `m`, its boundary nearest the
/// middle; its lower part keeps its place and its upper part goes last.
pub open spec fn step_at(
    s: Seq<[u8; 3]>,
    bs: Seq<(int, int)>,
    i: int,
    m: int,
    t: Seq<[u8; 3]>,
    cs: Seq<(int, int)>,
) -> bool {
    let b = bs[i];
    let ch = widest(run_of(s, b)).0;
    &&& is_pick(s, bs, i)
    &&& t.len() == s.len()
    &&& forall|k: int| 0 <= k < s.len() && !(b.0 <= k < b.1) ==> t[k] == s[k]
    &&& run_of(t, b).to_multiset() == run_of(s, b).to_multiset()
    &&& sorted_on(run_of(t, b), ch)
    &&& is_cut(run_of(t, b), ch, m)
    &&& cs == bs.update(i, (b.0, b.0 + m)).push((b.0 + m, b.1))
}

/// One split of median cut (see `step_at`).
pub open spec fn cut_step(s: Seq<[u8; 3]>, bs: Seq<(int, int)>, t: Seq<[u8; 3]>, cs: Seq<(int, int)>) -> bool {
    exists|i: int, m: int| #[trigger] step_at(s, bs, i, m, t, cs)
}

/// A run of median cut: each state (samples, runs) follows from the one
/// before by a split, taken while fewer than `target` runs exist.
pub open spec fn cut_trace(tr: Seq<(Seq<[u8; 3]>, Seq<(int, int)>)>, target: int) -> bool {
    &&& tr.len() >= 1
    &&& forall|k: int|
        #![trigger tr[k]]
        0 <= k < tr.len() - 1 ==> tr[k].1.len() < target && cut_step(
            tr[k].0,
            tr[k].1,
            tr[k + 1].0,
            tr[k + 1].1,
        )
}

/// Median cut of `orig` toward `target` buckets, run as `tr`, leaves the
/// samples as `fin` and returns `r`: it starts from one run of all samples,
/// splits until `target` runs exist or none can be split, and returns each
/// final run's mean color and size in run order.
pub open spec fn median_cut_run(
    orig: Seq<[u8; 3]>,
    target: int,
    tr: Seq<(Seq<[u8; 3]>, Seq<(int, int)>)>,
    fin: Seq<[u8; 3]>,
    r: Seq<([u8; 3], usize)>,
) -> bool {
    &&& cut_trace(tr, target)
    &&& tr[0] == (orig, seq![(0int, orig.len() as int)])
    &&& tr.last().0 == fin
    &&& (tr.last().1.len() >= target || forall|i: int|
        0 <= i < tr.last().1.len() ==> !can_split(fin, #[trigger] tr.last().1[i]))
    &&& r == tr.last().1.map_values(|b: (int, int)| summary(run_of(fin, b)))
}

spec fn ranges(bs: Seq<Bucket>) -> Seq<(int, int)> {
    bs.map_values(|b: Bucket| (b.start as int, b.end as int))
}

/// Channel `ch` sums to between `lo` and `hi` per pixel when every pixel's
/// value lies between them.
proof fn lemma_sum_within(run: Seq<[u8; 3]>, ch: int, lo: int, hi: int)
    requires
        forall|k: int| 0 <= k < run.len() ==> lo <= chan(#[trigger] run[k], ch) <= hi,
    ensures
        run.len() * lo <= ch_sum(run, ch) <= run.len() * hi,
    decreases run.len(),
{
    if run.len() > 0 {
        let t = run.drop_last();
        assert forall|k: int| 0 <= k < t.len() implies lo <= chan(#[trigger] t[k], ch) <= hi by {
            assert(t[k] == run[k]);
        }
        lemma_sum_within(t, ch, lo, hi);
        assert(lo <= chan(run[run.len() - 1], ch) <= hi);
        assert(run.len() * lo == t.len() * lo + lo) by (nonlinear_arith)
            requires
                run.len() == t.len() + 1,
        ;
        assert(run.len() * hi == t.len() * hi + hi) by (nonlinear_arith)
            requires
                run.len() == t.len() + 1,
        ;
    }
}

/// The mean of a run of reordered samples lies within the range of the
/// original samples on that channel.
proof fn lemma_mean_within(s: Seq<[u8; 3]>, orig: Seq<[u8; 3]>, st: int, en: int, ch: int)
    requires
        0 <= st < en <= s.len(),
        s.to_multiset() == orig.to_multiset(),
        0 <= ch < 3,
    ensures
        ch_min(orig, ch) <= ch_mean(s.subrange(st, en), ch) <= ch_max(orig, ch),
{
    let run = s.subrange(st, en);
    let lo = ch_min(orig, ch);
    let hi = ch_max(orig, ch);
    lemma_ch_bounds(orig, ch);
    assert forall|k: int| 0 <= k < run.len() implies lo <= chan(#[trigger] run[k], ch) <= hi by {
        let x = run[k];
        assert(x == s[st + k]);
        assert(s.contains(x));
        vstd::seq_lib::to_multiset_contains(s, x);
        vstd::seq_lib::to_multiset_contains(orig, x);
        let j = choose|j: int| 0 <= j < orig.len() && orig[j] == x;
        assert(lo <= chan(orig[j], ch) <= hi);
    }
    lemma_sum_within(run, ch, lo, hi);
    let n = run.len() as int;
    let sum = ch_sum(run, ch);
    assert(hi <= 255) by {
        let j = choose|j: int| 0 <= j < orig.len() && chan(#[trigger] orig[j], ch) == ch_max(orig, ch);
    }
    assert((2 * sum + n) / (2 * n) <= hi) by (nonlinear_arith)
        requires
            n >= 1,
            sum <= n * hi,
    ;
    assert((2 * sum + n) / (2 * n) >= lo) by (nonlinear_arith)
        requires
            n >= 1,
            sum >= n * lo,
    ;
}

/// The split the loop of `median_cut` makes is a step of `cut_step`.
proof fn lemma_split_step(
    before: Seq<[u8; 3]>,
    after: Seq<[u8; 3]>,
    old_buckets: Seq<Bucket>,
    index: int,
    m: int,
    new_buckets: Seq<Bucket>,
)
    requires
        0 <= index < old_buckets.len(),
        forall|i: int| 0 <= i < old_buckets.len() ==> bucket_ok(#[trigger] old_buckets[i], before),
        old_buckets[index].end - old_buckets[index].start > 1,
        old_buckets[index].spread > 0,
        forall|k: int|
            0 <= k < old_buckets.len() && (#[trigger] old_buckets[k]).end - old_buckets[k].start > 1
                && old_buckets[k].spread > 0 ==> old_buckets[k].spread <= old_buckets[index].spread,
        forall|k: int|
            index < k < old_buckets.len() && (#[trigger] old_buckets[k]).end - old_buckets[k].start
                > 1 && old_buckets[k].spread > 0 ==> old_buckets[k].spread
                < old_buckets[index].spread,
        after.len() == before.len(),
        forall|k: int|
            0 <= k < before.len() && !(old_buckets[index].start <= k < old_buckets[index].end)
                ==> after[k] == before[k],
        after.subrange(old_buckets[index].start as int, old_buckets[index].end as int).to_multiset()
            == before.subrange(
            old_buckets[index].start as int,
            old_buckets[index].end as int,
        ).to_multiset(),
        forall|i: int, j: int|
            old_buckets[index].start <= i <= j < old_buckets[index].end ==> chan(
                after[i],
                old_buckets[index].channel as int,
            ) <= chan(after[j], old_buckets[index].channel as int),
        is_cut(
            after.subrange(old_buckets[index].start as int, old_buckets[index].end as int),
            old_buckets[index].channel as int,
            m,
        ),
        new_buckets.len() == old_buckets.len() + 1,
        forall|k: int| 0 <= k < old_buckets.len() && k != index ==> new_buckets[k] == old_buckets[k],
        new_buckets[index].start == old_buckets[index].start,
        new_buckets[index].end == old_buckets[index].start + m,
        new_buckets[old_buckets.len() as int].start == old_buckets[index].start + m,
        new_buckets[old_buckets.len() as int].end == old_buckets[index].end,
    ensures
        cut_step(before, ranges(old_buckets), after, ranges(new_buckets)),
{
    let bs = ranges(old_buckets);
    let b = bs[index];
    let ob = old_buckets[index];
    assert(b == (ob.start as int, ob.end as int));
    assert(bucket_ok(ob, before));
    assert forall|j: int| 0 <= j < bs.len() implies can_split(before, #[trigger] bs[j]) == (
    old_buckets[j].end - old_buckets[j].start > 1 && old_buckets[j].spread > 0) && widest(
        run_of(before, bs[j]),
    ).1 == old_buckets[j].spread by {
        assert(bucket_ok(old_buckets[j], before));
        assert(bs[j] == (old_buckets[j].start as int, old_buckets[j].end as int));
    }
    assert(is_pick(before, bs, index));
    let ch = widest(run_of(before, b)).0;
    assert(ch == ob.channel);
    let run = run_of(after, b);
    assert(sorted_on(run, ch)) by {
        assert forall|i: int, j: int| 0 <= i <= j < run.len() implies chan(run[i], ch) <= chan(
            run[j],
            ch,
        ) by {
            assert(run[i] == after[ob.start + i] && run[j] == after[ob.start + j]);
        }
    }
    let cs = ranges(new_buckets);
    assert(cs =~= bs.update(index, (b.0, b.0 + m)).push((b.0 + m, b.1)));
    assert(step_at(before, bs, index, m, after, cs));
}

/// A trace of median cut grows by one split.
proof fn lemma_trace_push(
    tr: Seq<(Seq<[u8; 3]>, Seq<(int, int)>)>,
    target: int,
    t: Seq<[u8; 3]>,
    cs: Seq<(int, int)>,
)
    requires
        cut_trace(tr, target),
        tr.last().1.len() < target,
        cut_step(tr.last().0, tr.last().1, t, cs),
    ensures
        cut_trace(tr.push((t, cs)), target),
        tr.push((t, cs))[0] == tr[0],
        tr.push((t, cs)).last() == (t, cs),
{
    let tr2 = tr.push((t, cs));
    assert forall|k: int| 0 <= k < tr2.len() - 1 implies #[trigger] tr2[k].1.len() < target && cut_step(
        tr2[k].0,
        tr2[k].1,
        tr2[k + 1].0,
        tr2[k + 1].1,
    ) by {
        assert(tr2[k] == tr[k]);
        if k < tr.len() - 1 {
            assert(tr2[k + 1] == tr[k + 1]);
            assert(tr[k].1.len() < target);
        } else {
            assert(tr[k] == tr.last());
        }
    }
}

/// Median cut: repeatedly split the widest bucket along its widest channel at
/// the median until `target` buckets exist or no bucket can be split further.
/// The cut is snapped to the nearest run boundary so pixels sharing a value
/// on the split channel always land in the same bucket. Returns
/// `(mean color, pixel count)` per bucket; `samples` is left reordered.
#[verifier::rlimit(90)]
pub fn median_cut(samples: &mut Vec<[u8; 3]>, target: usize) -> (r: Vec<([u8; 3], usize)>)
    requires
        old(samples)@.len() > 0,
    ensures
        final(samples)@.to_multiset() == old(samples)@.to_multiset(),
        final(samples)@.len() == old(samples)@.len(),
        r@.len() >= 1,
        target >= 1 ==> r@.len() <= target,
        count_total(r@) == final(samples)@.len(),
        exists|bounds: Seq<(int, int)>| cut_witness(final(samples)@, target as int, r@, bounds),
        exists|tr: Seq<(Seq<[u8; 3]>, Seq<(int, int)>)>|
            median_cut_run(old(samples)@, target as int, tr, final(samples)@, r@),
        r@.len() <= if target >= 1 {
            target as int
        } else {
            1
        },
        forall|i: int, ch: int|
            0 <= i < r@.len() && 0 <= ch < 3 ==> ch_min(old(samples)@, ch) <= #[trigger] chan(
                r@[i].0,
                ch,
            ) <= ch_max(old(samples)@, ch),
        uniform(old(samples)@) ==> r@ == seq![(old(samples)@[0], old(samples)@.len() as usize)],
        forall|a: [u8; 3], b: [u8; 3]|
            #[trigger] two_tone(old(samples)@, a, b) && target >= 2 ==> r@.len() == 2
                && r@.contains((a, count_of(old(samples)@, a) as usize)) && r@.contains(
                (b, count_of(old(samples)@, b) as usize),
            ),
{
    let len = samples.len();
    let ghost orig = samples@;
    let mut buckets: Vec<Bucket> = Vec::new();
    let first = Bucket::new(samples, 0, len);
    buckets.push(first);
    assert(buckets@ =~= seq![first]);
    assert(buckets@.drop_last() =~= Seq::<Bucket>::empty());
    assert(total_len(Seq::<Bucket>::empty()) == 0);
    assert(total_len(buckets@) == len);
    let mut done = false;
    let ghost mut tr: Seq<(Seq<[u8; 3]>, Seq<(int, int)>)> = seq![(orig, ranges(buckets@))];
    assert(ranges(buckets@) =~= seq![(0int, len as int)]);
    while !done && buckets.len() < target
        invariant
            cut_trace(tr, target as int),
            tr[0] == (orig, seq![(0int, len as int)]),
            tr.last() == (samples@, ranges(buckets@)),
            buckets@.len() <= if target >= 1 {
                target as int
            } else {
                1
            },
            samples@.len() == len,
            len > 0,
            samples@.to_multiset() == orig.to_multiset(),
            buckets@.len() >= 1,
            target >= 1 ==> buckets@.len() <= target,
            forall|i: int| 0 <= i < buckets@.len() ==> bucket_ok(#[trigger] buckets@[i], samples@),
            forall|i: int, j: int|
                0 <= i < buckets@.len() && 0 <= j < buckets@.len() && i != j ==> disjoint(
                    #[trigger] buckets@[i],
                    #[trigger] buckets@[j],
                ),
            total_len(buckets@) == len,
            buckets_separated(samples@, buckets@),
            uniform(orig) ==> buckets@.len() == 1 && samples@ == orig,
            done ==> forall|i: int|
                0 <= i < buckets@.len() ==> !((#[trigger] buckets@[i]).end - buckets@[i].start > 1
                    && buckets@[i].spread > 0),
        decreases target - buckets@.len() + (if done {
            0int
        } else {
            1int
        }),
    {
        proof {
            if uniform(orig) {
                lemma_single_bucket_covers(buckets@, len as int);
                let b = buckets@[0];
                assert(bucket_ok(b, samples@));
                assert(samples@.subrange(b.start as int, b.end as int) =~= orig);
                lemma_uniform_is_flat(orig);
                assert(b.spread == 0);
            }
        }
        let mut best: usize = 0;
        let mut found = false;
        let mut i: usize = 0;
        while i < buckets.len()
            invariant
                i <= buckets@.len(),
                found ==> best < i && buckets@[best as int].end - buckets@[best as int].start > 1
                    && buckets@[best as int].spread > 0,
                found ==> forall|k: int|
                    0 <= k < i && (#[trigger] buckets@[k]).end - buckets@[k].start > 1
                        && buckets@[k].spread > 0 ==> buckets@[k].spread <= buckets@[best as int].spread,
                found ==> forall|k: int|
                    best < k < i && (#[trigger] buckets@[k]).end - buckets@[k].start > 1
                        && buckets@[k].spread > 0 ==> buckets@[k].spread < buckets@[best as int].spread,
                forall|i: int| 0 <= i < buckets@.len() ==> bucket_ok(#[trigger] buckets@[i], samples@),
                !found ==> forall|k: int|
                    0 <= k < i ==> !((#[trigger] buckets@[k]).end - buckets@[k].start > 1
                        && buckets@[k].spread > 0),
            decreases buckets.len() - i,
        {
            if buckets[i].splittable() {
                if !found || buckets[i].spread >= buckets[best].spread {
                    best = i;
                    found = true;
                }
            }
            i = i + 1;
        }
        if !found {
            done = true;
        } else {
            assert(!uniform(orig));
            let index = best;
            let start = buckets[index].start;
            let end = buckets[index].end;
            let channel = buckets[index].channel;
            let ghost before = samples@;
            let ghost old_buckets = buckets@;
            assert(bucket_ok(old_buckets[index as int], before));
            sort_run_by_channel(samples, start, end, channel);
            proof {
                lemma_run_permuted(before, samples@, start as int, end as int);
                let old_run = before.subrange(start as int, end as int);
                let new_run = samples@.subrange(start as int, end as int);
                assert(spread(old_run, channel as int) > 0);
                assert forall|i: int, j: int|
                    0 <= i <= j < new_run.len() implies chan(new_run[i], channel as int) <= chan(
                    new_run[j],
                    channel as int,
                ) by {
                    assert(new_run[i] == samples@[start + i] && new_run[j] == samples@[start + j]);
                }
                lemma_sorted_spread_has_boundary(old_run, new_run, channel as int);
                assert forall|k: int| 0 <= k < old_buckets.len() && k != index implies bucket_ok(
                    #[trigger] old_buckets[k],
                    samples@,
                ) by {
                    let b = old_buckets[k];
                    assert(disjoint(old_buckets[k], old_buckets[index as int]));
                    assert(samples@.subrange(b.start as int, b.end as int) =~= before.subrange(
                        b.start as int,
                        b.end as int,
                    ));
                }
            }
            let m = boundary_near_median(samples, start, end, channel);
            let middle = start + m;
            let left = Bucket::new(samples, start, middle);
            let right = Bucket::new(samples, middle, end);
            proof {
                let run = samples@.subrange(start as int, end as int);
                assert(is_boundary(run, channel as int, m as int));
                assert(run[m - 1] == samples@[middle - 1] && run[m as int] == samples@[middle as int]);
                assert forall|i: int| 0 <= i < old_buckets.len() implies (
                #[trigger] old_buckets[i]).start < old_buckets[i].end <= before.len() by {
                    assert(bucket_ok(old_buckets[i], before));
                }
                lemma_split_keeps_separated(
                    before,
                    samples@,
                    old_buckets,
                    index as int,
                    middle as int,
                    channel as int,
                    left,
                    right,
                );
            }
            buckets.set(index, left);
            buckets.push(right);
            proof {
                lemma_total_len_update(old_buckets, index as int, left);
                assert(buckets@ =~= old_buckets.update(index as int, left).push(right));
                assert(buckets@.drop_last() =~= old_buckets.update(index as int, left));
                assert forall|i: int| 0 <= i < buckets@.len() implies bucket_ok(
                    #[trigger] buckets@[i],
                    samples@,
                ) by {
                    if i != index && i < old_buckets.len() {
                        assert(buckets@[i] == old_buckets[i]);
                    }
                }
                assert forall|i: int, j: int|
                    0 <= i < buckets@.len() && 0 <= j < buckets@.len() && i != j implies disjoint(
                    #[trigger] buckets@[i],
                    #[trigger] buckets@[j],
                ) by {
                    if i < old_buckets.len() && i != index {
                        assert(disjoint(old_buckets[i], old_buckets[index as int]));
                    }
                    if j < old_buckets.len() && j != index {
                        assert(disjoint(old_buckets[j], old_buckets[index as int]));
                    }
                    if i < old_buckets.len() && j < old_buckets.len() && i != index && j != index {
                        assert(buckets@[i] == old_buckets[i] && buckets@[j] == old_buckets[j]);
                    }
                }
            }
            proof {
                assert(buckets@[old_buckets.len() as int] == right);
                lemma_split_step(before, samples@, old_buckets, index as int, m as int, buckets@);
                lemma_trace_push(tr, target as int, samples@, ranges(buckets@));
                tr = tr.push((samples@, ranges(buckets@)));
            }
        }
    }
    let mut r: Vec<([u8; 3], usize)> = Vec::new();
    let ghost mut bounds: Seq<(int, int)> = Seq::empty();
    let mut k: usize = 0;
    while k < buckets.len()
        invariant
            cut_trace(tr, target as int),
            tr[0] == (orig, seq![(0int, len as int)]),
            tr.last() == (samples@, ranges(buckets@)),
            buckets@.len() >= target || forall|i: int|
                0 <= i < buckets@.len() ==> !((#[trigger] buckets@[i]).end - buckets@[i].start > 1
                    && buckets@[i].spread > 0),
            buckets@.len() <= if target >= 1 {
                target as int
            } else {
                1
            },
            k <= buckets@.len(),
            samples@.len() == len,
            forall|i: int| 0 <= i < buckets@.len() ==> bucket_ok(#[trigger] buckets@[i], samples@),
            r@.len() == k,
            bounds.len() == k,
            forall|i: int|
                0 <= i < k ==> (#[trigger] bounds[i]) == (buckets@[i].start as int, buckets@[i].end as int)
                    && r@[i] == summary(samples@.subrange(bounds[i].0, bounds[i].1)),
            count_total(r@) == total_len(buckets@.subrange(0, k as int)),
        decreases buckets.len() - k,
    {
        let b = &buckets[k];
        assert(bucket_ok(buckets@[k as int], samples@));
        let item = summarize(samples, b.start, b.end);
        let ghost r0 = r@;
        r.push(item);
        proof {
            bounds = bounds.push((b.start as int, b.end as int));
            assert(r@.drop_last() =~= r0);
            assert(buckets@.subrange(0, k + 1).drop_last() =~= buckets@.subrange(0, k as int));
        }
        k = k + 1;
    }
    proof {
        assert(buckets@.subrange(0, buckets@.len() as int) =~= buckets@);
        let s = samples@;
        assert forall|i: int, j: int|
            0 <= i < bounds.len() && 0 <= j < bounds.len() && i != j implies (#[trigger] bounds[i]).1
            <= (#[trigger] bounds[j]).0 || bounds[j].1 <= bounds[i].0 by {
            assert(disjoint(buckets@[i], buckets@[j]));
        }
        if r@.len() < target {
            assert forall|i: int| 0 <= i < bounds.len() implies uniform(
                s.subrange((#[trigger] bounds[i]).0, bounds[i].1),
            ) by {
                let b = buckets@[i];
                let run = s.subrange(b.start as int, b.end as int);
                assert(bucket_ok(b, s));
                if b.spread == 0 {
                    lemma_flat_is_uniform(run);
                } else {
                    assert(run.len() <= 1);
                }
            }
        }
        assert(colors_separated(s, bounds)) by {
            assert forall|i: int, j: int, a: int, b: int|
                #![trigger bounds[i], bounds[j], s[a], s[b]]
                0 <= i < bounds.len() && 0 <= j < bounds.len() && i != j && bounds[i].0 <= a
                    < bounds[i].1 && bounds[j].0 <= b < bounds[j].1 implies s[a] != s[b] by {
                assert(buckets@[i].start == bounds[i].0 && buckets@[j].start == bounds[j].0);
            }
        }
        assert(cut_witness(s, target as int, r@, bounds));
        let fb = ranges(buckets@);
        assert forall|i: int| 0 <= i < fb.len() implies #[trigger] fb[i] == bounds[i] && can_split(
            s,
            fb[i],
        ) == (buckets@[i].end - buckets@[i].start > 1 && buckets@[i].spread > 0) by {
            assert(bucket_ok(buckets@[i], s));
        }
        assert(r@ =~= fb.map_values(|b: (int, int)| summary(run_of(s, b))));
        assert(median_cut_run(orig, target as int, tr, s, r@));
        assert forall|i: int, ch: int| 0 <= i < r@.len() && 0 <= ch < 3 implies ch_min(orig, ch)
            <= #[trigger] chan(r@[i].0, ch) <= ch_max(orig, ch) by {
            assert(bucket_ok(buckets@[i], s));
            lemma_mean_within(s, orig, bounds[i].0, bounds[i].1, ch);
            let run = s.subrange(bounds[i].0, bounds[i].1);
            lemma_ch_bounds(orig, ch);
            assert(r@[i] == summary(run));
            if ch == 0 {
                assert(chan(r@[i].0, 0) == ch_mean(run, 0));
            } else if ch == 1 {
                assert(chan(r@[i].0, 1) == ch_mean(run, 1));
            } else {
                assert(chan(r@[i].0, 2) == ch_mean(run, 2));
            }
        }
        lemma_two_tone_reordered(orig, s, target as int, r@, bounds);
        if uniform(orig) {
            lemma_single_bucket_covers(buckets@, len as int);
            assert(s.subrange(bounds[0].0, bounds[0].1) =~= orig);
            lemma_uniform_summary(orig);
            assert(r@ =~= seq![(orig[0], orig.len() as usize)]);
        }
    }
    r
}


// ---------------------------------------------------------------------------
// Sampling
// ---------------------------------------------------------------------------

/// Upper bound on the number of pixels fed into median cut.
pub open spec fn max_samples() -> int {
    200_000
}

/// Pixel stride that keeps the sample count within `max_samples`.
pub open spec fn sample_stride(total: int) -> int {
    if total > max_samples() {
        (total + max_samples() - 1) / max_samples()
    } else {
        1
    }
}

/// The visible (non-zero alpha) pixels among the first `steps` stride steps
/// over the RGBA bytes `raw`, as RGB.
pub open spec fn sampled_upto(raw: Seq<u8>, stride: int, steps: int) -> Seq<[u8; 3]>
    decreases steps,
{
    if steps <= 0 {
        Seq::empty()
    } else {
        let acc = sampled_upto(raw, stride, steps - 1);
        let p = 4 * (steps - 1) * stride;
        if raw[p + 3] > 0 {
            acc.push([raw[p], raw[p + 1], raw[p + 2]])
        } else {
            acc
        }
    }
}

/// The pixels median cut sees: every `stride`-th whole RGBA pixel of `raw`
/// (every pixel unless there are more than 200 000), fully transparent ones
/// dropped.
pub open spec fn sampled(raw: Seq<u8>) -> Seq<[u8; 3]> {
    let total = raw.len() / 4;
    let stride = sample_stride(total as int);
    sampled_upto(raw, stride, (total + stride - 1) / stride)
}

/// Collects the sampled pixels of an RGBA buffer.
pub fn sample_pixels(raw: &Vec<u8>) -> (s: Vec<[u8; 3]>)
    ensures
        s@ == sampled(raw@),
{
    let total = raw.len() / 4;
    let stride: usize = if total > 200_000 {
        (total + 199_999) / 200_000
    } else {
        1
    };
    let ghost steps_total: int = (total as int + stride as int - 1) / (stride as int);
    let mut out: Vec<[u8; 3]> = Vec::new();
    let mut pixel: usize = 0;
    let mut step: usize = 0;
    assert(total > 0 ==> steps_total >= 1) by (nonlinear_arith)
        requires
            stride >= 1,
            steps_total == (total as int + stride as int - 1) / (stride as int),
    ;
    while pixel < total
        invariant
            total == raw.len() / 4,
            stride == sample_stride(total as int),
            stride >= 1,
            pixel < total ==> pixel == step * stride,
            steps_total == (total as int + stride as int - 1) / (stride as int),
            step <= steps_total,
            pixel < total ==> step < steps_total,
            pixel >= total ==> step == steps_total,
            out@ == sampled_upto(raw@, stride as int, step as int),
        decreases total - pixel,
    {
        let base = 4 * pixel;
        assert(base + 3 < raw.len());
        if raw[base + 3] > 0 {
            out.push([raw[base], raw[base + 1], raw[base + 2]]);
        }
        proof {
            assert(4 * step * stride == 4 * (step * stride)) by (nonlinear_arith);
        }
        let ghost prev_step = step;
        let ghost prev_pixel = pixel;
        step = step + 1;
        if total - pixel <= stride {
            pixel = total;
            proof {
                assert(step == steps_total) by (nonlinear_arith)
                    requires
                        prev_pixel == prev_step * stride,
                        prev_pixel < total,
                        total - prev_pixel <= stride,
                        step == prev_step + 1,
                        stride >= 1,
                        steps_total == (total as int + stride as int - 1) / (stride as int),
                ;
            }
        } else {
            pixel = pixel + stride;
            proof {
                assert(pixel == step * stride) by (nonlinear_arith)
                    requires
                        prev_pixel == prev_step * stride,
                        pixel == prev_pixel + stride,
                        step == prev_step + 1,
                ;
                assert(step < steps_total) by (nonlinear_arith)
                    requires
                        pixel == step * stride,
                        pixel < total,
                        stride >= 1,
                        steps_total == (total as int + stride as int - 1) / (stride as int),
                ;
            }
        }
    }
    out
}

// ---------------------------------------------------------------------------
// Ranking
// ---------------------------------------------------------------------------

/// A color as one number, so that ordering by it orders `#rrggbb` strings.
pub open spec fn color_key(c: [u8; 3]) -> int {
    c@[0] as int * 65536 + c@[1] as int * 256 + c@[2] as int
}

/// `a` is listed strictly before `b`: more pixels, or as many and a lower
/// `#rrggbb`.
pub open spec fn ranks_before(a: ([u8; 3], usize), b: ([u8; 3], usize)) -> bool {
    a.1 > b.1 || (a.1 == b.1 && color_key(a.0) < color_key(b.0))
}

/// Most pixels first; equal counts by ascending `#rrggbb`.
pub open spec fn ranked(s: Seq<([u8; 3], usize)>) -> bool {
    forall|i: int, j: int| 0 <= i < j < s.len() ==> !ranks_before(#[trigger] s[j], #[trigger] s[i])
}

fn ranks_before_exec(a: &([u8; 3], usize), b: &([u8; 3], usize)) -> (r: bool)
    ensures
        r == ranks_before(*a, *b),
{
    let ka: u32 = (a.0[0] as u32) * 65536 + (a.0[1] as u32) * 256 + (a.0[2] as u32);
    let kb: u32 = (b.0[0] as u32) * 65536 + (b.0[1] as u32) * 256 + (b.0[2] as u32);
    a.1 > b.1 || (a.1 == b.1 && ka < kb)
}

/// Orders buckets most dominant first; equal-weight buckets by ascending hex.
pub fn rank_buckets(buckets: Vec<([u8; 3], usize)>) -> (r: Vec<([u8; 3], usize)>)
    ensures
        r@.to_multiset() == buckets@.to_multiset(),
        ranked(r@),
{
    broadcast use vstd::seq_lib::to_multiset_build, vstd::seq_lib::to_multiset_insert;

    let mut out: Vec<([u8; 3], usize)> = Vec::new();
    let mut i: usize = 0;
    assert(out@ =~= buckets@.subrange(0, 0));
    while i < buckets.len()
        invariant
            i <= buckets@.len(),
            out@.to_multiset() == buckets@.subrange(0, i as int).to_multiset(),
            ranked(out@),
        decreases buckets.len() - i,
    {
        let x = buckets[i];
        let mut j: usize = 0;
        while j < out.len() && !ranks_before_exec(&x, &out[j])
            invariant
                j <= out@.len(),
                forall|k: int| 0 <= k < j ==> !ranks_before(x, #[trigger] out@[k]),
            decreases out.len() - j,
        {
            j = j + 1;
        }
        let ghost before = out@;
        out.insert(j, x);
        proof {
            assert(out@ == before.insert(j as int, x));
            vstd::seq_lib::to_multiset_insert(before, j as int, x);
            vstd::seq_lib::to_multiset_build(buckets@.subrange(0, i as int), x);
            assert(buckets@.subrange(0, i + 1) =~= buckets@.subrange(0, i as int).push(x));
            assert(buckets@.subrange(0, i as int).push(x).to_multiset()
                =~= buckets@.subrange(0, i as int).to_multiset().insert(x));
            assert forall|a: int, b: int| 0 <= a < b < out@.len() implies !ranks_before(
                #[trigger] out@[b],
                #[trigger] out@[a],
            ) by {
                if a < j && b < j {
                    assert(out@[a] == before[a] && out@[b] == before[b]);
                } else if a < j && b == j {
                    assert(out@[a] == before[a]);
                } else if a < j {
                    assert(out@[a] == before[a] && out@[b] == before[b - 1]);
                } else if a == j {
                    assert(out@[b] == before[b - 1]);
                    assert(j < before.len());
                    assert(ranks_before(x, before[j as int]));
                    assert(!ranks_before(before[b - 1], before[j as int]) || b - 1 == j);
                } else {
                    assert(out@[a] == before[a - 1] && out@[b] == before[b - 1]);
                }
            }
        }
        i = i + 1;
    }
    assert(buckets@.subrange(0, buckets@.len() as int) =~= buckets@);
    out
}

/// The dominant colors of an RGBA buffer, most frequent first: the median-cut
/// buckets (at most `colors`) of the sampled pixels, ranked; `None` when no
/// pixel is visible.
pub fn dominant_colors(raw: &Vec<u8>, colors: usize) -> (r: Option<Vec<([u8; 3], usize)>>)
    ensures
        r is None <==> sampled(raw@).len() == 0,
        r matches Some(v) ==> {
            &&& ranked(v@)
            &&& v@.len() >= 1
            &&& (colors >= 1 ==> v@.len() <= colors)
            &&& count_total(v@) == sampled(raw@).len()
            &&& exists|tr: Seq<(Seq<[u8; 3]>, Seq<(int, int)>)>, s: Seq<[u8; 3]>, cut: Seq<([u8; 3], usize)>|
                median_cut_run(sampled(raw@), colors as int, tr, s, cut) && cut.to_multiset()
                    == v@.to_multiset()
        },
        uniform(sampled(raw@)) && sampled(raw@).len() > 0 ==> (r matches Some(v) && v@ == seq![
            (sampled(raw@)[0], sampled(raw@).len() as usize),
        ]),
        forall|a: [u8; 3], b: [u8; 3]|
            #[trigger] two_tone(sampled(raw@), a, b) && colors >= 2 ==> (r matches Some(v) && v@.len()
                == 2 && v@.contains((a, count_of(sampled(raw@), a) as usize)) && v@.contains(
                (b, count_of(sampled(raw@), b) as usize),
            )),
{
    let mut samples = sample_pixels(raw);
    if samples.len() == 0 {
        return None;
    }
    let cut = median_cut(&mut samples, colors);
    let ghost cut_seq = cut@;
    let ranked_cut = rank_buckets(cut);
    proof {
        lemma_count_total_permutation(cut_seq, ranked_cut@);
        let tr = choose|tr: Seq<(Seq<[u8; 3]>, Seq<(int, int)>)>|
            median_cut_run(sampled(raw@), colors as int, tr, samples@, cut_seq);
        assert(median_cut_run(sampled(raw@), colors as int, tr, samples@, cut_seq));
        vstd::seq_lib::to_multiset_len(cut_seq);
        vstd::seq_lib::to_multiset_len(ranked_cut@);
        assert forall|a: [u8; 3], b: [u8; 3]|
            #[trigger] two_tone(sampled(raw@), a, b) && colors >= 2 implies ranked_cut@.len() == 2
                && ranked_cut@.contains((a, count_of(sampled(raw@), a) as usize))
                && ranked_cut@.contains((b, count_of(sampled(raw@), b) as usize)) by {
            let pa = (a, count_of(sampled(raw@), a) as usize);
            let pb = (b, count_of(sampled(raw@), b) as usize);
            vstd::seq_lib::to_multiset_contains(cut_seq, pa);
            vstd::seq_lib::to_multiset_contains(cut_seq, pb);
            vstd::seq_lib::to_multiset_contains(ranked_cut@, pa);
            vstd::seq_lib::to_multiset_contains(ranked_cut@, pb);
        }
        if uniform(sampled(raw@)) {
            let x = ranked_cut@[0];
            vstd::seq_lib::to_multiset_contains(ranked_cut@, x);
            assert(ranked_cut@.contains(x));
            assert(ranked_cut@.to_multiset().count(x) > 0);
            assert(cut_seq.to_multiset().count(x) > 0);
            vstd::seq_lib::to_multiset_contains(cut_seq, x);
            assert(x == cut_seq[0]);
            assert(ranked_cut@ =~= cut_seq);
        }
    }
    Some(ranked_cut)
}

/// Reordering buckets keeps their total pixel count.
proof fn lemma_count_total_permutation(a: Seq<([u8; 3], usize)>, b: Seq<([u8; 3], usize)>)
    requires
        a.to_multiset() == b.to_multiset(),
    ensures
        count_total(a) == count_total(b),
    decreases a.len(),
{
    broadcast use vstd::seq_lib::to_multiset_build, vstd::seq_lib::to_multiset_remove,
        vstd::seq_lib::to_multiset_contains, vstd::seq_lib::to_multiset_len;

    if a.len() == 0 {
        vstd::seq_lib::to_multiset_len(a);
        vstd::seq_lib::to_multiset_len(b);
        assert(b.len() == 0);
        assert(b =~= Seq::<([u8; 3], usize)>::empty());
    } else {
        let x = a.last();
        assert(a.drop_last().push(x) =~= a);
        assert(b.to_multiset().count(x) > 0);
        assert(b.contains(x));
        let k = choose|k: int| 0 <= k < b.len() && b[k] == x;
        let b2 = b.remove(k);
        assert(b2.to_multiset() == b.to_multiset().remove(x));
        assert(a.drop_last().to_multiset() == a.to_multiset().remove(x));
        lemma_count_total_permutation(a.drop_last(), b2);
        lemma_count_total_remove(b, k);
    }
}

proof fn lemma_count_total_remove(b: Seq<([u8; 3], usize)>, k: int)
    requires
        0 <= k < b.len(),
    ensures
        count_total(b) == count_total(b.remove(k)) + b[k].1,
    decreases b.len(),
{
    if k < b.len() - 1 {
        lemma_count_total_remove(b.drop_last(), k);
        assert(b.remove(k).drop_last() =~= b.drop_last().remove(k));
        assert(b.remove(k).last() == b.last());
    } else {
        assert(b.remove(k) =~= b.drop_last());
    }
}


// ---------------------------------------------------------------------------
// Images
// ---------------------------------------------------------------------------

/// The palette sizes `extract_palette` accepts: 1 to 16 colors.
pub fn check_palette_size(colors: usize) -> (r: Result<(), String>)
    ensures
        (1 <= colors <= 16) == (r is Ok),
        r matches Err(m) ==> m@ == "palette size must be between 1 and 16"@,
{
    if 1 <= colors && colors <= 16 {
        Ok(())
    } else {
        Err(String::from_str("palette size must be between 1 and 16"))
    }
}

/// A decoded image (`image::DynamicImage`): an outside raster, a grid of
/// pixels that the contracts below speak of through `image_size` and
/// `image_rgba`.
#[verifier::external_type_specification]
#[verifier::external_body]
pub struct ExDynamicImage(DynamicImage);

/// The width and height a decoded image was made with, as
/// `GenericImageView::dimensions` reports them.
pub uninterp spec fn image_size(image: DynamicImage) -> (u32, u32);

/// The pixels of a decoded image as 8-bit RGBA, row-major, as
/// `DynamicImage::into_rgba8` lays them out.
pub uninterp spec fn image_rgba(image: DynamicImage) -> Seq<u8>;

/// The pixels, as 8-bit RGBA bytes laid out row-major, of the thumbnail that
/// `DynamicImage::thumbnail` makes of `image` to fit within `width` x `height`.
pub uninterp spec fn thumbnail_rgba(image: DynamicImage, width: u32, height: u32) -> Seq<u8>;

/// The size `DynamicImage::thumbnail` picks for an image of `width` x
/// `height` asked to fit in `nwidth` x `nheight` (the crate's floating-point
/// `resize_dimensions`, aspect ratio kept, each edge rounded and at least 1).
pub uninterp spec fn thumbnail_size(width: u32, height: u32, nwidth: u32, nheight: u32) -> (
    u32,
    u32,
);

/// `GenericImageView::dimensions`: claims that the result is the image's
/// width and height.
#[verifier::external_body]
fn image_dimensions(image: &DynamicImage) -> (r: (u32, u32))
    ensures
        r == image_size(*image),
{
    image.dimensions()
}

/// `DynamicImage::thumbnail`: the image scaled down by the `image` crate to
/// fit within `width` x `height`, aspect ratio kept. Claims that the new size
/// is `thumbnail_size` of the old size and the bounds, that each edge is at
/// least 1 (the crate rounds and then takes at least 1), and that an edge
/// bound of at least 1 is not exceeded (the crate's documented "fits within
/// the bounds"); its pixels, read as RGBA, are `thumbnail_rgba` of the image
/// and the bounds.
#[verifier::external_body]
fn image_thumbnail(image: &DynamicImage, width: u32, height: u32) -> (r: DynamicImage)
    ensures
        image_size(r) == thumbnail_size(image_size(*image).0, image_size(*image).1, width, height),
        1 <= image_size(r).0,
        1 <= image_size(r).1,
        width >= 1 ==> image_size(r).0 <= width,
        height >= 1 ==> image_size(r).1 <= height,
        image_rgba(r) == thumbnail_rgba(*image, width, height),
{
    image.thumbnail(width, height)
}

/// `DynamicImage::into_rgba8`: the image as 8-bit RGBA, returned as its
/// width, height and row-major bytes. Claims that the size is kept (an RGBA8
/// image is returned as it is, any other is converted pixel for pixel), that
/// the bytes are the image's `image_rgba`, and that they cover every pixel
/// (an `ImageBuffer` is never built over a shorter buffer).
#[verifier::external_body]
fn image_into_rgba(image: DynamicImage) -> (r: (u32, u32, Vec<u8>))
    ensures
        (r.0, r.1) == image_size(image),
        r.2@ == image_rgba(image),
        r.2@.len() >= 4 * r.0 * r.1,
{
    let rgba = image.into_rgba8();
    (rgba.width(), rgba.height(), rgba.into_raw())
}

/// An RGBA8 raster.
pub struct RgbaPixels {
    pub width: u32,
    pub height: u32,
    pub raw: Vec<u8>,
}

/// Whether `fit` leaves an image of this size as it is under `max`.
pub open spec fn fits_unchanged(image: DynamicImage, max: u32) -> bool {
    fitted(image_size(image).0, image_size(image).1, max) == image_size(image)
}

/// The size of the raster `shrink_to_rgba` gives: the image's own size when
/// `fit` keeps it, else the size of the thumbnail asked for at `fit`'s box.
pub open spec fn shrunk_size(image: DynamicImage, max: u32) -> (u32, u32) {
    let (w, h) = image_size(image);
    let (tw, th) = fitted(w, h, max);
    if fits_unchanged(image, max) {
        (w, h)
    } else {
        thumbnail_size(w, h, tw, th)
    }
}

/// When `fit` keeps the size under a limit of at least 1, the image already
/// fits: its scaled longest edge would be exactly `max`, never its own length.
proof fn lemma_fit_within(width: u32, height: u32, max: u32)
    requires
        fitted(width, height, max) == (width, height),
        max >= 1,
    ensures
        width <= max,
        height <= max,
{
    let longest = if width >= height {
        width
    } else {
        height
    };
    if longest > max {
        lemma_scaled_edge_bounds(longest as int, max as int, longest as int);
    }
}

/// A scaled edge lies between 1 and `max` (1 when `max` is 0), whatever the
/// edge's own length.
proof fn lemma_scaled_edge_range(edge: int, max: int, longest: int)
    requires
        0 <= edge <= longest <= 0xffff_ffff,
        0 <= max < longest,
    ensures
        1 <= scaled_edge(edge, max, longest),
        scaled_edge(edge, max, longest) <= max || scaled_edge(edge, max, longest) == 1,
{
    if max >= 1 {
        lemma_scaled_below(edge, max, longest);
    }
}

/// When `fit` changes the size, the box it picks is at most `max` on each
/// edge (for `max` at least 1) and at least 1 on each edge.
proof fn lemma_fitted_box(width: u32, height: u32, max: u32)
    requires
        fitted(width, height, max) != (width, height),
    ensures
        1 <= fitted(width, height, max).0,
        1 <= fitted(width, height, max).1,
        max >= 1 ==> fitted(width, height, max).0 <= max,
        max >= 1 ==> fitted(width, height, max).1 <= max,
{
    let longest = if width >= height {
        width
    } else {
        height
    };
    lemma_scaled_edge_range(width as int, max as int, longest as int);
    lemma_scaled_edge_range(height as int, max as int, longest as int);
}

/// Reduce `image` so its longest edge is at most `max`, then expand to RGBA8;
/// an image that already fits is converted as it is, and never upscaled.
/// Resampling the still-narrow source representation first keeps the peak
/// allocation proportional to the decoded image rather than to an RGBA copy.
pub fn shrink_to_rgba(image: DynamicImage, max: u32) -> (r: RgbaPixels)
    ensures
        (r.width, r.height) == shrunk_size(image, max),
        fits_unchanged(image, max) ==> r.raw@ == image_rgba(image),
        !fits_unchanged(image, max) ==> r.raw@ == thumbnail_rgba(
            image,
            fitted(image_size(image).0, image_size(image).1, max).0,
            fitted(image_size(image).0, image_size(image).1, max).1,
        ),
        r.raw@.len() >= 4 * r.width * r.height,
        max >= 1 ==> r.width <= max && r.height <= max,
{
    let (width, height) = image_dimensions(&image);
    let (thumb_width, thumb_height) = fit(width, height, max);
    let (w, h, raw) = if thumb_width == width && thumb_height == height {
        proof {
            if max >= 1 {
                lemma_fit_within(width, height, max);
            }
        }
        image_into_rgba(image)
    } else {
        proof {
            lemma_fitted_box(width, height, max);
        }
        image_into_rgba(image_thumbnail(&image, thumb_width, thumb_height))
    };
    RgbaPixels { width: w, height: h, raw }
}

/// Original image dimensions plus a decoded RGBA thumbnail for previewing.
#[derive(Debug, Clone)]
pub struct ImageInfo {
    /// Original pixel width.
    pub width: u32,
    /// Original pixel height.
    pub height: u32,
    pub thumb_width: usize,
    pub thumb_height: usize,
    /// `thumb_width * thumb_height * 4` bytes, row-major RGBA.
    pub thumb_rgba: Vec<u8>,
}

/// The edge limit `image_info` hands on: `thumb_max`, raised to 1.
pub open spec fn thumb_limit(thumb_max: u32) -> u32 {
    if thumb_max < 1 {
        1
    } else {
        thumb_max
    }
}

/// The original size of a decoded image and an RGBA thumbnail whose longest
/// edge is at most `thumb_max` (at least 1).
pub fn image_info(image: DynamicImage, thumb_max: u32) -> (info: ImageInfo)
    ensures
        (info.width, info.height) == image_size(image),
        info.thumb_width == shrunk_size(image, thumb_limit(thumb_max)).0,
        info.thumb_height == shrunk_size(image, thumb_limit(thumb_max)).1,
        fits_unchanged(image, thumb_limit(thumb_max)) ==> info.thumb_rgba@ == image_rgba(image),
        !fits_unchanged(image, thumb_limit(thumb_max)) ==> info.thumb_rgba@ == thumbnail_rgba(
            image,
            fitted(image_size(image).0, image_size(image).1, thumb_limit(thumb_max)).0,
            fitted(image_size(image).0, image_size(image).1, thumb_limit(thumb_max)).1,
        ),
        info.thumb_rgba@.len() >= 4 * info.thumb_width * info.thumb_height,
        info.thumb_width <= thumb_limit(thumb_max),
        info.thumb_height <= thumb_limit(thumb_max),
{
    let (width, height) = image_dimensions(&image);
    let limit = if thumb_max < 1 {
        1
    } else {
        thumb_max
    };
    let thumb = shrink_to_rgba(image, limit);
    ImageInfo {
        width,
        height,
        thumb_width: thumb.width as usize,
        thumb_height: thumb.height as usize,
        thumb_rgba: thumb.raw,
    }
}

} // verus!
