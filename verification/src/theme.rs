//! Colours and labels: the palette of each theme and accent, the colours
//! and text that show a response status, and byte counts for people.
use vstd::prelude::*;

use crate::num::{decimal, digit_char, digit_of, push_decimal};
use crate::settings::{Accent, Theme};
use crate::text::string_of;
use vstd::arithmetic::power2::{lemma2_to64, lemma_pow2_strictly_increases, lemma_pow2_unfold, pow2};

verus! {

/// An sRGB colour with a separate (not premultiplied) alpha.
#[derive(Clone, Copy, Debug, PartialEq, Eq, Structural)]
pub struct Rgba {
    pub r: u8,
    pub g: u8,
    pub b: u8,
    pub a: u8,
}

pub open spec fn opaque(r: u8, g: u8, b: u8) -> Rgba {
    Rgba { r, g, b, a: 255 }
}

pub open spec fn with_alpha(c: Rgba, a: u8) -> Rgba {
    Rgba { a, ..c }
}

/// An opaque colour.
pub fn rgb(r: u8, g: u8, b: u8) -> (c: Rgba)
    ensures
        c == opaque(r, g, b),
{
    Rgba { r, g, b, a: 255 }
}

/// A colour with the given alpha.
pub fn rgba(r: u8, g: u8, b: u8, a: u8) -> (c: Rgba)
    ensures
        c == (Rgba { r, g, b, a }),
{
    Rgba { r, g, b, a }
}

/// All resolved colours for one theme and accent.
#[derive(Clone, Copy, Debug, PartialEq, Eq, Structural)]
pub struct Palette {
    /// Darkest background: title bar, status bar.
    pub bg0: Rgba,
    /// Middle background: toolbar, main area.
    pub bg1: Rgba,
    /// Panel fill: text areas, inputs.
    pub bg2: Rgba,
    /// Sidebar background.
    pub side: Rgba,
    pub stroke: Rgba,
    pub stroke_soft: Rgba,
    pub text: Rgba,
    pub dim: Rgba,
    pub faint: Rgba,
    pub hover: Rgba,
    pub ok: Rgba,
    pub accent: Rgba,
    pub accent_hover: Rgba,
    pub accent_text: Rgba,
    /// The accent at about 15 % alpha: the selected file's highlight.
    pub accent_sel: Rgba,
    /// The ok colour at about 17 % alpha: the status pill's background.
    pub ok_soft: Rgba,
    pub syn_key: Rgba,
    pub syn_str: Rgba,
    pub syn_num: Rgba,
    pub syn_bool: Rgba,
    pub syn_null: Rgba,
    pub syn_punct: Rgba,
    pub syn_plain: Rgba,
}

/// The accent colour, its hover shade and the text colour on it.
pub open spec fn accent_colors(accent: Accent) -> (Rgba, Rgba, Rgba) {
    match accent {
        Accent::Blue => (opaque(59, 130, 246), opaque(90, 150, 248), opaque(255, 255, 255)),
        Accent::Green => (opaque(47, 170, 87), opaque(60, 192, 104), opaque(255, 255, 255)),
        Accent::Amber => (opaque(223, 142, 38), opaque(239, 162, 61), opaque(36, 22, 6)),
    }
}

/// The palette of a theme and an accent: the theme's colours, and the
/// accent's (its selection shade at alpha 38).
pub open spec fn palette_of(theme: Theme, accent: Accent) -> Palette {
    let (acc, acc_hov, acc_txt) = accent_colors(accent);
    let acc_sel = with_alpha(acc, 38);
    match theme {
        Theme::Dark => Palette {
            bg0: opaque(19, 21, 26),
            bg1: opaque(27, 30, 36),
            bg2: opaque(20, 22, 27),
            side: opaque(24, 27, 32),
            stroke: opaque(43, 49, 59),
            stroke_soft: opaque(35, 39, 47),
            text: opaque(214, 217, 224),
            dim: opaque(138, 144, 156),
            faint: opaque(91, 97, 109),
            hover: Rgba { r: 200, g: 200, b: 200, a: 13 },
            ok: opaque(76, 195, 138),
            ok_soft: Rgba { r: 76, g: 195, b: 138, a: 43 },
            accent: acc,
            accent_hover: acc_hov,
            accent_text: acc_txt,
            accent_sel: acc_sel,
            syn_key: opaque(122, 162, 247),
            syn_str: opaque(158, 206, 106),
            syn_num: opaque(224, 175, 104),
            syn_bool: opaque(187, 154, 247),
            syn_null: opaque(187, 154, 247),
            syn_punct: opaque(107, 114, 128),
            syn_plain: opaque(138, 144, 156),
        },
        Theme::Light => Palette {
            bg0: opaque(232, 234, 237),
            bg1: opaque(245, 246, 248),
            bg2: opaque(255, 255, 255),
            side: opaque(238, 240, 243),
            stroke: opaque(215, 219, 225),
            stroke_soft: opaque(228, 231, 235),
            text: opaque(35, 39, 46),
            dim: opaque(100, 107, 118),
            faint: opaque(154, 161, 171),
            hover: Rgba { r: 0, g: 0, b: 0, a: 13 },
            ok: opaque(46, 158, 99),
            ok_soft: Rgba { r: 46, g: 158, b: 99, a: 43 },
            accent: acc,
            accent_hover: acc_hov,
            accent_text: acc_txt,
            accent_sel: acc_sel,
            syn_key: opaque(47, 111, 179),
            syn_str: opaque(47, 133, 90),
            syn_num: opaque(176, 111, 26),
            syn_bool: opaque(124, 77, 219),
            syn_null: opaque(124, 77, 219),
            syn_punct: opaque(139, 148, 160),
            syn_plain: opaque(100, 107, 118),
        },
    }
}

/// A palette is its theme's colours and its accent's: another accent
/// changes only the four accent colours, which are the same in every
/// theme, and the selection shade is the accent at alpha 38.
pub proof fn lemma_palette_parts(t1: Theme, a1: Accent, t2: Theme, a2: Accent)
    ensures
        palette_of(t1, a2) == (Palette {
            accent: palette_of(t2, a2).accent,
            accent_hover: palette_of(t2, a2).accent_hover,
            accent_text: palette_of(t2, a2).accent_text,
            accent_sel: palette_of(t2, a2).accent_sel,
            ..palette_of(t1, a1)
        }),
        palette_of(t1, a1).accent_sel == with_alpha(palette_of(t1, a1).accent, 38),
{
}

/// The sum of a colour's red, green and blue: how light it is, roughly.
pub open spec fn lightness(c: Rgba) -> int {
    c.r + c.g + c.b
}

/// In every palette the window chrome (`bg0`) is the darkest background:
/// no lighter than the main area, the panels or the sidebar.
pub proof fn lemma_bg0_darkest(theme: Theme, accent: Accent)
    ensures
        lightness(palette_of(theme, accent).bg0) <= lightness(palette_of(theme, accent).bg1),
        lightness(palette_of(theme, accent).bg0) <= lightness(palette_of(theme, accent).bg2),
        lightness(palette_of(theme, accent).bg0) <= lightness(palette_of(theme, accent).side),
{
}

/// The palette of a theme and an accent (see `palette_of`).
pub fn palette(theme: Theme, accent: Accent) -> (p: Palette)
    ensures
        p == palette_of(theme, accent),
{
    let (acc, acc_hov, acc_txt) = match accent {
        Accent::Blue => (rgb(59, 130, 246), rgb(90, 150, 248), rgb(255, 255, 255)),
        Accent::Green => (rgb(47, 170, 87), rgb(60, 192, 104), rgb(255, 255, 255)),
        Accent::Amber => (rgb(223, 142, 38), rgb(239, 162, 61), rgb(36, 22, 6)),
    };
    let acc_sel = rgba(acc.r, acc.g, acc.b, 38);
    match theme {
        Theme::Dark => Palette {
            bg0: rgb(19, 21, 26),
            bg1: rgb(27, 30, 36),
            bg2: rgb(20, 22, 27),
            side: rgb(24, 27, 32),
            stroke: rgb(43, 49, 59),
            stroke_soft: rgb(35, 39, 47),
            text: rgb(214, 217, 224),
            dim: rgb(138, 144, 156),
            faint: rgb(91, 97, 109),
            hover: rgba(200, 200, 200, 13),
            ok: rgb(76, 195, 138),
            ok_soft: rgba(76, 195, 138, 43),
            accent: acc,
            accent_hover: acc_hov,
            accent_text: acc_txt,
            accent_sel: acc_sel,
            syn_key: rgb(122, 162, 247),
            syn_str: rgb(158, 206, 106),
            syn_num: rgb(224, 175, 104),
            syn_bool: rgb(187, 154, 247),
            syn_null: rgb(187, 154, 247),
            syn_punct: rgb(107, 114, 128),
            syn_plain: rgb(138, 144, 156),
        },
        Theme::Light => Palette {
            bg0: rgb(232, 234, 237),
            bg1: rgb(245, 246, 248),
            bg2: rgb(255, 255, 255),
            side: rgb(238, 240, 243),
            stroke: rgb(215, 219, 225),
            stroke_soft: rgb(228, 231, 235),
            text: rgb(35, 39, 46),
            dim: rgb(100, 107, 118),
            faint: rgb(154, 161, 171),
            hover: rgba(0, 0, 0, 13),
            ok: rgb(46, 158, 99),
            ok_soft: rgba(46, 158, 99, 43),
            accent: acc,
            accent_hover: acc_hov,
            accent_text: acc_txt,
            accent_sel: acc_sel,
            syn_key: rgb(47, 111, 179),
            syn_str: rgb(47, 133, 90),
            syn_num: rgb(176, 111, 26),
            syn_bool: rgb(124, 77, 219),
            syn_null: rgb(124, 77, 219),
            syn_punct: rgb(139, 148, 160),
            syn_plain: rgb(100, 107, 118),
        },
    }
}

// ── Status ──────────────────────────────────────────────────────────────────

pub open spec fn redirect_color() -> Rgba {
    opaque(224, 175, 104)
}

pub open spec fn error_color() -> Rgba {
    opaque(229, 86, 74)
}

/// The colour of a status code: success, redirect, client or server error,
/// and anything else (no response) dim.
pub open spec fn status_color_of(status: u16, pal: Palette) -> Rgba {
    if 200 <= status <= 299 {
        pal.ok
    } else if 300 <= status <= 399 {
        redirect_color()
    } else if 400 <= status <= 599 {
        error_color()
    } else {
        pal.dim
    }
}

/// The colour of a status code (see `status_color_of`).
pub fn status_color(status: u16, pal: &Palette) -> (c: Rgba)
    ensures
        c == status_color_of(status, *pal),
{
    if 200 <= status && status <= 299 {
        pal.ok
    } else if 300 <= status && status <= 399 {
        rgb(224, 175, 104)
    } else if 400 <= status && status <= 599 {
        rgb(229, 86, 74)
    } else {
        pal.dim
    }
}

/// The text and fill colours of the status pill: the status colour, and
/// the same at alpha 43 (for success, the palette's soft ok colour); for
/// no status, dim text on a transparent fill.
pub open spec fn status_chip_of(status: u16, pal: Palette) -> (Rgba, Rgba) {
    if 200 <= status <= 299 {
        (pal.ok, pal.ok_soft)
    } else if 300 <= status <= 399 {
        (redirect_color(), with_alpha(redirect_color(), 43))
    } else if 400 <= status <= 599 {
        (error_color(), with_alpha(error_color(), 43))
    } else {
        (pal.dim, Rgba { r: 0, g: 0, b: 0, a: 0 })
    }
}

/// The text and fill colours of the status pill (see `status_chip_of`).
pub fn status_chip_colors(status: u16, pal: &Palette) -> (c: (Rgba, Rgba))
    ensures
        c == status_chip_of(status, *pal),
{
    if 200 <= status && status <= 299 {
        (pal.ok, pal.ok_soft)
    } else if 300 <= status && status <= 399 {
        (rgb(224, 175, 104), rgba(224, 175, 104, 43))
    } else if 400 <= status && status <= 599 {
        (rgb(229, 86, 74), rgba(229, 86, 74, 43))
    } else {
        (pal.dim, rgba(0, 0, 0, 0))
    }
}

/// The status pill shows its text in the status colour, for every status;
/// every client or server error (400 to 599) gets the error red on the same
/// red at alpha 43, and every success the palette's ok colours.
pub proof fn lemma_status_pill(status: u16, pal: Palette)
    ensures
        status_chip_of(status, pal).0 == status_color_of(status, pal),
        400 <= status <= 599 ==> status_chip_of(status, pal) == (
            Rgba { r: 229, g: 86, b: 74, a: 255 },
            Rgba { r: 229, g: 86, b: 74, a: 43 },
        ),
        200 <= status <= 299 ==> status_chip_of(status, pal) == (pal.ok, pal.ok_soft),
        300 <= status <= 399 ==> status_chip_of(status, pal).1 == with_alpha(
            status_chip_of(status, pal).0,
            43,
        ),
{
}

/// The reason phrase shown after the codes the app names; empty for others.
pub open spec fn reason_of(status: u16) -> Seq<char> {
    if status == 200 {
        seq!['O', 'K']
    } else if status == 201 {
        seq!['C', 'r', 'e', 'a', 't', 'e', 'd']
    } else if status == 204 {
        seq!['N', 'o', ' ', 'C', 'o', 'n', 't', 'e', 'n', 't']
    } else if status == 301 {
        seq!['M', 'o', 'v', 'e', 'd']
    } else if status == 302 {
        seq!['F', 'o', 'u', 'n', 'd']
    } else if status == 304 {
        seq!['N', 'o', 't', ' ', 'M', 'o', 'd', 'i', 'f', 'i', 'e', 'd']
    } else if status == 400 {
        seq!['B', 'a', 'd', ' ', 'R', 'e', 'q', 'u', 'e', 's', 't']
    } else if status == 401 {
        seq!['U', 'n', 'a', 'u', 't', 'h', 'o', 'r', 'i', 'z', 'e', 'd']
    } else if status == 403 {
        seq!['F', 'o', 'r', 'b', 'i', 'd', 'd', 'e', 'n']
    } else if status == 404 {
        seq!['N', 'o', 't', ' ', 'F', 'o', 'u', 'n', 'd']
    } else if status == 405 {
        seq!['M', 'e', 't', 'h', 'o', 'd', ' ', 'N', 'o', 't', ' ', 'A', 'l', 'l', 'o', 'w', 'e', 'd']
    } else if status == 500 {
        seq!['S', 'e', 'r', 'v', 'e', 'r', ' ', 'E', 'r', 'r', 'o', 'r']
    } else if status == 502 {
        seq!['B', 'a', 'd', ' ', 'G', 'a', 't', 'e', 'w', 'a', 'y']
    } else if status == 503 {
        seq!['U', 'n', 'a', 'v', 'a', 'i', 'l', 'a', 'b', 'l', 'e']
    } else {
        Seq::empty()
    }
}

fn reason_chars(status: u16) -> (r: Vec<char>)
    ensures
        r@ == reason_of(status),
{
    if status == 200 {
        vec!['O', 'K']
    } else if status == 201 {
        vec!['C', 'r', 'e', 'a', 't', 'e', 'd']
    } else if status == 204 {
        vec!['N', 'o', ' ', 'C', 'o', 'n', 't', 'e', 'n', 't']
    } else if status == 301 {
        vec!['M', 'o', 'v', 'e', 'd']
    } else if status == 302 {
        vec!['F', 'o', 'u', 'n', 'd']
    } else if status == 304 {
        vec!['N', 'o', 't', ' ', 'M', 'o', 'd', 'i', 'f', 'i', 'e', 'd']
    } else if status == 400 {
        vec!['B', 'a', 'd', ' ', 'R', 'e', 'q', 'u', 'e', 's', 't']
    } else if status == 401 {
        vec!['U', 'n', 'a', 'u', 't', 'h', 'o', 'r', 'i', 'z', 'e', 'd']
    } else if status == 403 {
        vec!['F', 'o', 'r', 'b', 'i', 'd', 'd', 'e', 'n']
    } else if status == 404 {
        vec!['N', 'o', 't', ' ', 'F', 'o', 'u', 'n', 'd']
    } else if status == 405 {
        vec!['M', 'e', 't', 'h', 'o', 'd', ' ', 'N', 'o', 't', ' ', 'A', 'l', 'l', 'o', 'w', 'e', 'd']
    } else if status == 500 {
        vec!['S', 'e', 'r', 'v', 'e', 'r', ' ', 'E', 'r', 'r', 'o', 'r']
    } else if status == 502 {
        vec!['B', 'a', 'd', ' ', 'G', 'a', 't', 'e', 'w', 'a', 'y']
    } else if status == 503 {
        vec!['U', 'n', 'a', 'v', 'a', 'i', 'l', 'a', 'b', 'l', 'e']
    } else {
        Vec::new()
    }
}

/// The status code, and its reason phrase after a space when it has one.
pub open spec fn status_text(status: u16) -> Seq<char> {
    if reason_of(status).len() == 0 {
        decimal(status as nat)
    } else {
        decimal(status as nat) + seq![' '] + reason_of(status)
    }
}

/// The label of a status code (see `status_text`), such as `404 Not Found`.
pub fn status_label(status: u16) -> (s: String)
    ensures
        s@ == status_text(status),
{
    let mut v: Vec<char> = Vec::new();
    push_decimal(&mut v, status as u64);
    assert(v@ == decimal(status as nat));
    let mut reason = reason_chars(status);
    if reason.len() > 0 {
        v.push(' ');
        v.append(&mut reason);
    }
    string_of(v.as_slice())
}

// ── Byte counts ─────────────────────────────────────────────────────────────

/// `num / den` rounded to the nearest integer, ties to the even one.
pub open spec fn round_half_even(num: nat, den: nat) -> nat
    recommends
        den > 0,
{
    let q = num / den;
    let r = num % den;
    if 2 * r > den {
        q + 1
    } else if 2 * r < den {
        q
    } else if q % 2 == 0 {
        q
    } else {
        q + 1
    }
}

/// The number of binary digits of `n` (0 for 0).
pub open spec fn bit_len(n: nat) -> nat
    decreases n,
{
    if n == 0 {
        0
    } else {
        1 + bit_len(n / 2)
    }
}

/// The value of `n as f64`: `n` rounded to 53 significant bits, ties to
/// even.
pub open spec fn as_f64(n: nat) -> nat {
    if bit_len(n) <= 53 {
        n
    } else {
        let u = pow2((bit_len(n) - 53) as nat);
        round_half_even(n, u) * u
    }
}

/// A number of tenths written with one decimal, as `{:.1}` writes it.
pub open spec fn tenths_text(t: nat) -> Seq<char> {
    decimal(t / 10) + seq!['.', digit_char(t % 10)]
}

/// A byte count for people, as the app shows it: bytes below 1 KiB, else
/// KiB below 1 MiB, else MiB, the latter two with one decimal, rounded to
/// nearest with ties to even (the count goes through `f64`, which matters
/// only above 2^53).
pub open spec fn human_bytes_text(n: nat) -> Seq<char> {
    if n < 1024 {
        decimal(n) + seq![' ', 'B']
    } else if n < 1048576 {
        tenths_text(round_half_even(n * 10, 1024)) + seq![' ', 'K', 'B']
    } else {
        tenths_text(round_half_even(as_f64(n) * 10, 1048576)) + seq![' ', 'M', 'B']
    }
}

fn round_half_even_exec(num: u128, den: u128) -> (r: u128)
    requires
        den > 0,
        num < u128::MAX,
    ensures
        r == round_half_even(num as nat, den as nat),
{
    let q = num / den;
    let rem = num % den;
    assert(q <= num) by (nonlinear_arith)
        requires
            den > 0,
            q == num / den,
    ;
    assert(rem < den);
    if rem > den - rem {
        q + 1
    } else if rem < den - rem {
        q
    } else if q % 2 == 0 {
        q
    } else {
        q + 1
    }
}

fn push_tenths(out: &mut Vec<char>, t: u64)
    ensures
        final(out)@ == old(out)@ + tenths_text(t as nat),
{
    push_decimal(out, t / 10);
    out.push('.');
    out.push(digit_of(t % 10));
    assert(final(out)@ =~= old(out)@ + tenths_text(t as nat));
}

proof fn lemma_bit_len_bound(n: nat, k: nat)
    requires
        n < pow2(k),
    ensures
        bit_len(n) <= k,
    decreases k,
{
    if n > 0 {
        if k == 0 {
            lemma2_to64();
        } else {
            lemma_pow2_unfold(k);
            lemma_bit_len_bound(n / 2, (k - 1) as nat);
        }
    }
}

/// `n as f64`, as an integer (see `as_f64`).
fn f64_value(n: u64) -> (f: u128)
    ensures
        f == as_f64(n as nat),
        f <= 0x1_0000_0000_0000_0800,
{
    let mut b: u64 = 0;
    let mut x: u64 = n;
    proof {
        lemma2_to64();
    }
    while x > 0
        invariant
            b + bit_len(x as nat) == bit_len(n as nat),
            b <= 64,
            x as nat * pow2(b as nat) <= n as nat,
        decreases x,
    {
        proof {
            lemma_pow2_unfold((b + 1) as nat);
            assert(pow2((b + 1) as nat) == 2 * pow2(b as nat));
            assert((x / 2) as nat * pow2((b + 1) as nat) <= x as nat * pow2(b as nat)) by (nonlinear_arith)
                requires
                    pow2((b + 1) as nat) == 2 * pow2(b as nat),
            ;
            if b == 64 {
                lemma2_to64();
                assert(x as nat * pow2(b as nat) >= pow2(64)) by (nonlinear_arith)
                    requires
                        x >= 1,
                        b == 64,
                ;
            }
        }
        x = x / 2;
        b = b + 1;
    }
    proof {
        lemma2_to64();
        lemma_bit_len_bound(n as nat, 64);
    }
    if b <= 53 {
        return n as u128;
    }
    let mut u: u128 = 1;
    let mut k: u64 = 0;
    while k < b - 53
        invariant
            53 < b <= 64,
            k <= b - 53,
            u == pow2(k as nat),
            u <= 2048,
        decreases b - 53 - k,
    {
        proof {
            lemma_pow2_unfold((k + 1) as nat);
            lemma_pow2_small((k + 1) as nat);
        }
        u = u * 2;
        k = k + 1;
    }
    let r = round_half_even_exec(n as u128, u);
    proof {
        let q = n as nat / u as nat;
        assert(r <= q + 1);
        assert((q + 1) * u <= n as nat + u) by (nonlinear_arith)
            requires
                u > 0,
                q == n as nat / u as nat,
        ;
        assert(r * u <= (q + 1) * u) by (nonlinear_arith)
            requires
                r <= q + 1,
                u > 0,
        ;
    }
    r * u
}

proof fn lemma_pow2_small(k: nat)
    requires
        k <= 11,
    ensures
        pow2(k) <= 2048,
    decreases k,
{
    lemma2_to64();
    if k < 11 {
        lemma_pow2_strictly_increases(k, 11);
    }
}

/// A byte count for people (see `human_bytes_text`).
pub fn human_bytes(n: usize) -> (s: String)
    ensures
        s@ == human_bytes_text(n as nat),
{
    let mut v: Vec<char> = Vec::new();
    if n < 1024 {
        push_decimal(&mut v, n as u64);
        v.push(' ');
        v.push('B');
        assert(v@ =~= human_bytes_text(n as nat));
    } else if n < 1048576 {
        let t = round_half_even_exec((n as u128) * 10, 1024);
        assert(t < 0x1_0000_0000) by {
            let num = (n as nat) * 10;
            assert(num / 1024 <= num) by (nonlinear_arith);
        }
        push_tenths(&mut v, t as u64);
        v.push(' ');
        v.push('K');
        v.push('B');
        assert(v@ =~= human_bytes_text(n as nat));
    } else {
        let f = f64_value(n as u64);
        let t = round_half_even_exec(f * 10, 1048576);
        assert(t < 0x1_0000_0000_0000_0000) by {
            let num = (f as nat) * 10;
            assert(num / 1048576 <= num / 1048576);
            assert(num / 1048576 < 0x1_0000_0000_0000_0000 - 1) by (nonlinear_arith)
                requires
                    num <= 10 * 0x1_0000_0000_0000_0800,
            ;
        }
        push_tenths(&mut v, t as u64);
        v.push(' ');
        v.push('M');
        v.push('B');
        assert(v@ =~= human_bytes_text(n as nat));
    }
    string_of(v.as_slice())
}

} // verus!
