use vstd::prelude::*;

verus! {

// ---------------------------------------------------------------------------
// Grayscale
// ---------------------------------------------------------------------------

/// Luminance of one RGB pixel: the weighted sum
/// `0.2126*r + 0.7152*g + 0.0722*b`, computed exactly over integers and
/// truncated (the weights sum to one, so the result is at most 255).
pub open spec fn luma_of(r: u8, g: u8, b: u8) -> u8 {
    ((2126 * r + 7152 * g + 722 * b) / 10000) as u8
}

/// The grayscale image of an RGB byte sequence: one luminance byte per
/// three-byte pixel.
pub open spec fn gray_seq(s: Seq<u8>) -> Seq<u8> {
    Seq::new((s.len() / 3) as nat, |i: int| luma_of(s[3 * i], s[3 * i + 1], s[3 * i + 2]))
}

/// Converts an RGB buffer to grayscale, one byte per pixel.
pub fn rgb_to_grayscale(bytes: &Vec<u8>) -> (out: Vec<u8>)
    requires
        bytes@.len() % 3 == 0,
    ensures
        out@ == gray_seq(bytes@),
{
    let n = bytes.len() / 3;
    let mut out: Vec<u8> = Vec::new();
    let mut i: usize = 0;
    while i < n
        invariant
            bytes@.len() % 3 == 0,
            n == bytes@.len() / 3,
            i <= n,
            out@.len() == i,
            forall|j: int|
                0 <= j < i ==> out@[j] == luma_of(
                    bytes@[3 * j],
                    bytes@[3 * j + 1],
                    bytes@[3 * j + 2],
                ),
        decreases n - i,
    {
        proof {
            vstd::arithmetic::div_mod::lemma_fundamental_div_mod(bytes@.len() as int, 3);
            assert(bytes@.len() == bytes.len());
            assert(3 * (i as int) + 2 < bytes@.len());
        }
        let r = bytes[3 * i];
        let g = bytes[3 * i + 1];
        let b = bytes[3 * i + 2];
        let w: u32 = 2126 * (r as u32) + 7152 * (g as u32) + 722 * (b as u32);
        let y: u32 = w / 10000;
        assert(y <= 255);
        out.push(y as u8);
        i = i + 1;
    }
    proof {
        assert(out@ =~= gray_seq(bytes@));
    }
    out
}

// ---------------------------------------------------------------------------
// Channel swap
// ---------------------------------------------------------------------------

/// RGB to BGR: within each three-byte pixel the first and third bytes trade
/// places and the middle byte stays.
pub open spec fn bgr_seq(s: Seq<u8>) -> Seq<u8> {
    Seq::new(
        s.len(),
        |i: int|
            if i % 3 == 0 {
                s[i + 2]
            } else if i % 3 == 2 {
                s[i - 2]
            } else {
                s[i]
            },
    )
}

/// Reorders each RGB pixel to BGR.
pub fn rgb_to_bgr(bytes: &Vec<u8>) -> (out: Vec<u8>)
    requires
        bytes@.len() % 3 == 0,
    ensures
        out@ == bgr_seq(bytes@),
{
    let n = bytes.len() / 3;
    let mut out: Vec<u8> = Vec::new();
    let mut i: usize = 0;
    while i < n
        invariant
            bytes@.len() % 3 == 0,
            n == bytes@.len() / 3,
            i <= n,
            out@.len() == 3 * i,
            forall|j: int| 0 <= j < 3 * i ==> out@[j] == bgr_seq(bytes@)[j],
        decreases n - i,
    {
        proof {
            vstd::arithmetic::div_mod::lemma_fundamental_div_mod(bytes@.len() as int, 3);
            assert(bytes@.len() == bytes.len());
            assert(3 * (i as int) + 2 < bytes@.len());
        }
        let r = bytes[3 * i];
        let g = bytes[3 * i + 1];
        let b = bytes[3 * i + 2];
        out.push(b);
        out.push(g);
        out.push(r);
        proof {
            assert forall|j: int| 0 <= j < 3 * (i + 1) implies out@[j] == bgr_seq(bytes@)[j] by {
                if j >= 3 * i {
                    assert((3 * (j / 3)) % 3 == 0) by (nonlinear_arith);
                    assert(j == 3 * i || j == 3 * i + 1 || j == 3 * i + 2);
                    assert((3 * i) % 3 == 0 && (3 * i + 1) % 3 == 1 && (3 * i + 2) % 3 == 2)
                        by (nonlinear_arith);
                }
            }
        }
        i = i + 1;
    }
    proof {
        assert(out@ =~= bgr_seq(bytes@));
    }
    out
}

/// Swapping channels twice restores every byte: RGB to BGR is an involution.
pub proof fn lemma_bgr_involution(s: Seq<u8>)
    requires
        s.len() % 3 == 0,
    ensures
        bgr_seq(bgr_seq(s)) == s,
{
    assert forall|i: int| 0 <= i < s.len() implies bgr_seq(bgr_seq(s))[i] == s[i] by {
        if i % 3 == 0 {
            assert((i + 2) % 3 == 2) by (nonlinear_arith)
                requires i % 3 == 0;
            assert(i + 2 < s.len()) by (nonlinear_arith)
                requires s.len() % 3 == 0 && i % 3 == 0 && 0 <= i < s.len();
        } else if i % 3 == 2 {
            assert((i - 2) % 3 == 0) by (nonlinear_arith)
                requires i % 3 == 2;
        }
    }
    assert(bgr_seq(bgr_seq(s)) =~= s);
}

// ---------------------------------------------------------------------------
// Binarization
// ---------------------------------------------------------------------------

/// Thresholding: every byte below `t` becomes 0, every other byte 255.
pub open spec fn binarize_seq(s: Seq<u8>, t: u8) -> Seq<u8> {
    Seq::new(
        s.len(),
        |i: int|
            if s[i] < t {
                0u8
            } else {
                255u8
            },
    )
}

/// Binarizes a grayscale buffer at the given threshold.
pub fn binarize_bytes(bytes: &Vec<u8>, threshold: u8) -> (out: Vec<u8>)
    ensures
        out@ == binarize_seq(bytes@, threshold),
{
    let mut out: Vec<u8> = Vec::new();
    let mut i: usize = 0;
    while i < bytes.len()
        invariant
            i <= bytes@.len(),
            out@.len() == i,
            forall|j: int| 0 <= j < i ==> out@[j] == binarize_seq(bytes@, threshold)[j],
        decreases bytes@.len() - i,
    {
        let v = bytes[i];
        if v < threshold {
            out.push(0);
        } else {
            out.push(255);
        }
        i = i + 1;
    }
    proof {
        assert(out@ =~= binarize_seq(bytes@, threshold));
    }
    out
}

/// A binarized buffer holds no value besides 0 and 255.
pub proof fn lemma_binarize_two_valued(s: Seq<u8>, t: u8)
    ensures
        forall|i: int|
            0 <= i < s.len() ==> (binarize_seq(s, t)[i] == 0 || binarize_seq(s, t)[i] == 255),
{
}

/// Binarizing is idempotent: running it again over an already binarized
/// buffer, at the same or a lower threshold, changes nothing — provided the
/// second threshold is at least 1, or the first was 0 (a threshold of 0
/// turns a produced 0 byte back into 255, so that corner is left out).
pub proof fn lemma_binarize_idempotent(s: Seq<u8>, t1: u8, t2: u8)
    requires
        t2 <= t1,
        t2 >= 1 || t1 == 0,
    ensures
        binarize_seq(binarize_seq(s, t1), t2) == binarize_seq(s, t1),
{
    assert(binarize_seq(binarize_seq(s, t1), t2) =~= binarize_seq(s, t1));
}

// ---------------------------------------------------------------------------
// Hue / saturation / value
// ---------------------------------------------------------------------------

/// A pixel in hue/saturation/value form, held exactly in integers.
///
/// With channels normalized to `[0, 1]`, the value is `val/255`, the
/// saturation (value minus minimum channel) is `sat/255`, and the hue in
/// degrees is the exact rational `hue_num / sat` (0 when `sat` is 0), so
/// `hue_num < 360 * sat` states that the hue lies in `[0, 360)`.
#[derive(Clone, Copy, PartialEq, Eq, Structural, Debug)]
pub struct Hsv {
    pub hue_num: u32,
    pub sat: u8,
    pub val: u8,
}

impl Hsv {
    /// Saturation is at most the value, and the hue is a degree in `[0, 360)`.
    pub open spec fn wf(self) -> bool {
        &&& self.sat <= self.val
        &&& if self.sat == 0 {
            self.hue_num == 0
        } else {
            self.hue_num < 360 * self.sat
        }
    }
}

/// Largest of three channel bytes.
pub open spec fn max3(r: u8, g: u8, b: u8) -> u8 {
    if r >= g && r >= b {
        r
    } else if g >= b {
        g
    } else {
        b
    }
}

/// Smallest of three channel bytes.
pub open spec fn min3(r: u8, g: u8, b: u8) -> u8 {
    if r <= g && r <= b {
        r
    } else if g <= b {
        g
    } else {
        b
    }
}

/// The hue of an RGB pixel, scaled by the saturation byte: the standard
/// six-region piecewise formula, picked by which channel is the minimum.
/// With `s` the saturation byte, the hue in degrees is this value over `s`.
pub open spec fn hue_num_of(r: u8, g: u8, b: u8) -> int {
    let s = max3(r, g, b) - min3(r, g, b);
    if s == 0 {
        0
    } else if b == min3(r, g, b) {
        60 * (g - r) + 60 * s
    } else if r == min3(r, g, b) {
        60 * (b - g) + 180 * s
    } else {
        60 * (r - b) + 300 * s
    }
}

/// The hue/saturation/value form of an RGB pixel.
pub open spec fn hsv_of_rgb(r: u8, g: u8, b: u8) -> Hsv {
    Hsv {
        hue_num: hue_num_of(r, g, b) as u32,
        sat: (max3(r, g, b) - min3(r, g, b)) as u8,
        val: max3(r, g, b),
    }
}

/// `max3` and `min3` bound all three channels and are each one of them.
pub proof fn lemma_max3_min3(r: u8, g: u8, b: u8)
    ensures
        max3(r, g, b) >= r && max3(r, g, b) >= g && max3(r, g, b) >= b,
        min3(r, g, b) <= r && min3(r, g, b) <= g && min3(r, g, b) <= b,
        max3(r, g, b) == r || max3(r, g, b) == g || max3(r, g, b) == b,
        min3(r, g, b) == r || min3(r, g, b) == g || min3(r, g, b) == b,
{
}

/// The conversion to hue/saturation/value yields a well-formed sample, and
/// its hue numerator is the piecewise formula, unchanged by the cast.
pub proof fn lemma_hsv_of_rgb_wf(r: u8, g: u8, b: u8)
    ensures
        hsv_of_rgb(r, g, b).wf(),
        hsv_of_rgb(r, g, b).hue_num == hue_num_of(r, g, b),
        0 <= hue_num_of(r, g, b),
{
    lemma_max3_min3(r, g, b);
}

/// Hue rotated by a half circle: `h + 180` degrees, reduced modulo 360.
/// Saturation and value are kept.
pub open spec fn hue_rotated(p: Hsv) -> Hsv {
    if p.sat == 0 {
        p
    } else if p.hue_num < 180 * p.sat {
        Hsv { hue_num: (p.hue_num + 180 * p.sat) as u32, sat: p.sat, val: p.val }
    } else {
        Hsv { hue_num: (p.hue_num - 180 * p.sat) as u32, sat: p.sat, val: p.val }
    }
}

/// Rotating the hue keeps the sample well formed.
pub proof fn lemma_hue_rotated_wf(p: Hsv)
    requires
        p.wf(),
    ensures
        hue_rotated(p).wf(),
{
}

/// The byte contribution of the varying channel in the reconstruction of an
/// RGB pixel: `255 * x` where `x = s * (1 - |h/60 mod 2 - 1|)` in normalized
/// terms, written per sixth of the circle so that every division is by the
/// constant 60. `h` is the hue numerator, `s` the saturation byte.
pub open spec fn sector_x255(h: int, s: int) -> int {
    if h < 60 * s {
        h / 60
    } else if h < 120 * s {
        (120 * s - h) / 60
    } else if h < 180 * s {
        (h - 120 * s) / 60
    } else if h < 240 * s {
        (240 * s - h) / 60
    } else if h < 300 * s {
        (h - 240 * s) / 60
    } else {
        (360 * s - h) / 60
    }
}

/// The RGB pixel of a hue/saturation/value sample: the minimum channel is
/// `val - sat`, the maximum is `val`, and the remaining channel interpolates
/// by the position of the hue within its sixth of the circle.
pub open spec fn rgb_of_hsv(p: Hsv) -> (u8, u8, u8) {
    let s = p.sat as int;
    let h = p.hue_num as int;
    let v = p.val;
    let mn = (p.val - p.sat) as u8;
    if p.sat == 0 {
        (v, v, v)
    } else {
        let x = (p.val - p.sat + sector_x255(h, s)) as u8;
        if h < 60 * s {
            (v, x, mn)
        } else if h < 120 * s {
            (x, v, mn)
        } else if h < 180 * s {
            (mn, v, x)
        } else if h < 240 * s {
            (mn, x, v)
        } else if h < 300 * s {
            (x, mn, v)
        } else {
            (v, mn, x)
        }
    }
}

/// Exact division by 60: the quotient of `60 * k` is `k`.
proof fn lemma_div60(h: int, k: int)
    requires
        h == 60 * k,
        0 <= k,
    ensures
        h / 60 == k,
{
    vstd::arithmetic::div_mod::lemma_fundamental_div_mod_converse(h, 60, k, 0);
}

/// The varying channel's contribution never leaves `[0, sat]`, so every
/// reconstructed channel lies between the minimum channel and the value.
pub proof fn lemma_sector_x255_bounds(h: int, s: int)
    requires
        1 <= s,
        0 <= h < 360 * s,
    ensures
        0 <= sector_x255(h, s) <= s,
{
    vstd::arithmetic::div_mod::lemma_fundamental_div_mod(h, 60);
    vstd::arithmetic::div_mod::lemma_fundamental_div_mod(120 * s - h, 60);
    vstd::arithmetic::div_mod::lemma_fundamental_div_mod(h - 120 * s, 60);
    vstd::arithmetic::div_mod::lemma_fundamental_div_mod(240 * s - h, 60);
    vstd::arithmetic::div_mod::lemma_fundamental_div_mod(h - 240 * s, 60);
    vstd::arithmetic::div_mod::lemma_fundamental_div_mod(360 * s - h, 60);
    vstd::arithmetic::div_mod::lemma_mod_bound(h, 60);
    vstd::arithmetic::div_mod::lemma_mod_bound(120 * s - h, 60);
    vstd::arithmetic::div_mod::lemma_mod_bound(h - 120 * s, 60);
    vstd::arithmetic::div_mod::lemma_mod_bound(240 * s - h, 60);
    vstd::arithmetic::div_mod::lemma_mod_bound(h - 240 * s, 60);
    vstd::arithmetic::div_mod::lemma_mod_bound(360 * s - h, 60);
}

impl Hsv {
    /// Converts one RGB pixel to hue/saturation/value form.
    pub fn from_rgb(r: u8, g: u8, b: u8) -> (p: Hsv)
        ensures
            p == hsv_of_rgb(r, g, b),
            p.wf(),
    {
        let v: u8 = if r >= g && r >= b {
            r
        } else if g >= b {
            g
        } else {
            b
        };
        let mn: u8 = if r <= g && r <= b {
            r
        } else if g <= b {
            g
        } else {
            b
        };
        proof {
            lemma_max3_min3(r, g, b);
            lemma_hsv_of_rgb_wf(r, g, b);
        }
        let s: u8 = v - mn;
        let hue: u32 = if s == 0 {
            0
        } else if b == mn {
            60 * (g as u32) + 60 * (s as u32) - 60 * (r as u32)
        } else if r == mn {
            60 * (b as u32) + 180 * (s as u32) - 60 * (g as u32)
        } else {
            60 * (r as u32) + 300 * (s as u32) - 60 * (b as u32)
        };
        Hsv { hue_num: hue, sat: s, val: v }
    }

    /// Rotates the hue by a half circle, keeping saturation and value.
    pub fn rotate_half_circle(self) -> (p: Hsv)
        requires
            self.wf(),
        ensures
            p == hue_rotated(self),
            p.wf(),
    {
        proof {
            lemma_hue_rotated_wf(self);
        }
        if self.sat == 0 {
            self
        } else {
            let half: u32 = 180 * (self.sat as u32);
            if self.hue_num < half {
                Hsv { hue_num: self.hue_num + half, sat: self.sat, val: self.val }
            } else {
                Hsv { hue_num: self.hue_num - half, sat: self.sat, val: self.val }
            }
        }
    }

    /// Converts one hue/saturation/value sample back to an RGB pixel.
    pub fn into_rgb(self) -> (rgb: (u8, u8, u8))
        requires
            self.wf(),
        ensures
            rgb == rgb_of_hsv(self),
    {
        let s = self.sat;
        let v = self.val;
        let mn = v - s;
        let h = self.hue_num;
        if s == 0 {
            (v, v, v)
        } else {
            proof {
                lemma_sector_x255_bounds(h as int, s as int);
            }
            let s32 = s as u32;
            let x255: u32 = if h < 60 * s32 {
                h / 60
            } else if h < 120 * s32 {
                (120 * s32 - h) / 60
            } else if h < 180 * s32 {
                (h - 120 * s32) / 60
            } else if h < 240 * s32 {
                (240 * s32 - h) / 60
            } else if h < 300 * s32 {
                (h - 240 * s32) / 60
            } else {
                (360 * s32 - h) / 60
            };
            assert(x255 == sector_x255(h as int, s as int));
            let x: u8 = mn + (x255 as u8);
            if h < 60 * s32 {
                (v, x, mn)
            } else if h < 120 * s32 {
                (x, v, mn)
            } else if h < 180 * s32 {
                (mn, v, x)
            } else if h < 240 * s32 {
                (mn, x, v)
            } else if h < 300 * s32 {
                (x, mn, v)
            } else {
                (v, mn, x)
            }
        }
    }
}

/// Converting an RGB pixel to hue/saturation/value and back reproduces the
/// three bytes exactly: the integer form loses nothing.
pub proof fn lemma_hsv_round_trip_pixel(r: u8, g: u8, b: u8)
    ensures
        rgb_of_hsv(hsv_of_rgb(r, g, b)) == (r, g, b),
{
    lemma_max3_min3(r, g, b);
    lemma_hsv_of_rgb_wf(r, g, b);
    let v = max3(r, g, b) as int;
    let mn = min3(r, g, b) as int;
    let s = v - mn;
    let p = hsv_of_rgb(r, g, b);
    let h = p.hue_num as int;
    if s == 0 {
        assert(r == g && g == b);
    } else if b == min3(r, g, b) {
        if g < r {
            assert(h == 60 * (s + g - r));
            lemma_div60(h, s + g - r);
            assert(h < 60 * s);
        } else if g - r < s {
            assert(120 * s - h == 60 * (s - g + r));
            lemma_div60(120 * s - h, s - g + r);
            assert(60 * s <= h < 120 * s);
        } else {
            assert(g - r == s);
            assert(h == 120 * s);
            assert(h - 120 * s == 60 * 0);
            lemma_div60(h - 120 * s, 0);
            assert(r == mn && g == v);
        }
    } else if r == min3(r, g, b) {
        assert(b > mn);
        if b < g {
            assert(h - 120 * s == 60 * (s + b - g));
            lemma_div60(h - 120 * s, s + b - g);
            assert(120 * s <= h < 180 * s);
            assert(g == v);
        } else if b - g < s {
            assert(240 * s - h == 60 * (s - b + g));
            lemma_div60(240 * s - h, s - b + g);
            assert(180 * s <= h < 240 * s);
            assert(b == v);
        } else {
            assert(b - g == s);
            assert(h == 240 * s);
            assert(h - 240 * s == 60 * 0);
            lemma_div60(h - 240 * s, 0);
            assert(g == mn && b == v);
        }
    } else {
        assert(g == min3(r, g, b));
        assert(b > mn && r > mn);
        assert(r - b < s);
        if r < b {
            assert(h - 240 * s == 60 * (s + r - b));
            lemma_div60(h - 240 * s, s + r - b);
            assert(240 * s <= h < 300 * s);
            assert(b == v);
        } else {
            assert(360 * s - h == 60 * (s - r + b));
            lemma_div60(360 * s - h, s - r + b);
            assert(300 * s <= h < 360 * s);
            assert(r == v);
        }
    }
}

/// The hue/saturation/value sequence of an RGB byte sequence, one sample per
/// three-byte pixel.
pub open spec fn hsv_seq(s: Seq<u8>) -> Seq<Hsv> {
    Seq::new((s.len() / 3) as nat, |i: int| hsv_of_rgb(s[3 * i], s[3 * i + 1], s[3 * i + 2]))
}

/// The RGB byte sequence of a hue/saturation/value sequence: three bytes per
/// sample.
pub open spec fn rgb_flat(hs: Seq<Hsv>) -> Seq<u8> {
    Seq::new(
        (3 * hs.len()) as nat,
        |i: int|
            if i % 3 == 0 {
                rgb_of_hsv(hs[i / 3]).0
            } else if i % 3 == 1 {
                rgb_of_hsv(hs[i / 3]).1
            } else {
                rgb_of_hsv(hs[i / 3]).2
            },
    )
}

/// Every sample's hue rotated by a half circle.
pub open spec fn rotated_seq(hs: Seq<Hsv>) -> Seq<Hsv> {
    Seq::new(hs.len(), |i: int| hue_rotated(hs[i]))
}

/// Converts an RGB buffer to a vector of hue/saturation/value samples.
pub fn rgb_to_hsv(bytes: &Vec<u8>) -> (out: Vec<Hsv>)
    requires
        bytes@.len() % 3 == 0,
    ensures
        out@ == hsv_seq(bytes@),
        forall|i: int| 0 <= i < out@.len() ==> out@[i].wf(),
{
    let n = bytes.len() / 3;
    let mut out: Vec<Hsv> = Vec::new();
    let mut i: usize = 0;
    while i < n
        invariant
            bytes@.len() % 3 == 0,
            n == bytes@.len() / 3,
            i <= n,
            out@.len() == i,
            forall|j: int| 0 <= j < i ==> out@[j] == hsv_seq(bytes@)[j],
        decreases n - i,
    {
        proof {
            vstd::arithmetic::div_mod::lemma_fundamental_div_mod(bytes@.len() as int, 3);
            assert(bytes@.len() == bytes.len());
            assert(3 * (i as int) + 2 < bytes@.len());
        }
        let r = bytes[3 * i];
        let g = bytes[3 * i + 1];
        let b = bytes[3 * i + 2];
        out.push(Hsv::from_rgb(r, g, b));
        i = i + 1;
    }
    proof {
        assert(out@ =~= hsv_seq(bytes@));
        assert forall|i: int| 0 <= i < out@.len() implies out@[i].wf() by {
            lemma_hsv_of_rgb_wf(bytes@[3 * i], bytes@[3 * i + 1], bytes@[3 * i + 2]);
        }
    }
    out
}

/// Converts a vector of hue/saturation/value samples back to an RGB buffer.
pub fn hsv_to_rgb(samples: &Vec<Hsv>) -> (out: Vec<u8>)
    requires
        forall|i: int| 0 <= i < samples@.len() ==> samples@[i].wf(),
        samples@.len() * 3 <= usize::MAX,
    ensures
        out@ == rgb_flat(samples@),
{
    let n = samples.len();
    let mut out: Vec<u8> = Vec::new();
    let mut i: usize = 0;
    while i < n
        invariant
            forall|k: int| 0 <= k < samples@.len() ==> samples@[k].wf(),
            samples@.len() * 3 <= usize::MAX,
            n == samples@.len(),
            i <= n,
            out@.len() == 3 * i,
            forall|j: int| 0 <= j < 3 * i ==> out@[j] == rgb_flat(samples@)[j],
        decreases n - i,
    {
        let p = samples[i];
        let (r, g, b) = p.into_rgb();
        out.push(r);
        out.push(g);
        out.push(b);
        proof {
            assert forall|j: int| 0 <= j < 3 * (i + 1) implies out@[j] == rgb_flat(samples@)[j] by {
                if j >= 3 * i {
                    assert(j == 3 * i || j == 3 * i + 1 || j == 3 * i + 2);
                    assert((3 * i) % 3 == 0 && (3 * i) / 3 == i) by (nonlinear_arith);
                    assert((3 * i + 1) % 3 == 1 && (3 * i + 1) / 3 == i) by (nonlinear_arith);
                    assert((3 * i + 2) % 3 == 2 && (3 * i + 2) / 3 == i) by (nonlinear_arith);
                }
            }
        }
        i = i + 1;
    }
    proof {
        assert(out@ =~= rgb_flat(samples@));
    }
    out
}

/// Converting an RGB buffer to hue/saturation/value samples and back
/// reproduces the buffer exactly, byte for byte.
pub proof fn lemma_hsv_round_trip(s: Seq<u8>)
    requires
        s.len() % 3 == 0,
    ensures
        rgb_flat(hsv_seq(s)) == s,
{
    vstd::arithmetic::div_mod::lemma_fundamental_div_mod(s.len() as int, 3);
    assert(rgb_flat(hsv_seq(s)).len() == s.len());
    assert forall|i: int| 0 <= i < s.len() implies rgb_flat(hsv_seq(s))[i] == s[i] by {
        let p: int = i / 3;
        vstd::arithmetic::div_mod::lemma_fundamental_div_mod(i, 3);
        vstd::arithmetic::div_mod::lemma_mod_bound(i, 3);
        assert(0 <= p < hsv_seq(s).len());
        lemma_hsv_round_trip_pixel(s[3 * p], s[3 * p + 1], s[3 * p + 2]);
    }
    assert(rgb_flat(hsv_seq(s)) =~= s);
}

} // verus!
