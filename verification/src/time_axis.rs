//! The marks along the timeline's time axis: which milliseconds get a
//! tick, which of those get a label, and what the label reads.

use vstd::prelude::*;

use crate::decimal::{fixed, lemma_fixed_injective, lemma_rounded_near, pow10, pow10_of, push_fixed, round_half_even, rounded};
use vstd::arithmetic::power2::{lemma2_to64, lemma_pow2_adds, lemma_pow2_strictly_increases, lemma_pow2_unfold, pow2};

verus! {

/// How many decimals a label carries at a spacing of `major_ms`
/// between labels: enough to tell one from the next, and no more.
pub open spec fn label_places(major_ms: int) -> nat {
    if major_ms >= 1000 {
        0
    } else if major_ms >= 100 {
        1
    } else if major_ms >= 10 {
        2
    } else {
        3
    }
}

/// How many binary digits `n` has (`0` has none).
pub open spec fn bit_len(n: nat) -> nat
    decreases n,
{
    if n == 0 {
        0
    } else {
        1 + bit_len(n / 2)
    }
}

/// The `f32` nearest to the whole number `n`, a tie going to the even
/// one: `n` itself up to 24 binary digits, else `n` rounded to its
/// top 24.
pub open spec fn nearest_f32(n: nat) -> nat {
    if bit_len(n) <= 24 {
        n
    } else {
        let step = pow2((bit_len(n) - 24) as nat);
        round_half_even(n, step) * step
    }
}

/// The `f32` nearest to `v / 1000` for a whole `v`, a tie going to the
/// even one, counted in units of `2^-40` (every such `f32` is a whole
/// number of them): the quotient rounded to its top 24 binary digits.
pub open spec fn thousandth_f32(v: nat) -> nat {
    if v == 0 {
        0
    } else {
        let scaled = v * pow2(40);
        let step = pow2((bit_len(scaled / 1000) - 24) as nat);
        round_half_even(scaled, 1000 * step) * step
    }
}

/// The number of `10^-places` in the label at `magnitude` milliseconds:
/// the seconds as an `f32`, rounded half to even to those places.
pub open spec fn label_count(magnitude: nat, places: nat) -> nat {
    round_half_even(thousandth_f32(nearest_f32(magnitude)) * pow10(places), pow2(40))
}

/// The text of the label at `ms`: the time in seconds as an `f32` (the
/// `f32` nearest to `ms`, divided by a thousand), written with decimals
/// that follow the label spacing `major_ms` and not the value, so that
/// one row never mixes `0.5` with `1`; a negative time keeps its sign.
pub open spec fn label_text(ms: int, major_ms: int) -> Seq<char> {
    let magnitude: nat = if ms < 0 {
        (-ms) as nat
    } else {
        ms as nat
    };
    let sign = if ms < 0 {
        seq!['-']
    } else {
        Seq::<char>::empty()
    };
    sign + fixed(label_count(magnitude, label_places(major_ms)), label_places(major_ms))
}

/// Powers of two the label arithmetic is sized by.
proof fn lemma_powers()
    ensures
        pow2(23) == 8388608,
        pow2(24) == 16777216,
        pow2(30) == 1073741824,
        pow2(40) == 1099511627776,
        pow2(64) == 18446744073709551616,
        pow2(72) == 4722366482869645213696,
        pow2(96) == 79228162514264337593543950336,
        pow2(128) == 340282366920938463463374607431768211456,
{
    lemma2_to64();
    lemma_pow2_adds(32, 8);
    lemma_pow2_adds(64, 32);
    lemma_pow2_adds(64, 64);
    lemma_pow2_adds(64, 8);
}

/// `n` lies below two to its number of binary digits, and from its
/// top digit up.
proof fn lemma_bit_len_bounds(n: nat)
    ensures
        n < pow2(bit_len(n)),
        n > 0 ==> pow2((bit_len(n) - 1) as nat) <= n,
    decreases n,
{
    lemma2_to64();
    if n > 0 {
        lemma_bit_len_bounds(n / 2);
        lemma_pow2_unfold(bit_len(n));
        if n / 2 > 0 {
            lemma_pow2_unfold(bit_len(n / 2));
        }
    }
}

/// A number below `2^b` has at most `b` binary digits.
proof fn lemma_bit_len_below(n: nat, b: nat)
    requires
        n < pow2(b),
    ensures
        bit_len(n) <= b,
{
    lemma_bit_len_bounds(n);
    if bit_len(n) > b {
        if (bit_len(n) - 1) as nat > b {
            lemma_pow2_strictly_increases(b, (bit_len(n) - 1) as nat);
        }
    }
}

/// Two to the `k`.
fn two_to(k: u32) -> (r: u128)
    requires
        k <= 127,
    ensures
        r == pow2(k as nat),
        r >= 1,
{
    proof {
        lemma2_to64();
        lemma_powers();
    }
    let mut r: u128 = 1;
    let mut i: u32 = 0;
    while i < k
        invariant
            i <= k <= 127,
            r == pow2(i as nat),
            r >= 1,
        decreases k - i,
    {
        proof {
            lemma_powers();
            lemma_pow2_unfold((i + 1) as nat);
            if i + 1 < 128 {
                lemma_pow2_strictly_increases((i + 1) as nat, 128);
            }
        }
        r = r * 2;
        i = i + 1;
    }
    r
}

/// How many binary digits `n` has.
fn bit_len_of(n: u128) -> (r: u32)
    ensures
        r == bit_len(n as nat),
        r <= 128,
{
    proof {
        lemma_powers();
        lemma_bit_len_below(n as nat, 128);
    }
    let mut m = n;
    let mut len: u32 = 0;
    while m > 0
        invariant
            len + bit_len(m as nat) == bit_len(n as nat),
            bit_len(n as nat) <= 128,
        decreases m,
    {
        m = m / 2;
        len = len + 1;
    }
    len
}

/// The `f32` nearest to `n`, for `n` up to `2^63`.
fn nearest_f32_of(n: u128) -> (r: u128)
    requires
        n <= 9223372036854775808,
    ensures
        r == nearest_f32(n as nat),
        r <= 18446744073709551616,
{
    proof {
        lemma_powers();
        lemma_bit_len_below(n as nat, 64);
    }
    let len = bit_len_of(n);
    if len <= 24 {
        return n;
    }
    let step = two_to(len - 24);
    proof {
        if len - 24 < 40 {
            lemma_pow2_strictly_increases((len - 24) as nat, 40);
        }
        lemma_rounded_near(n as nat, step as nat);
    }
    let h = rounded(n, step);
    assert(h * step <= 18446744073709551616) by (nonlinear_arith)
        requires
            2 * step * h <= 2 * n + step,
            n <= 9223372036854775808,
            step <= 1099511627776,
    ;
    h * step
}

/// The `f32` nearest to `v / 1000`, in units of `2^-40`, for `v` up to
/// `2^64`.
fn thousandth_f32_of(v: u128) -> (r: u128)
    requires
        v <= 18446744073709551616,
    ensures
        r == thousandth_f32(v as nat),
        r * 1000 < 81129638414606681695789005144064,
{
    if v == 0 {
        return 0;
    }
    proof {
        lemma_powers();
    }
    let scaled = v * two_to(40);
    let quotient = scaled / 1000;
    assert(quotient < 79228162514264337593543950336);
    proof {
        lemma_bit_len_below(quotient as nat, 96);
        if bit_len(quotient as nat) <= 30 {
            lemma_bit_len_bounds(quotient as nat);
            if bit_len(quotient as nat) < 30 {
                lemma_pow2_strictly_increases(bit_len(quotient as nat), 30);
            }
        }
    }
    let len = bit_len_of(quotient);
    let step = two_to(len - 24);
    proof {
        if len - 24 < 72 {
            lemma_pow2_strictly_increases((len - 24) as nat, 72);
        }
        lemma_rounded_near(scaled as nat, 1000 * step as nat);
    }
    let m = rounded(scaled, 1000 * step);
    assert(1000 * (m * step) <= scaled + 1000 * step) by (nonlinear_arith)
        requires
            2 * (1000 * step) * m <= 2 * scaled + 1000 * step,
    ;
    m * step
}

/// The label for the mark at `ms` when labels sit `major_ms` apart:
/// the time in seconds as an `f32`, written with the places that
/// spacing needs, rounded half to even.
pub fn label(ms: i64, major_ms: i64) -> (r: String)
    ensures
        r@ == label_text(ms as int, major_ms as int),
{
    let places: u32 = if major_ms >= 1000 {
        0
    } else if major_ms >= 100 {
        1
    } else if major_ms >= 10 {
        2
    } else {
        3
    };
    let wide = ms as i128;
    let magnitude: u128 = if wide < 0 {
        (-wide) as u128
    } else {
        wide as u128
    };
    let secs = thousandth_f32_of(nearest_f32_of(magnitude));
    proof {
        reveal_with_fuel(pow10, 4);
        lemma_powers();
    }
    let scale = pow10_of(places);
    assert(secs * scale <= secs * 1000) by (nonlinear_arith)
        requires
            scale <= 1000,
    ;
    let count = rounded(secs * scale, two_to(40));
    let mut s = String::new();
    if ms < 0 {
        proof { reveal_strlit("-"); }
        s.append("-");
    }
    let ghost before = s@;
    push_fixed(&mut s, count, places);
    proof {
        if ms >= 0 {
            assert(before =~= Seq::<char>::empty());
        }
    }
    s
}

/// Below `2^23` ms a label's count stays within half a unit of the
/// exact time, just as if the seconds had been rounded exactly: the
/// `f32` steps there are too fine to move it further.
proof fn lemma_label_near(a: nat, p: nat)
    requires
        a < 8388608,
        p <= 3,
    ensures
        2 * pow10((3 - p) as nat) * label_count(a, p) <= 2 * a + pow10((3 - p) as nat),
        2 * pow10((3 - p) as nat) * label_count(a, p) + pow10((3 - p) as nat) >= 2 * a,
{
    reveal_with_fuel(pow10, 4);
    lemma_powers();
    let u = pow10((3 - p) as nat);
    let ten = pow10(p);
    assert(pow10(0) == 1 && pow10(1) == 10 && pow10(2) == 100 && pow10(3) == 1000);
    if p == 0 {
        assert((3 - p) as nat == 3);
    } else if p == 1 {
        assert((3 - p) as nat == 2);
    } else if p == 2 {
        assert((3 - p) as nat == 1);
    } else {
        assert((3 - p) as nat == 0);
    }
    assert(u * ten == 1000);
    lemma_bit_len_below(a, 23);
    assert(nearest_f32(a) == a);
    let n = label_count(a, p);
    if a == 0 {
        assert(thousandth_f32(0) == 0);
        assert(n == round_half_even(0, pow2(40)));
        assert(n == 0);
        return;
    }
    let scaled = a * pow2(40);
    let f = scaled / 1000;
    let len = bit_len(f);
    assert(f >= 1073741824);
    lemma_bit_len_bounds(f);
    if len <= 30 {
        if len < 30 {
            lemma_pow2_strictly_increases(len, 30);
        }
    }
    assert(len >= 31);
    let j = (len - 24) as nat;
    let step = pow2(j);
    vstd::arithmetic::power2::lemma_pow2_pos(j);
    lemma_pow2_adds(j, 23);
    assert((len - 1) as nat == j + 23);
    assert(step * 8388608 <= f);
    assert(step * 8388608 * 1000 <= scaled);
    let m = round_half_even(scaled, 1000 * step);
    let q = m * step;
    assert(q == thousandth_f32(a));
    lemma_rounded_near(scaled, 1000 * step);
    assert(1000 * q * 2 <= 2 * scaled + 1000 * step && 1000 * q * 2 + 1000 * step >= 2 * scaled)
        by (nonlinear_arith)
        requires
            2 * (1000 * step) * m <= 2 * scaled + 1000 * step,
            2 * (1000 * step) * m + 1000 * step >= 2 * scaled,
            q == m * step,
    ;
    let big = pow2(40);
    lemma_rounded_near(q * ten, big);
    assert(n == round_half_even(q * ten, big));
    assert(2 * big * n <= 2 * (q * ten) + big);
    assert(2 * big * n + big >= 2 * (q * ten));
    assert(2 * big * u * n <= 2000 * q + big * u) by (nonlinear_arith)
        requires
            2 * big * n <= 2 * (q * ten) + big,
            u * ten == 1000,
            u >= 1,
    ;
    assert(2 * big * u * n + big * u >= 2000 * q) by (nonlinear_arith)
        requires
            2 * big * n + big >= 2 * (q * ten),
            u * ten == 1000,
            u >= 1,
    ;
    assert(2 * u * n <= 2 * a + u) by (nonlinear_arith)
        requires
            2 * big * u * n <= 2000 * q + big * u,
            2000 * q <= 2 * scaled + 1000 * step,
            step * 8388608 * 1000 <= scaled,
            scaled == a * big,
            big == 1099511627776,
            a < 8388608,
    ;
    assert(2 * u * n + u >= 2 * a) by (nonlinear_arith)
        requires
            2 * big * u * n + big * u >= 2000 * q,
            2000 * q + 1000 * step >= 2 * scaled,
            step * 8388608 * 1000 <= scaled,
            scaled == a * big,
            big == 1099511627776,
            a < 8388608,
    ;
}

/// Neighbouring labels never read alike: from the start on, labels
/// `major_ms` apart each say something different, as long as they stay
/// under `2^23` ms (about two hours and twenty minutes), where the
/// seconds as an `f32` still keep every millisecond apart.
pub proof fn lemma_neighbours_differ(i: nat, major_ms: int)
    requires
        major_ms >= 1,
        (i + 1) * major_ms < 8388608,
    ensures
        label_text(i * major_ms, major_ms) != label_text((i + 1) * major_ms, major_ms),
{
    let p = label_places(major_ms);
    reveal_with_fuel(pow10, 4);
    let u = pow10((3 - p) as nat);
    assert(1 <= u <= major_ms);
    let a: nat = (i * major_ms) as nat;
    let b: nat = ((i + 1) * major_ms) as nat;
    assert(i * major_ms >= 0) by (nonlinear_arith)
        requires
            major_ms >= 1,
    ;
    assert(b == a + major_ms) by (nonlinear_arith)
        requires
            a == i * major_ms,
            b == (i + 1) * major_ms,
            i * major_ms >= 0,
    ;
    lemma_label_near(a, p);
    lemma_label_near(b, p);
    let q1 = label_count(a, p);
    let q2 = label_count(b, p);
    if major_ms == u {
        assert(a == u * i) by (nonlinear_arith)
            requires
                a == i * major_ms,
                major_ms == u,
        ;
        assert(q1 == i) by (nonlinear_arith)
            requires
                2 * u * q1 <= 2 * a + u,
                2 * u * q1 + u >= 2 * a,
                a == u * i,
                u >= 1,
        ;
        assert(q2 == i + 1) by (nonlinear_arith)
            requires
                2 * u * q2 <= 2 * b + u,
                2 * u * q2 + u >= 2 * b,
                b == u * i + u,
                u >= 1,
        ;
    } else {
        assert(q2 > q1) by (nonlinear_arith)
            requires
                2 * u * q2 + u >= 2 * b,
                2 * u * q1 <= 2 * a + u,
                b == a + major_ms,
                major_ms > u,
                u >= 1,
        ;
    }
    if label_text(a as int, major_ms) == label_text(b as int, major_ms) {
        assert(Seq::<char>::empty() + fixed(q1, p) =~= fixed(q1, p));
        assert(Seq::<char>::empty() + fixed(q2, p) =~= fixed(q2, p));
        lemma_fixed_injective(q1, q2, p);
    }
}

/// One tick on the axis, at `ms` into the timeline, with its label if
/// it is a labelled one.
pub struct Mark {
    pub ms: i64,
    pub label: Option<String>,
}

/// A label as plain text.
pub open spec fn label_view(label: Option<String>) -> Option<Seq<char>> {
    match label {
        Some(s) => Some(s@),
        None => None,
    }
}

impl View for Mark {
    type V = (int, Option<Seq<char>>);

    open spec fn view(&self) -> (int, Option<Seq<char>>) {
        (self.ms as int, label_view(self.label))
    }
}

/// The first tick index the axis draws: a label's width before the
/// view's left edge, and never before the start.
pub open spec fn first_tick(offset_ms: int, minor_ms: int, major_ms: int) -> int {
    let i = (offset_ms - major_ms) / minor_ms;
    if i < 0 {
        0
    } else {
        i
    }
}

/// The last tick index the axis draws: a label's width past the
/// view's right edge.
pub open spec fn last_tick(offset_ms: int, visible_ms: int, minor_ms: int, major_ms: int) -> int {
    (offset_ms + visible_ms + major_ms) / minor_ms
}

/// The mark with tick index `index`: every `major_ms / minor_ms`th one
/// is labelled.
pub open spec fn mark_at(index: int, minor_ms: int, major_ms: int) -> (int, Option<Seq<char>>) {
    let ms = index * minor_ms;
    (ms, if index % (major_ms / minor_ms) == 0 {
        Some(label_text(ms, major_ms))
    } else {
        None
    })
}

/// A quotient by a positive divisor lies between zero and the
/// dividend.
proof fn lemma_div_euclid_fits(x: int, d: int)
    requires
        d >= 1,
    ensures
        x >= 0 ==> 0 <= x / d <= x,
        x < 0 ==> x <= x / d < 0,
{
    vstd::arithmetic::div_mod::lemma_fundamental_div_mod(x, d);
    assert(x >= 0 ==> 0 <= x / d <= x) by (nonlinear_arith)
        requires
            d >= 1,
            x == d * (x / d) + x % d,
            0 <= x % d < d,
    ;
    assert(x < 0 ==> x <= x / d < 0) by (nonlinear_arith)
        requires
            d >= 1,
            x == d * (x / d) + x % d,
            0 <= x % d < d,
    ;
}

/// Every mark across a view that starts `offset_ms` in and shows
/// `visible_ms`, ticks `minor_ms` apart and labels `major_ms` apart,
/// padded by a label's width at each end so that labels near the edges
/// still show.
pub fn tick_marks(offset_ms: i64, visible_ms: i64, minor_ms: i64, major_ms: i64) -> (r: Vec<Mark>)
    requires
        minor_ms > 0,
        major_ms >= minor_ms,
        offset_ms - major_ms >= i64::MIN,
        i64::MIN <= offset_ms + visible_ms <= i64::MAX,
        i64::MIN <= offset_ms + visible_ms + major_ms <= i64::MAX,
    ensures
        r@.len() == if last_tick(offset_ms as int, visible_ms as int, minor_ms as int, major_ms as int)
            >= first_tick(offset_ms as int, minor_ms as int, major_ms as int) {
            last_tick(offset_ms as int, visible_ms as int, minor_ms as int, major_ms as int)
                - first_tick(offset_ms as int, minor_ms as int, major_ms as int) + 1
        } else {
            0
        },
        forall|k: int|
            0 <= k < r@.len() ==> #[trigger] r@[k]@ == mark_at(
                first_tick(offset_ms as int, minor_ms as int, major_ms as int) + k,
                minor_ms as int,
                major_ms as int,
            ),
{
    let ticks_per_label = major_ms / minor_ms;
    assert(ticks_per_label >= 1) by (nonlinear_arith)
        requires
            ticks_per_label == major_ms / minor_ms,
            major_ms >= minor_ms,
            minor_ms > 0,
    ;
    let from_ms = offset_ms - major_ms;
    let to_ms = offset_ms + visible_ms + major_ms;
    proof {
        lemma_div_euclid_fits(from_ms as int, minor_ms as int);
        lemma_div_euclid_fits(to_ms as int, minor_ms as int);
    }
    let below = match from_ms.checked_div_euclid(minor_ms) {
        Some(v) => v,
        None => 0,
    };
    let first = if below < 0 {
        0
    } else {
        below
    };
    let last = match to_ms.checked_div_euclid(minor_ms) {
        Some(v) => v,
        None => 0,
    };
    assert(last * minor_ms <= to_ms) by (nonlinear_arith)
        requires
            last == to_ms as int / minor_ms as int,
            minor_ms > 0,
    ;
    let ghost first_g = first as int;
    let mut out: Vec<Mark> = Vec::new();
    if last < first {
        return out;
    }
    let count: u64 = (last - first) as u64 + 1;
    let mut k: u64 = 0;
    while k < count
        invariant
            0 <= first <= last,
            first_g == first,
            count == last - first + 1,
            k <= count,
            out@.len() == k,
            minor_ms > 0,
            ticks_per_label == major_ms / minor_ms,
            ticks_per_label >= 1,
            last * minor_ms <= i64::MAX,
            forall|j: int|
                0 <= j < out@.len() ==> #[trigger] out@[j]@ == mark_at(
                    first_g + j,
                    minor_ms as int,
                    major_ms as int,
                ),
        decreases count - k,
    {
        let index = first + k as i64;
        assert(index * minor_ms <= last * minor_ms) by (nonlinear_arith)
            requires
                index <= last,
                minor_ms > 0,
        ;
        assert(index * minor_ms >= 0) by (nonlinear_arith)
            requires
                index >= 0,
                minor_ms > 0,
        ;
        let ms = index * minor_ms;
        let text = if index % ticks_per_label == 0 {
            Some(label(ms, major_ms))
        } else {
            None
        };
        out.push(Mark { ms, label: text });
        k = k + 1;
    }
    out
}

} // verus!
