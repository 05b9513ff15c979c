//! The transform engine: power-of-two padding, the recursive double-buffer
//! butterfly passes, and the magnitude reduction.
//!
//! The twiddle factor for loop index `i` of a combine pass over a padded
//! length `n` is the complex number `exp(-i * pi * i / n)`, that is
//! `(cos a, sin a)` for the angle `a = (-pi * i) / n`. Only the angles can be
//! computed here (exactly pinned, see [`twiddle_angles`]); the caller
//! supplies cosine and sine of each angle, and every contract is stated
//! relative to that table.

use crate::complex::Complex;
use crate::complex::cadd;
use crate::complex::cmul;
use crate::complex::csub;
use crate::complex::czero;
use crate::complex::magnitude;
use crate::complex::spec_cadd;
use crate::complex::spec_cmul;
use crate::complex::spec_csub;
use crate::complex::spec_magnitude;
use crate::pow2::lemma_next_pow2_is_pow2;
use crate::pow2::lemma_next_pow2_of_pow2;
use crate::pow2::lemma_next_pow2_above;
use crate::pow2::lemma_next_pow2_minimal;
use crate::pow2::lemma_pow2_pos;
use crate::pow2::spec_next_pow2;
use crate::pow2::spec_pow2;
use crate::scalar::NEG_PI_BITS;
use crate::scalar::ZERO_BITS;
use crate::scalar::div_bits;
use crate::scalar::fdiv;
use crate::scalar::float_from_u64;
use crate::scalar::fmul;
use crate::scalar::from_u64_bits;
use crate::scalar::mul_bits;
use vstd::prelude::*;

verus! {

/// The input mapped to complex values and zero-padded to the next power of
/// two: the load-bearing normalization step. The returned length is the
/// padded length, not the input length.
pub open spec fn spec_pad(input: Seq<u64>) -> Seq<Complex> {
    Seq::new(
        spec_next_pow2(input.len()),
        |i: int|
            if i < input.len() {
                Complex { re: input[i], im: ZERO_BITS }
            } else {
                czero()
            },
    )
}

/// The subsequence of `xs` of `cnt` elements starting at `off` with stride
/// `step`.
pub open spec fn stride_of(xs: Seq<Complex>, off: int, step: int, cnt: nat) -> Seq<Complex> {
    Seq::new(cnt, |t: int| xs[off + step * t])
}

/// The even-indexed elements of `v`.
pub open spec fn evens(v: Seq<Complex>) -> Seq<Complex> {
    Seq::new(((v.len() + 1) / 2) as nat, |t: int| v[2 * t])
}

/// The odd-indexed elements of `v`.
pub open spec fn odds(v: Seq<Complex>) -> Seq<Complex> {
    Seq::new((v.len() / 2) as nat, |t: int| v[2 * t + 1])
}

/// One butterfly combine pass. `e` and `d` are the transforms of the even-
/// and odd-indexed halves; entry `t` of the result is `e[t] + w * d[t]` and
/// entry `t + m` is `e[t] - w * d[t]`, where `w` is the twiddle factor
/// `tw[step * t]` of the combined level.
pub open spec fn spec_butterfly(
    e: Seq<Complex>,
    d: Seq<Complex>,
    tw: Seq<Complex>,
    step: int,
) -> Seq<Complex> {
    Seq::new(
        (2 * e.len()) as nat,
        |t: int|
            {
                let m = e.len() as int;
                if t < m {
                    spec_cadd(e[t], spec_cmul(tw[step * t], d[t]))
                } else {
                    spec_csub(e[t - m], spec_cmul(tw[step * (t - m)], d[t - m]))
                }
            },
    )
}

/// The radix-2 decimation-in-time transform of `v`, relative to the twiddle
/// table `tw` of the full padded length. `step` is the stride at which `v`
/// sits inside the padded buffer; it scales the twiddle indices so that
/// every level reads the table of the global length.
pub open spec fn spec_fft(v: Seq<Complex>, tw: Seq<Complex>, step: int) -> Seq<Complex>
    decreases v.len(),
{
    if v.len() <= 1 {
        v
    } else {
        spec_butterfly(
            spec_fft(evens(v), tw, 2 * step),
            spec_fft(odds(v), tw, 2 * step),
            tw,
            step,
        )
    }
}

/// The Euclidean norm of each coefficient.
pub open spec fn spec_magnitudes(v: Seq<Complex>) -> Seq<u64> {
    Seq::new(v.len(), |i: int| spec_magnitude(v[i]))
}

/// The whole pipeline: pad, transform, reduce to magnitudes.
pub open spec fn spec_transform(input: Seq<u64>, tw: Seq<Complex>) -> Seq<u64> {
    spec_magnitudes(spec_fft(spec_pad(input), tw, 1))
}

/// The twiddle angle for combine-loop index `2 * j`: the bit pattern of
/// `(-pi * (2 * j)) / n`, computed in binary64.
pub open spec fn spec_twiddle_angle(j: int, n: int) -> u64 {
    div_bits(mul_bits(NEG_PI_BITS, from_u64_bits((2 * j) as u64)), from_u64_bits(n as u64))
}

/// A power-of-two-length transform keeps its length.
pub proof fn lemma_spec_fft_len(v: Seq<Complex>, tw: Seq<Complex>, step: int)
    requires
        spec_pow2(v.len()),
    ensures
        spec_fft(v, tw, step).len() == v.len(),
    decreases v.len(),
{
    if v.len() > 1 {
        lemma_spec_fft_len(evens(v), tw, 2 * step);
    }
}

/// Law: the padded buffer carries the samples below the input length and
/// exactly zeros from there up to the power-of-two length.
pub proof fn lemma_padding_zero_tail(input: Seq<u64>)
    ensures
        spec_pad(input).len() == spec_next_pow2(input.len()),
        forall|i: int|
            0 <= i < input.len() ==> spec_pad(input)[i] == (Complex {
                re: input[i],
                im: ZERO_BITS,
            }),
        forall|i: int|
            input.len() <= i < spec_pad(input).len() ==> spec_pad(input)[i] == czero(),
{
    lemma_next_pow2_is_pow2(input.len());
}

/// Law: an input length that is already a power of two is not padded, and
/// the output keeps exactly that length.
pub proof fn lemma_transform_len_pow2(input: Seq<u64>, tw: Seq<Complex>)
    requires
        spec_pow2(input.len()),
    ensures
        spec_transform(input, tw).len() == input.len(),
{
    lemma_next_pow2_of_pow2(input.len());
    lemma_spec_fft_len(spec_pad(input), tw, 1);
}

/// Law: an input length that is not a power of two is padded to the next
/// power of two strictly above it, and to no more than that: every power of
/// two that bounds the input length bounds the output length.
pub proof fn lemma_transform_len_not_pow2(input: Seq<u64>, tw: Seq<Complex>)
    requires
        !spec_pow2(input.len()),
    ensures
        spec_transform(input, tw).len() == spec_next_pow2(input.len()),
        spec_transform(input, tw).len() > input.len(),
        spec_pow2(spec_transform(input, tw).len()),
        forall|p: nat|
            spec_pow2(p) && p >= input.len() ==> p >= spec_transform(input, tw).len(),
{
    lemma_next_pow2_is_pow2(input.len());
    lemma_next_pow2_above(input.len());
    lemma_spec_fft_len(spec_pad(input), tw, 1);
    assert forall|p: nat|
        spec_pow2(p) && p >= input.len() implies p >= spec_transform(input, tw).len() by {
        lemma_next_pow2_minimal(input.len(), p);
    }
}

/// Law: the transform is a pure function of the samples and the twiddle
/// table; equal inputs give bit-identical magnitudes.
pub proof fn lemma_transform_deterministic(
    input1: Seq<u64>,
    tw1: Seq<Complex>,
    input2: Seq<u64>,
    tw2: Seq<Complex>,
)
    requires
        input1 == input2,
        tw1 == tw2,
    ensures
        spec_transform(input1, tw1) == spec_transform(input2, tw2),
{
}

/// The twiddle angles of a padded length `n`: entry `j` is the bit pattern
/// of `(-pi * (2 * j)) / n`, the angle whose cosine and sine form the
/// twiddle factor read by the combine passes at table index `j`.
pub fn twiddle_angles(n: usize) -> (r: Vec<u64>)
    requires
        spec_pow2(n as nat),
    ensures
        r@.len() == n as int / 2,
        forall|j: int| 0 <= j < n as int / 2 ==> r@[j] == spec_twiddle_angle(j, n as int),
{
    proof {
        lemma_pow2_pos(n as nat);
    }
    let half: usize = n / 2;
    let nf = float_from_u64(n as u64);
    let mut r: Vec<u64> = Vec::new();
    let mut j: usize = 0;
    while j < half
        invariant
            0 <= j <= half,
            half == n as int / 2,
            2 * half <= n,
            nf == from_u64_bits(n as u64),
            r@.len() == j,
            forall|k: int| 0 <= k < j ==> r@[k] == spec_twiddle_angle(k, n as int),
        decreases half - j,
    {
        let i: usize = 2 * j;
        let angle = fdiv(fmul(NEG_PI_BITS, float_from_u64(i as u64)), nf);
        r.push(angle);
        j = j + 1;
    }
    r
}

/// A position of the stride `off + step * t` has residue `off`.
proof fn lemma_stride_pos_mod(off: int, step: int, t: int)
    requires
        0 <= off < step,
        0 <= t,
    ensures
        (off + step * t) % step == off,
{
    vstd::arithmetic::div_mod::lemma_mod_multiples_vanish(t, off, step);
    vstd::arithmetic::div_mod::lemma_small_mod(off as nat, step as nat);
}

/// A residue modulo a doubled stride determines the residue modulo the
/// stride itself.
proof fn lemma_mod_half(k: int, step: int, c: int)
    requires
        1 <= step,
        0 <= c < 2 * step,
        0 <= k,
        k % (2 * step) == c,
    ensures
        k % step == c % step,
{
    vstd::arithmetic::div_mod::lemma_fundamental_div_mod(k, 2 * step);
    let q = k / (2 * step);
    assert(2 * step * q == step * (2 * q)) by (nonlinear_arith);
    vstd::arithmetic::div_mod::lemma_mod_multiples_vanish(2 * q, c, step);
}

/// Sequences that agree on every position of a stride have equal stride
/// subsequences.
proof fn lemma_stride_congruent(
    xs: Seq<Complex>,
    ys: Seq<Complex>,
    off: int,
    step: int,
    cnt: nat,
)
    requires
        xs.len() == ys.len(),
        1 <= step,
        0 <= off < step,
        step * cnt <= xs.len(),
        forall|k: int| 0 <= k < xs.len() && k % step == off ==> xs[k] == ys[k],
    ensures
        stride_of(xs, off, step, cnt) == stride_of(ys, off, step, cnt),
{
    assert forall|t: int| 0 <= t < cnt implies stride_of(xs, off, step, cnt)[t] == stride_of(
        ys,
        off,
        step,
        cnt,
    )[t] by {
        lemma_stride_pos_mod(off, step, t);
        assert(off + step * t < step * cnt) by (nonlinear_arith)
            requires
                1 <= step,
                off < step,
                0 <= t,
                t + 1 <= cnt,
        {
        }
    }
    assert(stride_of(xs, off, step, cnt) =~= stride_of(ys, off, step, cnt));
}

/// Halving a stride subsequence: its even-indexed elements form the doubled
/// stride at the same offset, its odd-indexed elements the doubled stride
/// one step further.
proof fn lemma_stride_split(xs: Seq<Complex>, off: int, step: int, m: nat)
    requires
        1 <= step,
        0 <= off,
    ensures
        evens(stride_of(xs, off, step, 2 * m)) == stride_of(xs, off, 2 * step, m),
        odds(stride_of(xs, off, step, 2 * m)) == stride_of(xs, off + step, 2 * step, m),
{
    let s = stride_of(xs, off, step, 2 * m);
    assert forall|t: int| 0 <= t < m implies evens(s)[t] == stride_of(xs, off, 2 * step, m)[t] by {
        assert(step * (2 * t) == 2 * step * t) by (nonlinear_arith);
    }
    assert forall|t: int| 0 <= t < m implies odds(s)[t] == stride_of(
        xs,
        off + step,
        2 * step,
        m,
    )[t] by {
        assert(step * (2 * t + 1) == 2 * step * t + step) by (nonlinear_arith);
    }
    assert(evens(s) =~= stride_of(xs, off, 2 * step, m));
    assert(odds(s) =~= stride_of(xs, off + step, 2 * step, m));
}

/// The recursive double-buffer butterfly pass over the stride subsequence of
/// residue `off` modulo `step`. The two buffers swap source and destination
/// roles at each level: the halves are solved into `b`, then one combine
/// pass writes the level's transform into `a`. Positions outside the stride
/// are left untouched in both buffers.
fn fft_rec(
    a: &mut Vec<Complex>,
    b: &mut Vec<Complex>,
    off: usize,
    step: usize,
    n: usize,
    tw: &Vec<Complex>,
)
    requires
        old(a)@.len() == n,
        old(b)@.len() == n,
        spec_pow2(n as nat),
        spec_pow2(step as nat),
        step <= n,
        off < step,
        spec_pow2((n as int / step as int) as nat),
        tw@.len() == n as int / 2,
        forall|k: int|
            0 <= k < n as int && k % (step as int) == off as int ==> old(a)@[k] == old(b)@[k],
    ensures
        final(a)@.len() == n,
        final(b)@.len() == n,
        forall|k: int|
            0 <= k < n as int && k % (step as int) != off as int ==> final(a)@[k] == old(a)@[k],
        forall|k: int|
            0 <= k < n as int && k % (step as int) != off as int ==> final(b)@[k] == old(b)@[k],
        stride_of(final(a)@, off as int, step as int, (n / step) as nat) == spec_fft(
            stride_of(old(a)@, off as int, step as int, (n / step) as nat),
            tw@,
            step as int,
        ),
    decreases n - step,
{
    proof {
        lemma_pow2_pos(step as nat);
        lemma_pow2_pos(n as nat);
    }
    if step >= n {
        proof {
            vstd::arithmetic::div_mod::lemma_div_multiples_vanish(1, n as int);
            assert(n as int * 1 == n as int) by (nonlinear_arith);
            assert((n / step) as nat == 1);
            assert(stride_of(a@, off as int, step as int, 1) =~= stride_of(
                old(a)@,
                off as int,
                step as int,
                1,
            ));
        }
        return;
    }
    proof {
        crate::pow2::lemma_pow2_double_le(step as nat, n as nat);
    }
    let two: usize = 2 * step;
    let half: usize = n / 2;
    let m: usize = n / two;
    let ghost a0 = a@;
    let ghost b0 = b@;
    let ghost stp = step as int;
    let ghost offi = off as int;
    let ghost ni = n as int;
    let ghost mi = m as int;
    proof {
        assert(spec_pow2(two as nat));
        crate::pow2::lemma_pow2_divides(two as nat, n as nat);
        assert(ni % (2 * stp) == 0);
        vstd::arithmetic::div_mod::lemma_fundamental_div_mod(ni, 2 * stp);
        assert(mi == ni / (2 * stp));
        assert(ni == 2 * stp * mi);
        assert(2 * stp * mi == stp * (2 * mi)) by (nonlinear_arith);
        vstd::arithmetic::div_mod::lemma_div_multiples_vanish(2 * mi, stp);
        assert(ni / stp == 2 * mi);
        assert(2 * stp * mi == 2 * (stp * mi)) by (nonlinear_arith);
        vstd::arithmetic::div_mod::lemma_div_multiples_vanish(stp * mi, 2);
        assert(half as int == stp * mi);
        assert(mi >= 1) by (nonlinear_arith)
            requires
                ni == 2 * stp * mi,
                ni >= 1,
                stp >= 1,
                mi >= 0,
        {
        }
        vstd::arithmetic::div_mod::lemma_div_multiples_vanish(mi, 2);
        assert((2 * mi) / 2 == mi);
        assert(spec_pow2(mi as nat));
        // the requires of the first half-size pass
        assert forall|k: int|
            0 <= k < ni && k % (two as int) == offi implies b@[k] == a@[k] by {
            lemma_mod_half(k, stp, offi);
            vstd::arithmetic::div_mod::lemma_small_mod(off as nat, step as nat);
        }
    }
    let ghost v = stride_of(a0, offi, stp, (2 * mi) as nat);
    fft_rec(b, a, off, two, n, tw);
    let ghost a1 = a@;
    let ghost b1 = b@;
    proof {
        // the even-indexed half landed in `b`
        lemma_stride_split(a0, offi, stp, mi as nat);
        assert(step * (m as int) <= step * ((n / step) as int)) by (nonlinear_arith)
            requires
                0 <= m as int <= (n / step) as int,
                step >= 1,
        {
        }
        assert(2 * stp * mi <= ni);
        lemma_stride_congruent(b0, a0, offi, two as int, mi as nat);
        assert(stride_of(b1, offi, two as int, mi as nat) == spec_fft(
            evens(v),
            tw@,
            2 * stp,
        ));
        // the requires of the second half-size pass
        assert forall|k: int|
            0 <= k < ni && k % (two as int) == offi + stp implies b@[k] == a@[k] by {
            lemma_mod_half(k, stp, offi + stp);
            vstd::arithmetic::div_mod::lemma_mod_multiples_vanish(1, offi, stp);
            vstd::arithmetic::div_mod::lemma_small_mod(off as nat, step as nat);
            assert(k % stp == offi);
        }
    }
    fft_rec(b, a, off + step, two, n, tw);
    let ghost a2 = a@;
    let ghost b2 = b@;
    proof {
        // the odd-indexed half landed one step further in `b`
        lemma_stride_congruent(b1, a1, offi + stp, two as int, mi as nat);
        assert forall|k: int|
            0 <= k < ni && k % (two as int) == offi + stp implies b1[k] == b0[k] && a1[k]
            == a0[k] by {
        }
        lemma_stride_congruent(b1, b0, offi + stp, two as int, mi as nat);
        lemma_stride_congruent(a1, a0, offi + stp, two as int, mi as nat);
        assert(stride_of(b2, offi + stp, two as int, mi as nat) == spec_fft(
            odds(v),
            tw@,
            2 * stp,
        ));
        // the even results survived the second pass
        lemma_stride_congruent(b2, b1, offi, two as int, mi as nat);
        assert(stride_of(b2, offi, two as int, mi as nat) == spec_fft(evens(v), tw@, 2 * stp));
    }
    let ghost eseq = spec_fft(evens(v), tw@, 2 * stp);
    let ghost dseq = spec_fft(odds(v), tw@, 2 * stp);
    let ghost res = spec_butterfly(eseq, dseq, tw@, stp);
    proof {
        crate::pow2::lemma_pow2_divides(step as nat, n as nat);
        lemma_spec_fft_len_pair(v, tw@, stp, mi as nat);
    }
    let mut t: usize = 0;
    while t < m
        invariant
            0 <= t <= m,
            a@.len() == n,
            b@ == b2,
            b2.len() == n,
            a2.len() == n,
            1 <= step,
            off < step,
            two == 2 * step,
            2 * step <= n,
            mi == m as int,
            ni == n as int,
            stp == step as int,
            offi == off as int,
            ni == 2 * stp * mi,
            half as int == stp * mi,
            half + half == n,
            mi >= 1,
            tw@.len() == ni / 2,
            eseq.len() == mi,
            dseq.len() == mi,
            res == spec_butterfly(eseq, dseq, tw@, stp),
            forall|u: int| 0 <= u < mi ==> b2[offi + two as int * u] == eseq[u],
            forall|u: int| 0 <= u < mi ==> b2[offi + stp + two as int * u] == dseq[u],
            forall|k: int| 0 <= k < ni && k % stp != offi ==> a@[k] == a2[k],
            forall|u: int| 0 <= u < t as int ==> a@[offi + stp * u] == res[u],
            forall|u: int|
                0 <= u < t as int ==> a@[offi + half as int + #[trigger] (stp * u)] == res[mi
                    + u],
        decreases m - t,
    {
        let ghost ti = t as int;
        proof {
            assert(two as int * ti + two as int <= two as int * mi) by (nonlinear_arith)
                requires
                    ti + 1 <= mi,
                    two as int >= 2,
            {
            }
            assert(stp * ti + stp <= stp * mi) by (nonlinear_arith)
                requires
                    ti + 1 <= mi,
                    stp >= 1,
            {
            }
        }
        let ie: usize = off + two * t;
        let id: usize = ie + step;
        let st: usize = step * t;
        let il: usize = off + st;
        let ir: usize = il + half;
        let w = tw[st];
        let ev = b[ie];
        let dv = b[id];
        let prod = cmul(w, dv);
        let lv = cadd(ev, prod);
        let rv = csub(ev, prod);
        a[il] = lv;
        a[ir] = rv;
        proof {
            lemma_stride_pos_mod(offi, stp, ti);
            lemma_stride_pos_mod(offi, stp, mi + ti);
            assert(stp * (mi + ti) == stp * mi + stp * ti) by (nonlinear_arith);
            assert(stp * ti < stp * (mi + ti)) by (nonlinear_arith)
                requires
                    stp >= 1,
                    mi >= 1,
                    ti >= 0,
            {
            }
            assert(il as int == offi + stp * ti);
            assert(ir as int == offi + stp * (mi + ti));
            // the new entries are the butterfly of the halves
            assert(ev == eseq[ti]);
            assert(dv == dseq[ti]);
            assert(res[ti] == spec_cadd(eseq[ti], spec_cmul(tw@[stp * ti], dseq[ti])));
            assert(res[mi + ti] == spec_csub(eseq[ti], spec_cmul(tw@[stp * ti], dseq[ti])));
            // the two writes hit fresh stride positions
            assert forall|u: int| 0 <= u < ti + 1 implies a@[offi + stp * u] == res[u] by {
                if u < ti {
                    assert(stp * u < stp * ti) by (nonlinear_arith)
                        requires
                            0 <= u < ti,
                            stp >= 1,
                    {
                    }
                    assert(offi + stp * u != il as int);
                    assert(offi + stp * u != ir as int);
                }
            }
            assert forall|u: int| 0 <= u < ti + 1 implies a@[offi + half as int + #[trigger] (stp
                * u)] == res[mi + u] by {
                assert(half as int + stp * u == stp * (mi + u)) by (nonlinear_arith)
                    requires
                        half as int == stp * mi,
                        0 <= u,
                        0 <= mi,
                {
                }
                if u < ti {
                    assert(stp * (mi + u) < stp * (mi + ti)) by (nonlinear_arith)
                        requires
                            0 <= u < ti,
                            stp >= 1,
                            mi >= 0,
                    {
                    }
                    assert(stp * ti < stp * (mi + u)) by (nonlinear_arith)
                        requires
                            0 <= ti < mi,
                            0 <= u,
                            stp >= 1,
                    {
                    }
                    assert(offi + stp * (mi + u) != il as int);
                    assert(offi + stp * (mi + u) != ir as int);
                }
            }
        }
        t = t + 1;
    }
    proof {
        // assemble the combine pass into the level's transform
        assert(v.len() == 2 * mi);
        assert(spec_fft(v, tw@, stp) == res);
        let fin = stride_of(a@, offi, stp, (2 * mi) as nat);
        assert forall|u: int| 0 <= u < 2 * mi implies fin[u] == res[u] by {
            if u < mi {
            } else {
                assert(stp * u == stp * mi + stp * (u - mi)) by (nonlinear_arith);
            }
        }
        assert(fin =~= res);
        assert((n / step) as nat == (2 * mi) as nat);
        // positions off the stride were never touched
        assert forall|k: int|
            0 <= k < ni && k % stp != offi implies a@[k] == a0[k] && b@[k] == b0[k] by {
            if k % (two as int) == offi {
                lemma_mod_half(k, stp, offi);
                vstd::arithmetic::div_mod::lemma_small_mod(off as nat, step as nat);
            }
            if k % (two as int) == offi + stp {
                lemma_mod_half(k, stp, offi + stp);
                vstd::arithmetic::div_mod::lemma_mod_multiples_vanish(1, offi, stp);
                vstd::arithmetic::div_mod::lemma_small_mod(off as nat, step as nat);
            }
        }
    }
}

/// Both halves of an even power-of-two split keep their lengths under the
/// transform.
proof fn lemma_spec_fft_len_pair(v: Seq<Complex>, tw: Seq<Complex>, step: int, m: nat)
    requires
        v.len() == 2 * m,
        spec_pow2(v.len()),
    ensures
        spec_fft(evens(v), tw, 2 * step).len() == m,
        spec_fft(odds(v), tw, 2 * step).len() == m,
        spec_fft(v, tw, step) == spec_butterfly(
            spec_fft(evens(v), tw, 2 * step),
            spec_fft(odds(v), tw, 2 * step),
            tw,
            step,
        ),
{
    lemma_pow2_pos(v.len());
    vstd::arithmetic::div_mod::lemma_div_multiples_vanish(m as int, 2);
    assert((2 * m as int) / 2 == m as int);
    assert(spec_pow2(m));
    assert(evens(v).len() == m);
    assert(odds(v).len() == m);
    lemma_spec_fft_len(evens(v), tw, 2 * step);
    lemma_spec_fft_len(odds(v), tw, 2 * step);
}

/// The input samples as complex values, zero-padded to length `n`.
fn pad_buffer(input: &Vec<u64>, n: usize) -> (r: Vec<Complex>)
    requires
        input@.len() <= n,
    ensures
        r@.len() == n,
        forall|i: int| 0 <= i < input@.len() ==> r@[i] == (Complex { re: input@[i], im: ZERO_BITS }),
        forall|i: int| input@.len() <= i < n ==> r@[i] == czero(),
{
    let mut r: Vec<Complex> = Vec::new();
    let mut i: usize = 0;
    let len = input.len();
    while i < len
        invariant
            0 <= i <= len,
            len == input@.len(),
            len <= n,
            r@.len() == i,
            forall|k: int| 0 <= k < i ==> r@[k] == (Complex { re: input@[k], im: ZERO_BITS }),
        decreases len - i,
    {
        r.push(Complex { re: input[i], im: ZERO_BITS });
        i = i + 1;
    }
    while i < n
        invariant
            len <= i <= n,
            len == input@.len(),
            r@.len() == i,
            forall|k: int| 0 <= k < len ==> r@[k] == (Complex { re: input@[k], im: ZERO_BITS }),
            forall|k: int| len <= k < i ==> r@[k] == czero(),
        decreases n - i,
    {
        r.push(Complex { re: ZERO_BITS, im: ZERO_BITS });
        i = i + 1;
    }
    r
}

/// The magnitude spectrum of the samples: the input is zero-padded to the
/// next power of two `n`, transformed by the radix-2 butterfly passes, and
/// each coefficient is reduced to its Euclidean norm. `twiddles` must hold
/// `n / 2` factors; entry `j` is read as the twiddle factor of combine-loop
/// index `2 * j` (cosine and sine of [`spec_twiddle_angle`], as
/// [`twiddle_angles`] lays the angles out).
///
/// An empty input yields exactly `[0.0]`, and a one-sample input the norm of
/// that sample, whatever the table holds: no butterfly pass runs below two
/// coefficients.
pub fn fft(input: &Vec<u64>, twiddles: &Vec<Complex>) -> (r: Vec<u64>)
    requires
        input@.len() <= usize::MAX / 2 + 1,
        twiddles@.len() == spec_next_pow2(input@.len()) as int / 2,
    ensures
        r@ == spec_transform(input@, twiddles@),
        r@.len() == spec_next_pow2(input@.len()),
        input@.len() == 0 ==> r@ == seq![ZERO_BITS],
        input@.len() == 1 ==> r@ == seq![
            spec_magnitude(Complex { re: input@[0], im: ZERO_BITS }),
        ],
{
    let n = crate::pow2::next_pow2(input.len());
    let mut buf_a = pad_buffer(input, n);
    let mut buf_b = pad_buffer(input, n);
    proof {
        assert(buf_a@ =~= spec_pad(input@));
        assert(buf_b@ =~= buf_a@);
        assert(n as int / 1int == n as int);
    }
    fft_rec(&mut buf_a, &mut buf_b, 0, 1, n, twiddles);
    proof {
        assert(stride_of(buf_a@, 0, 1, n as nat) =~= buf_a@);
        assert(stride_of(spec_pad(input@), 0, 1, n as nat) =~= spec_pad(input@));
        assert(buf_a@ == spec_fft(spec_pad(input@), twiddles@, 1));
        lemma_spec_fft_len(spec_pad(input@), twiddles@, 1);
    }
    let mut r: Vec<u64> = Vec::new();
    let mut i: usize = 0;
    while i < n
        invariant
            0 <= i <= n,
            buf_a@ == spec_fft(spec_pad(input@), twiddles@, 1),
            buf_a@.len() == n,
            r@.len() == i,
            forall|k: int| 0 <= k < i ==> r@[k] == spec_magnitude(buf_a@[k]),
            input@.len() == 0 && i >= 1 ==> r@[0] == ZERO_BITS,
        decreases n - i,
    {
        proof {
            if input@.len() == 0 && i == 0 {
                assert(spec_pad(input@).len() == 1);
                assert(buf_a@[0] == spec_pad(input@)[0]);
                assert(buf_a@[0] == czero());
            }
        }
        let mg = magnitude(buf_a[i]);
        r.push(mg);
        i = i + 1;
    }
    proof {
        assert(r@ =~= spec_magnitudes(spec_fft(spec_pad(input@), twiddles@, 1)));
        if input@.len() == 0 {
            assert(r@ =~= seq![ZERO_BITS]);
        }
        if input@.len() == 1 {
            assert(spec_pad(input@).len() == 1);
            assert(buf_a@[0] == spec_pad(input@)[0]);
            assert(r@ =~= seq![spec_magnitude(Complex { re: input@[0], im: ZERO_BITS })]);
        }
    }
    r
}

} // verus!

