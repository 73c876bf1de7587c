//! Superpositions: ordered finite sequences of term/amplitude branches, with
//! the merge operation that sums the amplitudes of equal terms and drops the
//! branches whose squared magnitude is at most one billionth.
//!
//! Amplitude arithmetic here is exact, so the drop threshold is decided
//! exactly: |amp|² = (norm_a + norm_b·√2) / 2^k is at most 10⁻⁹ exactly when
//! 10⁹·(norm_a + norm_b·√2) ≤ 2^k, a sign question about a number
//! `e + f·√2` that integer arithmetic settles.

use vstd::prelude::*;
use crate::term::{Term, TermX, term_eq, clone_term};
use crate::amp::{
    Amp, AmpX, amp_add, amp_add_ok, amp_half, amp_reducible, amp_reduced, lemma_reduced_fixpoint,
    norm_a, norm_b, small_coeffs,
};
use crate::errors::{EvalError, ErrX};
use vstd::arithmetic::power2::pow2;

verus! {

/// The model of a branch list.
pub open spec fn branches_view(v: Seq<(Term, Amp)>) -> Seq<(TermX, AmpX)> {
    Seq::new(v.len(), |i: int| (v[i].0@, v[i].1@))
}

/// A superposition: a finite ordered list of (term, amplitude) branches.
#[derive(Debug)]
pub struct Superpos(pub Vec<(Term, Amp)>);

impl View for Superpos {
    type V = Seq<(TermX, AmpX)>;

    open spec fn view(&self) -> Seq<(TermX, AmpX)> {
        branches_view(self.0@)
    }
}

/// The index of the first branch holding this term, or the length when no
/// branch does.
pub open spec fn find_first(s: Seq<(TermX, AmpX)>, t: TermX) -> int
    decreases s.len(),
{
    if s.len() == 0 {
        0
    } else if s[0].0 == t {
        0
    } else {
        1 + find_first(s.drop_first(), t)
    }
}

pub proof fn lemma_find_first(s: Seq<(TermX, AmpX)>, t: TermX)
    ensures
        0 <= find_first(s, t) <= s.len(),
        find_first(s, t) < s.len() ==> s[find_first(s, t)].0 == t,
        forall|j: int| 0 <= j < find_first(s, t) ==> s[j].0 != t,
    decreases s.len(),
{
    if s.len() > 0 && s[0].0 != t {
        lemma_find_first(s.drop_first(), t);
        assert(forall|j: int| 1 <= j < s.len() ==> s[j] == s.drop_first()[j - 1]);
    }
}

/// `find_first` is determined by a scan: if everything before `i` differs
/// from `t` and `i` hits `t` (or the end), then `i` is the first index.
pub proof fn lemma_find_first_at(s: Seq<(TermX, AmpX)>, t: TermX, i: int)
    requires
        0 <= i <= s.len(),
        forall|j: int| 0 <= j < i ==> s[j].0 != t,
        i < s.len() ==> s[i].0 == t,
    ensures
        find_first(s, t) == i,
    decreases s.len(),
{
    if s.len() > 0 {
        if i == 0 {
            if s.len() > 0 && s[0].0 != t {
                assert(i < s.len());
            }
        } else {
            assert(s[0].0 != t);
            lemma_find_first_at(s.drop_first(), t, i - 1);
        }
    }
}

/// One merging pass: each branch of `rest` is folded into `acc`, summing into
/// the first branch of `acc` with an equal term, or appended when no branch
/// matches.  `None` when an amplitude sum leaves the coefficient range.
pub open spec fn merge_loop(acc: Seq<(TermX, AmpX)>, rest: Seq<(TermX, AmpX)>) -> Option<
    Seq<(TermX, AmpX)>,
>
    decreases rest.len(),
{
    if rest.len() == 0 {
        Some(acc)
    } else {
        let t = rest[0].0;
        let a = rest[0].1;
        let i = find_first(acc, t);
        if i < acc.len() {
            if amp_add_ok(acc[i].1, a) {
                merge_loop(acc.update(i, (t, amp_add(acc[i].1, a))), rest.drop_first())
            } else {
                None
            }
        } else {
            merge_loop(acc.push((t, a)), rest.drop_first())
        }
    }
}

/// Whether the squared magnitude of the amplitude is at most one
/// billionth: `(norm_a + norm_b·√2)/2^k <= 10⁻⁹` exactly when
/// `10⁹·(norm_a + norm_b·√2) - 2^k` is not positive.
pub open spec fn amp_norm_small(x: AmpX) -> bool {
    !sqrt2_pos(1000000000 * norm_a(x) - pow2(x.k), 1000000000 * norm_b(x))
}

/// A lower bound on `10⁹·(a + b·√2)`, from `1414213562 < 10⁹·√2 < 1414213563`.
pub open spec fn norm_lb(a: int, b: int) -> int {
    1000000000 * a + (if b >= 0 {
        b * 1414213562
    } else {
        b * 1414213563
    })
}

/// An upper bound on `10⁹·(a + b·√2)`.
pub open spec fn norm_ub(a: int, b: int) -> int {
    1000000000 * a + (if b >= 0 {
        b * 1414213563
    } else {
        b * 1414213562
    })
}

/// The range in which the smallness test is exactly computable here: the
/// coefficients admit exact norms, and either the rational √2 bounds decide
/// the comparison at once or the norms are small enough to square.
pub open spec fn amp_small_decidable(x: AmpX) -> bool {
    small_coeffs(x) && (x.k >= 96 || pow2(x.k) > norm_ub(norm_a(x), norm_b(x)) || pow2(x.k)
        < norm_lb(norm_a(x), norm_b(x)) || (norm_a(x) <= 0x400_0000 && -0x400_0000 <= norm_b(x)
        <= 0x400_0000))
}

/// Whether the smallness of every branch amplitude is exactly computable.
pub open spec fn drops_decidable(s: Seq<(TermX, AmpX)>) -> bool {
    forall|i: int| 0 <= i < s.len() ==> amp_small_decidable(#[trigger] s[i].1)
}

/// Removes the branches whose squared magnitude is at most one billionth.
pub open spec fn drop_small(s: Seq<(TermX, AmpX)>) -> Seq<(TermX, AmpX)>
    decreases s.len(),
{
    if s.len() == 0 {
        s
    } else if amp_norm_small(s[0].1) {
        drop_small(s.drop_first())
    } else {
        seq![s[0]] + drop_small(s.drop_first())
    }
}

/// The branch list with every amplitude in canonical form: halved while all
/// four coefficients are even, so the denominator exponent stays as low as
/// the value allows.
pub open spec fn reduce_branches(s: Seq<(TermX, AmpX)>) -> Seq<(TermX, AmpX)> {
    s.map_values(|p: (TermX, AmpX)| (p.0, amp_reduced(p.1)))
}

/// The model of `merge`: fold equal terms by summing their amplitudes, drop
/// the branches whose squared magnitude is at most 10⁻⁹, and put the
/// surviving amplitudes in canonical form.  `None` when the exact amplitude
/// arithmetic leaves the coefficient range, or a drop test falls outside
/// the exactly computable range.
pub open spec fn spec_merge(s: Seq<(TermX, AmpX)>) -> Option<Seq<(TermX, AmpX)>> {
    match merge_loop(Seq::empty(), s) {
        Some(m) => if drops_decidable(m) {
            Some(reduce_branches(drop_small(m)))
        } else {
            None
        },
        None => None,
    }
}

/// No two branches hold equal terms.
pub open spec fn distinct_terms(s: Seq<(TermX, AmpX)>) -> bool {
    forall|i: int, j: int| 0 <= i < j < s.len() ==> s[i].0 != s[j].0
}

/// Every branch weight exceeds the drop threshold.
pub open spec fn no_small_amps(s: Seq<(TermX, AmpX)>) -> bool {
    forall|i: int| 0 <= i < s.len() ==> !amp_norm_small(#[trigger] s[i].1)
}

proof fn lemma_merge_loop_len(acc: Seq<(TermX, AmpX)>, rest: Seq<(TermX, AmpX)>)
    requires
        merge_loop(acc, rest) is Some,
    ensures
        merge_loop(acc, rest)->Some_0.len() <= acc.len() + rest.len(),
    decreases rest.len(),
{
    if rest.len() > 0 {
        let t = rest[0].0;
        let a = rest[0].1;
        let i = find_first(acc, t);
        lemma_find_first(acc, t);
        if i < acc.len() {
            lemma_merge_loop_len(acc.update(i, (t, amp_add(acc[i].1, a))), rest.drop_first());
        } else {
            lemma_merge_loop_len(acc.push((t, a)), rest.drop_first());
        }
    }
}

proof fn lemma_merge_loop_distinct(acc: Seq<(TermX, AmpX)>, rest: Seq<(TermX, AmpX)>)
    requires
        merge_loop(acc, rest) is Some,
        distinct_terms(acc),
    ensures
        distinct_terms(merge_loop(acc, rest)->Some_0),
    decreases rest.len(),
{
    if rest.len() > 0 {
        let t = rest[0].0;
        let a = rest[0].1;
        let i = find_first(acc, t);
        lemma_find_first(acc, t);
        if i < acc.len() {
            let acc2 = acc.update(i, (t, amp_add(acc[i].1, a)));
            assert(distinct_terms(acc2)) by {
                assert(forall|p: int| 0 <= p < acc.len() ==> acc2[p].0 == acc[p].0);
            }
            lemma_merge_loop_distinct(acc2, rest.drop_first());
        } else {
            let acc2 = acc.push((t, a));
            assert(distinct_terms(acc2)) by {
                assert(forall|p: int| 0 <= p < acc.len() ==> acc2[p].0 == acc[p].0 && acc[p].0
                    != t);
            }
            lemma_merge_loop_distinct(acc2, rest.drop_first());
        }
    }
}

proof fn lemma_drop_small_props(s: Seq<(TermX, AmpX)>)
    ensures
        drop_small(s).len() <= s.len(),
        no_small_amps(drop_small(s)),
        distinct_terms(s) ==> distinct_terms(drop_small(s)),
        forall|i: int|
            0 <= i < drop_small(s).len() ==> exists|j: int|
                0 <= j < s.len() && s[j] == #[trigger] drop_small(s)[i],
    decreases s.len(),
{
    if s.len() > 0 {
        lemma_drop_small_props(s.drop_first());
        let rec = drop_small(s.drop_first());
        assert forall|i: int| 0 <= i < drop_small(s).len() implies exists|j: int|
            0 <= j < s.len() && s[j] == #[trigger] drop_small(s)[i] by {
            if amp_norm_small(s[0].1) {
                let j = choose|j: int| 0 <= j < s.drop_first().len() && s.drop_first()[j] == rec[i];
                assert(s[j + 1] == drop_small(s)[i]);
            } else {
                if i == 0 {
                    assert(s[0] == drop_small(s)[0]);
                } else {
                    let j = choose|j: int|
                        0 <= j < s.drop_first().len() && s.drop_first()[j] == rec[i - 1];
                    assert(s[j + 1] == drop_small(s)[i]);
                }
            }
        }
        if distinct_terms(s) {
            assert(distinct_terms(drop_small(s))) by {
                if !amp_norm_small(s[0].1) {
                    assert forall|i: int, j: int|
                        0 <= i < j < drop_small(s).len() implies drop_small(s)[i].0 != drop_small(
                        s,
                    )[j].0 by {
                        if i == 0 {
                            let jj = choose|jj: int|
                                0 <= jj < s.drop_first().len() && s.drop_first()[jj] == rec[j - 1];
                            assert(s[jj + 1] == drop_small(s)[j]);
                        } else {
                            assert(rec[i - 1] == drop_small(s)[i]);
                            assert(rec[j - 1] == drop_small(s)[j]);
                        }
                    }
                }
            }
        }
    }
}

proof fn lemma_drop_small_id(s: Seq<(TermX, AmpX)>)
    requires
        no_small_amps(s),
    ensures
        drop_small(s) == s,
    decreases s.len(),
{
    if s.len() > 0 {
        lemma_drop_small_id(s.drop_first());
        assert(drop_small(s) =~= s);
    }
}

proof fn lemma_merge_loop_disjoint(acc: Seq<(TermX, AmpX)>, rest: Seq<(TermX, AmpX)>)
    requires
        distinct_terms(acc + rest),
    ensures
        merge_loop(acc, rest) == Some(acc + rest),
    decreases rest.len(),
{
    if rest.len() == 0 {
        assert(acc + rest =~= acc);
    } else {
        let t = rest[0].0;
        let a = rest[0].1;
        lemma_find_first(acc, t);
        assert(forall|j: int| 0 <= j < acc.len() ==> (acc + rest)[j] == acc[j]);
        assert((acc + rest)[acc.len() as int] == rest[0]);
        assert(find_first(acc, t) == acc.len()) by {
            assert(forall|j: int| 0 <= j < acc.len() ==> acc[j].0 != t);
            lemma_find_first_at(acc, t, acc.len() as int);
        }
        let acc2 = acc.push((t, a));
        assert(acc2 + rest.drop_first() =~= acc + rest);
        lemma_merge_loop_disjoint(acc2, rest.drop_first());
    }
}

/// Scaling both parts of `e + f·√2` by four does not change its sign.
proof fn lemma_sqrt2_pos_scale(e: int, f: int)
    ensures
        sqrt2_pos(4 * e, 4 * f) == sqrt2_pos(e, f),
{
    assert((4 * e) * (4 * e) == 16 * (e * e) && (4 * f) * (4 * f) == 16 * (f * f))
        by (nonlinear_arith);
}

/// One halving step changes neither the drop test nor its decidability:
/// the norms and the denominator all shrink by exactly four.
proof fn lemma_half_preserves(x: AmpX)
    requires
        amp_reducible(x),
        small_coeffs(x),
    ensures
        small_coeffs(amp_half(x)),
        amp_norm_small(amp_half(x)) == amp_norm_small(x),
        amp_small_decidable(x) ==> amp_small_decidable(amp_half(x)),
{
    let y = amp_half(x);
    assert(x.a == 2 * y.a && x.b == 2 * y.b && x.c == 2 * y.c && x.d == 2 * y.d);
    assert(x.a * x.a + x.b * x.b + x.c * x.c + x.d * x.d == 4 * (y.a * y.a + y.b * y.b + y.c
        * y.c + y.d * y.d) && x.a * x.b + x.b * x.c + x.c * x.d - x.a * x.d == 4 * (y.a * y.b
        + y.b * y.c + y.c * y.d - y.a * y.d)) by (nonlinear_arith)
        requires
            x.a == 2 * y.a,
            x.b == 2 * y.b,
            x.c == 2 * y.c,
            x.d == 2 * y.d,
    ;
    assert(norm_a(x) == 4 * norm_a(y) && norm_b(x) == 4 * norm_b(y));
    vstd::arithmetic::power2::lemma_pow2_adds(2, y.k);
    vstd::arithmetic::power2::lemma2_to64();
    assert(pow2(x.k) == 4 * pow2(y.k));
    let ey = 1000000000 * norm_a(y) - pow2(y.k);
    let fy = 1000000000 * norm_b(y);
    assert(1000000000 * norm_a(x) - pow2(x.k) == 4 * ey);
    assert(1000000000 * norm_b(x) == 4 * fy);
    lemma_sqrt2_pos_scale(ey, fy);
    if amp_small_decidable(x) {
        assert(norm_ub(norm_a(x), norm_b(x)) == 4 * norm_ub(norm_a(y), norm_b(y)));
        assert(norm_lb(norm_a(x), norm_b(x)) == 4 * norm_lb(norm_a(y), norm_b(y)));
        if x.k >= 96 {
            lemma_norms_bounded(x);
            if (x.k as nat) > 96 {
                vstd::arithmetic::power2::lemma_pow2_strictly_increases(96, x.k);
            }
            assert(pow2(x.k) > norm_ub(norm_a(x), norm_b(x)));
            assert(pow2(y.k) > norm_ub(norm_a(y), norm_b(y)));
        }
    }
}

/// With small coefficients the norms stay within `2^64`, so the scaled
/// upper bound is under `2^96`.
proof fn lemma_norms_bounded(x: AmpX)
    requires
        small_coeffs(x),
    ensures
        0 <= norm_a(x) <= 0x1_0000_0000_0000_0000,
        -0x1_0000_0000_0000_0000 <= norm_b(x) <= 0x1_0000_0000_0000_0000,
        norm_ub(norm_a(x), norm_b(x)) < pow2(96),
{
    lemma_abs_mul(x.a, 0x8000_0000, x.a, 0x8000_0000);
    lemma_abs_mul(x.b, 0x8000_0000, x.b, 0x8000_0000);
    lemma_abs_mul(x.c, 0x8000_0000, x.c, 0x8000_0000);
    lemma_abs_mul(x.d, 0x8000_0000, x.d, 0x8000_0000);
    lemma_abs_mul(x.a, 0x8000_0000, x.b, 0x8000_0000);
    lemma_abs_mul(x.b, 0x8000_0000, x.c, 0x8000_0000);
    lemma_abs_mul(x.c, 0x8000_0000, x.d, 0x8000_0000);
    lemma_abs_mul(x.a, 0x8000_0000, x.d, 0x8000_0000);
    lemma_sq_nonneg(x.a);
    lemma_sq_nonneg(x.b);
    lemma_sq_nonneg(x.c);
    lemma_sq_nonneg(x.d);
    lemma_pow2_96();
}

/// Reduction to canonical form preserves the drop test, its decidability,
/// and the coefficient bound.
proof fn lemma_reduced_preserves(x: AmpX)
    requires
        small_coeffs(x),
    ensures
        small_coeffs(amp_reduced(x)),
        amp_norm_small(amp_reduced(x)) == amp_norm_small(x),
        amp_small_decidable(x) ==> amp_small_decidable(amp_reduced(x)),
    decreases x.k,
{
    if amp_reducible(x) {
        lemma_half_preserves(x);
        lemma_reduced_preserves(amp_half(x));
    }
}

/// Merging is idempotent, and never increases the branch count: a merged
/// superposition merges to itself, within the coefficient range for free
/// because a second pass adds no amplitudes.
pub proof fn lemma_merge_idempotent(s: Seq<(TermX, AmpX)>)
    requires
        spec_merge(s) is Some,
    ensures
        spec_merge(spec_merge(s)->Some_0) == Some(spec_merge(s)->Some_0),
        spec_merge(s)->Some_0.len() <= s.len(),
{
    let folded = merge_loop(Seq::empty(), s)->Some_0;
    let dropped = drop_small(folded);
    let m = reduce_branches(dropped);
    assert(distinct_terms(Seq::<(TermX, AmpX)>::empty()));
    lemma_merge_loop_distinct(Seq::empty(), s);
    lemma_merge_loop_len(Seq::empty(), s);
    lemma_drop_small_props(folded);
    assert(m.len() == dropped.len());
    assert forall|i: int| 0 <= i < dropped.len() implies amp_small_decidable(
        #[trigger] dropped[i].1,
    ) && small_coeffs(dropped[i].1) by {
        let j = choose|j: int| 0 <= j < folded.len() && folded[j] == drop_small(folded)[i];
        assert(amp_small_decidable(folded[j].1));
    }
    assert forall|i: int|
        0 <= i < m.len() implies #[trigger] m[i] == (dropped[i].0, amp_reduced(
        dropped[i].1,
    )) && amp_small_decidable(m[i].1) && !amp_norm_small(m[i].1) by {
        lemma_reduced_preserves(dropped[i].1);
    }
    assert(distinct_terms(m));
    assert(no_small_amps(m));
    assert(drops_decidable(m));
    assert(Seq::<(TermX, AmpX)>::empty() + m =~= m);
    lemma_merge_loop_disjoint(Seq::empty(), m);
    lemma_drop_small_id(m);
    assert(reduce_branches(drop_small(m)) =~= m) by {
        assert forall|i: int| 0 <= i < m.len() implies #[trigger] reduce_branches(m)[i]
            == m[i] by {
            lemma_reduced_fixpoint(dropped[i].1);
        }
    }
}

/// A merged superposition keeps its invariants: no two branches hold equal
/// terms, and every branch weight strictly exceeds the drop threshold.
pub proof fn lemma_merge_invariants(s: Seq<(TermX, AmpX)>)
    requires
        spec_merge(s) is Some,
    ensures
        distinct_terms(spec_merge(s)->Some_0),
        no_small_amps(spec_merge(s)->Some_0),
{
    let folded = merge_loop(Seq::empty(), s)->Some_0;
    let dropped = drop_small(folded);
    let m = reduce_branches(dropped);
    assert(distinct_terms(Seq::<(TermX, AmpX)>::empty()));
    lemma_merge_loop_distinct(Seq::empty(), s);
    lemma_drop_small_props(folded);
    assert forall|i: int| 0 <= i < m.len() implies #[trigger] m[i] == (dropped[i].0, amp_reduced(
        dropped[i].1,
    )) && !amp_norm_small(m[i].1) by {
        let j = choose|j: int| 0 <= j < folded.len() && folded[j] == drop_small(folded)[i];
        assert(amp_small_decidable(folded[j].1));
        lemma_reduced_preserves(dropped[i].1);
    }
    assert(distinct_terms(m));
    assert(no_small_amps(m));
}

impl Superpos {
    /// The trivial superposition: one branch holding the term, amplitude 1.
    pub fn trivial(init: Term) -> (r: Superpos)
        ensures
            r@ =~= seq![(init@, AmpX { a: 1, b: 0, c: 0, d: 0, k: 0 })],
    {
        let mut v: Vec<(Term, Amp)> = Vec::new();
        v.push((init, Amp::one()));
        Superpos(v)
    }

    /// Merges branches with equal terms by summing their amplitudes, keeping
    /// the order of first appearance, drops branches whose squared magnitude
    /// is at most 10⁻⁹, and puts the surviving amplitudes in canonical form.
    /// `None` when the exact amplitude arithmetic leaves the coefficient
    /// range, or a drop test falls outside the exactly computable range.
    pub fn merge(&self) -> (r: Option<Superpos>)
        ensures
            match r {
                Some(m) => Some(m@) == spec_merge(self@),
                None => spec_merge(self@) is None,
            },
    {
        let mut out: Vec<(Term, Amp)> = Vec::new();
        let mut i: usize = 0;
        proof {
            assert(branches_view(out@) =~= Seq::empty());
            assert(self@.skip(0) =~= self@);
        }
        while i < self.0.len()
            invariant
                i <= self.0.len(),
                merge_loop(branches_view(out@), self@.skip(i as int)) == merge_loop(
                    Seq::empty(),
                    self@,
                ),
            decreases self.0.len() - i,
        {
            let t = &self.0[i].0;
            let a = self.0[i].1;
            let ghost rest = self@.skip(i as int);
            proof {
                assert(rest[0] == (t@, a@));
                assert(rest.drop_first() =~= self@.skip(i + 1));
            }
            // scan for the first branch with an equal term
            let mut j: usize = 0;
            let n = out.len();
            while j < n
                invariant
                    j <= n,
                    n == out.len(),
                    forall|p: int| 0 <= p < j ==> branches_view(out@)[p].0 != t@,
                ensures
                    j <= out.len(),
                    n == out.len(),
                    forall|p: int| 0 <= p < j ==> branches_view(out@)[p].0 != t@,
                    j < out.len() ==> branches_view(out@)[j as int].0 == t@,
                decreases n - j,
            {
                if term_eq(&out[j].0, t) {
                    break ;
                }
                j = j + 1;
            }
            proof {
                lemma_find_first_at(branches_view(out@), t@, j as int);
            }
            let ghost pre_out = branches_view(out@);
            if j < out.len() {
                let summed = match out[j].1.add(a) {
                    Some(v) => v,
                    None => {
                        return None;
                    },
                };
                let replacement = (clone_term(t), summed);
                out[j] = replacement;
                proof {
                    assert(branches_view(out@) =~= pre_out.update(
                        j as int,
                        (t@, amp_add(pre_out[j as int].1, a@)),
                    ));
                }
            } else {
                out.push((clone_term(t), a));
                proof {
                    assert(branches_view(out@) =~= pre_out.push((t@, a@)));
                }
            }
            i = i + 1;
        }
        proof {
            assert(self@.skip(self@.len() as int) =~= Seq::empty());
        }
        // drop the branches whose weight is at most the threshold
        let mut kept: Vec<(Term, Amp)> = Vec::new();
        let mut i2: usize = 0;
        proof {
            assert(branches_view(kept@) =~= Seq::empty());
            assert(branches_view(out@).skip(0) =~= branches_view(out@));
        }
        while i2 < out.len()
            invariant
                i2 <= out.len(),
                merge_loop(Seq::empty(), self@) == Some(branches_view(out@)),
                forall|p: int|
                    0 <= p < i2 ==> amp_small_decidable(#[trigger] branches_view(out@)[p].1),
                branches_view(kept@) + reduce_branches(
                    drop_small(branches_view(out@).skip(i2 as int)),
                ) =~= reduce_branches(drop_small(branches_view(out@))),
            decreases out.len() - i2,
        {
            let ghost pre = branches_view(kept@);
            let ghost rest = branches_view(out@).skip(i2 as int);
            proof {
                assert(rest[0] == (out@[i2 as int].0@, out@[i2 as int].1@));
                assert(rest.drop_first() =~= branches_view(out@).skip(i2 + 1));
            }
            let small = match amp_small_check(&out[i2].1) {
                Some(b) => b,
                None => {
                    proof {
                        assert(!amp_small_decidable(branches_view(out@)[i2 as int].1));
                        assert(!drops_decidable(branches_view(out@)));
                    }
                    return None;
                },
            };
            if !small {
                let entry = (clone_term(&out[i2].0), out[i2].1.reduce());
                kept.push(entry);
                proof {
                    assert(branches_view(kept@) =~= pre.push((rest[0].0, amp_reduced(rest[0].1))));
                    assert(reduce_branches(seq![rest[0]] + drop_small(rest.drop_first())) =~= seq![
                        (rest[0].0, amp_reduced(rest[0].1)),
                    ] + reduce_branches(drop_small(rest.drop_first())));
                    assert(pre.push((rest[0].0, amp_reduced(rest[0].1))) + reduce_branches(
                        drop_small(rest.drop_first()),
                    ) =~= pre + (seq![(rest[0].0, amp_reduced(rest[0].1))] + reduce_branches(
                        drop_small(rest.drop_first()),
                    )));
                }
            }
            i2 = i2 + 1;
        }
        proof {
            assert(branches_view(out@).skip(out@.len() as int) =~= Seq::empty());
            assert(reduce_branches(drop_small(Seq::<(TermX, AmpX)>::empty())) =~= Seq::<
                (TermX, AmpX),
            >::empty());
            assert(branches_view(kept@) =~= reduce_branches(drop_small(branches_view(out@))));
            assert(drops_decidable(branches_view(out@)));
        }
        Some(Superpos(kept))
    }
}

// ---------------------------------------------------------------------------
// Measurement.
//
// A measurement first merges, reads each branch weight |amp|² exactly as
// (norm_a + norm_b·√2) / 2^k, draws a uniform 32-bit sample r, and returns
// the first branch whose cumulative weight strictly exceeds r / 2^32; when
// the weights sum to less than 1 and no branch reaches the sample, the last
// branch is the fallback.  All comparisons are exact: `x + y·√2 > 0` is
// decided by signs and by comparing x² with 2y², which never ties because √2
// is irrational.
// ---------------------------------------------------------------------------

/// The largest denominator exponent among the branches.
pub open spec fn max_k(s: Seq<(TermX, AmpX)>) -> nat
    decreases s.len(),
{
    if s.len() == 0 {
        0
    } else {
        let rest = max_k(s.drop_last());
        if s.last().1.k >= rest {
            s.last().1.k
        } else {
            rest
        }
    }
}

/// The rational part of the cumulative weight of the first `i` branches,
/// scaled to the common denominator `2^kk`.
pub open spec fn cum_a(s: Seq<(TermX, AmpX)>, kk: nat, i: int) -> int
    decreases i,
{
    if i <= 0 {
        0
    } else {
        cum_a(s, kk, i - 1) + norm_a(s[i - 1].1) * pow2((kk - s[i - 1].1.k) as nat)
    }
}

/// The `√2` part of the cumulative weight of the first `i` branches, scaled
/// to the common denominator `2^kk`.
pub open spec fn cum_b(s: Seq<(TermX, AmpX)>, kk: nat, i: int) -> int
    decreases i,
{
    if i <= 0 {
        0
    } else {
        cum_b(s, kk, i - 1) + norm_b(s[i - 1].1) * pow2((kk - s[i - 1].1.k) as nat)
    }
}

/// Whether `e + f·√2 > 0`.  For mixed signs this compares `e²` with `2f²`;
/// the comparison never ties with nonzero arguments because `√2` is
/// irrational.
pub open spec fn sqrt2_pos(e: int, f: int) -> bool {
    if e >= 0 && f >= 0 {
        e > 0 || f > 0
    } else if e >= 0 {
        e * e > 2 * (f * f)
    } else if f >= 0 {
        2 * (f * f) > e * e
    } else {
        false
    }
}

/// Whether the cumulative weight of the first `i + 1` branches strictly
/// exceeds `r / 2^32`: both sides are multiplied by `2^32 · 2^kk`.
pub open spec fn cum_exceeds(s: Seq<(TermX, AmpX)>, kk: nat, r: int, i: int) -> bool {
    sqrt2_pos(
        0x1_0000_0000 * cum_a(s, kk, i + 1) - r * pow2(kk),
        0x1_0000_0000 * cum_b(s, kk, i + 1),
    )
}

/// The index of the branch a measurement with sample `r` selects, scanning
/// from `i`: the first whose cumulative weight exceeds the sample, the last
/// branch as the fallback.
pub open spec fn pick_from(s: Seq<(TermX, AmpX)>, kk: nat, r: int, i: int) -> int
    decreases s.len() - i,
{
    if i >= s.len() - 1 {
        s.len() - 1
    } else if cum_exceeds(s, kk, r, i) {
        i
    } else {
        pick_from(s, kk, r, i + 1)
    }
}

/// The branch index a measurement with sample `r` selects.
pub open spec fn spec_pick(s: Seq<(TermX, AmpX)>, r: int) -> int {
    pick_from(s, max_k(s), r, 0)
}

/// Every branch exponent is at most the maximum.
pub proof fn lemma_max_k(s: Seq<(TermX, AmpX)>)
    ensures
        forall|i: int| 0 <= i < s.len() ==> #[trigger] s[i].1.k <= max_k(s),
    decreases s.len(),
{
    if s.len() > 0 {
        lemma_max_k(s.drop_last());
        assert(forall|i: int| 0 <= i < s.len() - 1 ==> s[i] == s.drop_last()[i]);
    }
}

pub proof fn lemma_pick_range(s: Seq<(TermX, AmpX)>, kk: nat, r: int, i: int)
    requires
        s.len() > 0,
        0 <= i < s.len(),
    ensures
        i <= pick_from(s, kk, r, i) < s.len(),
    decreases s.len() - i,
{
    if i < s.len() - 1 && !cum_exceeds(s, kk, r, i) {
        lemma_pick_range(s, kk, r, i + 1);
    }
}

proof fn lemma_pick_at(s: Seq<(TermX, AmpX)>, kk: nat, r: int, i: int)
    requires
        s.len() > 0,
        0 <= i < s.len(),
        forall|j: int| 0 <= j < i ==> !cum_exceeds(s, kk, r, j),
        i == s.len() - 1 || cum_exceeds(s, kk, r, i),
    ensures
        pick_from(s, kk, r, 0) == i,
{
    lemma_pick_prefix(s, kk, r, 0, i);
}

proof fn lemma_pick_prefix(s: Seq<(TermX, AmpX)>, kk: nat, r: int, lo: int, i: int)
    requires
        s.len() > 0,
        0 <= lo <= i < s.len(),
        forall|j: int| lo <= j < i ==> !cum_exceeds(s, kk, r, j),
        i == s.len() - 1 || cum_exceeds(s, kk, r, i),
    ensures
        pick_from(s, kk, r, lo) == i,
    decreases i - lo,
{
    if lo < i {
        lemma_pick_prefix(s, kk, r, lo + 1, i);
    }
}

/// The bounds under which the sampling arithmetic is exactly computable:
/// a common denominator exponent of at most 30, small branch coefficients,
/// and cumulative weights within `2^30`.
pub open spec fn measure_guards(s: Seq<(TermX, AmpX)>) -> bool {
    &&& max_k(s) <= 30
    &&& forall|i: int| 0 <= i < s.len() ==> small_coeffs(#[trigger] s[i].1)
    &&& forall|i: int|
        0 <= i <= s.len() ==> 0 <= #[trigger] cum_a(s, max_k(s), i) <= 0x4000_0000
            && -0x4000_0000 <= #[trigger] cum_b(s, max_k(s), i) <= 0x4000_0000
}

/// `|x·y| <= bx·by` when `|x| <= bx` and `|y| <= by`.
proof fn lemma_abs_mul(x: int, bx: int, y: int, by: int)
    requires
        -bx <= x <= bx,
        -by <= y <= by,
        0 <= bx,
        0 <= by,
    ensures
        -(bx * by) <= x * y <= bx * by,
{
    assert(-(bx * by) <= x * y <= bx * by) by (nonlinear_arith)
        requires
            -bx <= x <= bx,
            -by <= y <= by,
            0 <= bx,
            0 <= by,
    ;
}

proof fn lemma_mul_nonneg(x: int, y: int)
    requires
        x >= 0,
        y >= 0,
    ensures
        x * y >= 0,
{
    assert(x * y >= 0) by (nonlinear_arith)
        requires
            x >= 0,
            y >= 0,
    ;
}

proof fn lemma_sq_nonneg(x: int)
    ensures
        x * x >= 0,
{
    assert(x * x >= 0) by (nonlinear_arith);
}

/// `2^n` as a machine value, for small `n`.
fn pow2_i128(n: u32) -> (r: i128)
    requires
        n <= 95,
    ensures
        r == pow2(n as nat),
        1 <= r <= 0x8000_0000_0000_0000_0000_0000,
{
    proof {
        vstd::arithmetic::power2::lemma2_to64();
        lemma_pow2_96();
    }
    let mut acc: i128 = 1;
    let mut i: u32 = 0;
    while i < n
        invariant
            i <= n,
            n <= 95,
            acc == pow2(i as nat),
        decreases n - i,
    {
        proof {
            lemma_pow2_96();
            vstd::arithmetic::power2::lemma_pow2_strictly_increases(i as nat, 95);
            vstd::arithmetic::power2::lemma_pow2_unfold((i + 1) as nat);
            if ((i + 1) as nat) < 95 {
                vstd::arithmetic::power2::lemma_pow2_strictly_increases((i + 1) as nat, 95);
            }
        }
        acc = acc * 2;
        i = i + 1;
    }
    proof {
        if n < 95 {
            vstd::arithmetic::power2::lemma_pow2_strictly_increases(n as nat, 95);
        }
        vstd::arithmetic::power2::lemma_pow2_pos(n as nat);
    }
    acc
}

/// The concrete values of `2^95` and `2^96`.
proof fn lemma_pow2_96()
    ensures
        pow2(95) == 0x8000_0000_0000_0000_0000_0000,
        pow2(96) == 0x1_0000_0000_0000_0000_0000_0000,
{
    vstd::arithmetic::power2::lemma2_to64();
    vstd::arithmetic::power2::lemma2_to64_rest();
    vstd::arithmetic::power2::lemma_pow2_adds(64, 31);
    vstd::arithmetic::power2::lemma_pow2_adds(64, 32);
    assert(0x1_0000_0000_0000_0000int * 0x8000_0000int == 0x8000_0000_0000_0000_0000_0000int)
        by (nonlinear_arith);
    assert(0x1_0000_0000_0000_0000int * 0x1_0000_0000int == 0x1_0000_0000_0000_0000_0000_0000int)
        by (nonlinear_arith);
}

/// Decides `e + f·√2 > 0` exactly.
fn sqrt2_pos_exec(e: i128, f: i128) -> (r: bool)
    requires
        -0x8000_0000_0000_0000 <= e <= 0x8000_0000_0000_0000,
        -0x4000_0000_0000_0000 <= f <= 0x4000_0000_0000_0000,
    ensures
        r == sqrt2_pos(e as int, f as int),
{
    proof {
        lemma_abs_mul(e as int, 0x8000_0000_0000_0000, e as int, 0x8000_0000_0000_0000);
        lemma_abs_mul(f as int, 0x4000_0000_0000_0000, f as int, 0x4000_0000_0000_0000);
    }
    if e >= 0 && f >= 0 {
        e > 0 || f > 0
    } else if e >= 0 {
        e * e > 2 * (f * f)
    } else if f >= 0 {
        2 * (f * f) > e * e
    } else {
        false
    }
}

/// With `p` above the upper bound of `10⁹·(a + b·√2)`, the value is at
/// most `p`: the weight is within the drop threshold.
proof fn lemma_small_above_ub(a: int, b: int, p: int)
    requires
        a >= 0,
        p > norm_ub(a, b),
    ensures
        !sqrt2_pos(1000000000 * a - p, 1000000000 * b),
{
    let e = 1000000000 * a - p;
    let f = 1000000000 * b;
    if b >= 0 {
        assert(e < -(b * 1414213563));
        assert(e < 0);
        if b == 0 {
            lemma_sq_nonneg(e);
            assert(f * f == 0) by (nonlinear_arith)
                requires
                    f == 0,
            ;
            assert(!sqrt2_pos(e, f));
        } else {
            assert(e * e > 2 * (f * f)) by (nonlinear_arith)
                requires
                    b > 0,
                    e < -(b * 1414213563),
                    f == 1000000000 * b,
            ;
            assert(!sqrt2_pos(e, f));
        }
    } else {
        assert(e < -(b * 1414213562));
        assert(f < 0);
        lemma_sq_nonneg(f);
        if e > 0 {
            assert(!(e * e > 2 * (f * f))) by (nonlinear_arith)
                requires
                    b < 0,
                    0 < e,
                    e < -(b * 1414213562),
                    f == 1000000000 * b,
            ;
        } else if e == 0 {
            assert(e * e == 0) by (nonlinear_arith)
                requires
                    e == 0,
            ;
        }
        assert(!sqrt2_pos(e, f));
    }
}

/// With `p` below the lower bound of `10⁹·(a + b·√2)`, the value exceeds
/// `p`: the weight is above the drop threshold.
proof fn lemma_pos_below_lb(a: int, b: int, p: int)
    requires
        a >= 0,
        p < norm_lb(a, b),
    ensures
        sqrt2_pos(1000000000 * a - p, 1000000000 * b),
{
    let e = 1000000000 * a - p;
    let f = 1000000000 * b;
    if b >= 0 {
        assert(e > -(b * 1414213562));
        if b == 0 {
            assert(e > 0);
        } else if e < 0 {
            assert(2 * (f * f) > e * e) by (nonlinear_arith)
                requires
                    b > 0,
                    e < 0,
                    e > -(b * 1414213562),
                    f == 1000000000 * b,
            ;
        }
    } else {
        assert(e > -(b * 1414213563));
        assert(e * e > 2 * (f * f)) by (nonlinear_arith)
            requires
                b < 0,
                e > -(b * 1414213563),
                f == 1000000000 * b,
        ;
    }
}

/// Decides whether an amplitude's weight is at most 10⁻⁹, within the
/// exactly computable range.
fn amp_small_check(x: &Amp) -> (r: Option<bool>)
    ensures
        match r {
            Some(b) => amp_small_decidable(x@) && b == amp_norm_small(x@),
            None => !amp_small_decidable(x@),
        },
{
    let bound: i64 = 0x8000_0000;
    if x.a < -bound || x.a > bound || x.b < -bound || x.b > bound || x.c < -bound || x.c > bound
        || x.d < -bound || x.d > bound {
        return None;
    }
    let (xa, xb, xc, xd) = (x.a as i128, x.b as i128, x.c as i128, x.d as i128);
    proof {
        lemma_abs_mul(xa as int, 0x8000_0000, xa as int, 0x8000_0000);
        lemma_abs_mul(xb as int, 0x8000_0000, xb as int, 0x8000_0000);
        lemma_abs_mul(xc as int, 0x8000_0000, xc as int, 0x8000_0000);
        lemma_abs_mul(xd as int, 0x8000_0000, xd as int, 0x8000_0000);
        lemma_abs_mul(xa as int, 0x8000_0000, xb as int, 0x8000_0000);
        lemma_abs_mul(xb as int, 0x8000_0000, xc as int, 0x8000_0000);
        lemma_abs_mul(xc as int, 0x8000_0000, xd as int, 0x8000_0000);
        lemma_abs_mul(xa as int, 0x8000_0000, xd as int, 0x8000_0000);
        lemma_sq_nonneg(xa as int);
        lemma_sq_nonneg(xb as int);
        lemma_sq_nonneg(xc as int);
        lemma_sq_nonneg(xd as int);
    }
    let na = xa * xa + xb * xb + xc * xc + xd * xd;
    let nb = xa * xb + xb * xc + xc * xd - xa * xd;
    proof {
        assert(na as int == norm_a(x@));
        assert(nb as int == norm_b(x@));
    }
    if x.k >= 96 {
        proof {
            lemma_pow2_96();
            if (x.k as nat) > 96 {
                vstd::arithmetic::power2::lemma_pow2_strictly_increases(96, x.k as nat);
            }
            assert(norm_ub(na as int, nb as int) < pow2(x.k as nat));
            lemma_small_above_ub(na as int, nb as int, pow2(x.k as nat) as int);
        }
        return Some(true);
    }
    let p = pow2_i128(x.k);
    let lo = if nb >= 0 {
        nb * 1414213562
    } else {
        nb * 1414213563
    };
    let hi = if nb >= 0 {
        nb * 1414213563
    } else {
        nb * 1414213562
    };
    let lb = 1000000000 * na + lo;
    let ub = 1000000000 * na + hi;
    if p > ub {
        proof {
            lemma_small_above_ub(na as int, nb as int, p as int);
        }
        return Some(true);
    }
    if p < lb {
        proof {
            lemma_pos_below_lb(na as int, nb as int, p as int);
        }
        return Some(false);
    }
    if na > 0x400_0000 || nb > 0x400_0000 || nb < -0x400_0000 {
        return None;
    }
    let e = 1000000000 * na - p;
    let f = 1000000000 * nb;
    let pos = sqrt2_pos_exec(e, f);
    Some(!pos)
}

/// Relies on rand::random: a fresh sample of the thread-local generator,
/// uniformly distributed over the 32-bit range; nothing is assumed about
/// which value comes back.
#[verifier::external_body]
fn random_u32() -> u32 {
    rand::random::<u32>()
}

impl Superpos {
    /// Measurement with an explicit sample: merges, then selects the first
    /// branch whose cumulative weight |amp|² strictly exceeds `r / 2^32`,
    /// with the last branch as fallback for a sub-normalized state.  The
    /// returned term is the branch term verbatim.
    pub fn measure_with(&self, r: u32) -> (res: Result<Term, EvalError>)
        ensures
            res matches Ok(t) ==> {
                &&& spec_merge(self@) is Some
                &&& spec_merge(self@)->Some_0.len() > 0
                &&& t@ == spec_merge(self@)->Some_0[spec_pick(
                    spec_merge(self@)->Some_0,
                    r as int,
                )].0
            },
            res matches Err(e) ==> match e@ {
                ErrX::BadApplication(_) => spec_merge(self@) is Some && spec_merge(
                    self@,
                )->Some_0.len() == 0,
                ErrX::AmplitudeOverflow => spec_merge(self@) is None || (spec_merge(self@)
                    is Some && spec_merge(self@)->Some_0.len() > 0 && !measure_guards(
                    spec_merge(self@)->Some_0,
                )),
                _ => false,
            },
            (spec_merge(self@) matches Some(m2) && m2.len() > 0 && measure_guards(m2)) ==> res
                is Ok,
    {
        let merged = match self.merge() {
            Some(m) => m,
            None => {
                return Err(EvalError::AmplitudeOverflow);
            },
        };
        let ghost m = merged@;
        let n = merged.0.len();
        if n == 0 {
            return Err(
                EvalError::BadApplication(String::from_str("measurement of an empty superposition")),
            );
        }
        // the common denominator exponent
        let mut kk: u32 = 0;
        let mut i: usize = 0;
        proof {
            assert(m.subrange(0, 0) =~= Seq::empty());
        }
        while i < n
            invariant
                i <= n,
                n == merged.0.len(),
                m == merged@,
                kk == max_k(m.subrange(0, i as int)),
            decreases n - i,
        {
            proof {
                assert(m.subrange(0, i + 1).drop_last() =~= m.subrange(0, i as int));
                assert(m.subrange(0, i + 1).last() == m[i as int]);
            }
            if merged.0[i].1.k > kk {
                kk = merged.0[i].1.k;
            }
            i = i + 1;
        }
        proof {
            assert(m.subrange(0, n as int) =~= m);
        }
        if kk > 30 {
            return Err(EvalError::AmplitudeOverflow);
        }
        let pk = pow2_i128(kk);
        proof {
            vstd::arithmetic::power2::lemma2_to64();
            if (kk as nat) < 30 {
                vstd::arithmetic::power2::lemma_pow2_strictly_increases(kk as nat, 30);
            }
            lemma_max_k(m);
        }
        let mut sa: i128 = 0;
        let mut sb: i128 = 0;
        let mut i: usize = 0;
        while i < n
            invariant
                i <= n,
                n == merged.0.len(),
                m == merged@,
                n > 0,
                kk == max_k(m),
                kk <= 30,
                pk == pow2(kk as nat),
                1 <= pk <= 0x4000_0000,
                forall|j: int| 0 <= j < n ==> #[trigger] m[j].1.k <= kk as nat,
                spec_merge(self@) == Some(m),
                sa == cum_a(m, kk as nat, i as int),
                sb == cum_b(m, kk as nat, i as int),
                0 <= sa <= 0x4000_0000,
                -0x4000_0000 <= sb <= 0x4000_0000,
                forall|j: int| 0 <= j < i ==> small_coeffs(#[trigger] m[j].1),
                forall|j: int| 0 <= j <= i ==> 0 <= #[trigger] cum_a(m, kk as nat, j) <= 0x4000_0000,
                forall|j: int|
                    0 <= j <= i ==> -0x4000_0000 <= #[trigger] cum_b(m, kk as nat, j)
                        <= 0x4000_0000,
                forall|j: int| 0 <= j < i ==> !cum_exceeds(m, kk as nat, r as int, j),
            decreases n - i,
        {
            let br_a = merged.0[i].1.a;
            let br_b = merged.0[i].1.b;
            let br_c = merged.0[i].1.c;
            let br_d = merged.0[i].1.d;
            let br_k = merged.0[i].1.k;
            proof {
                assert(m[i as int] == (merged.0@[i as int].0@, merged.0@[i as int].1@));
                assert(m[i as int].1.k <= kk as nat);
            }
            let bound: i64 = 0x8000_0000;
            if br_a < -bound || br_a > bound || br_b < -bound || br_b > bound || br_c < -bound
                || br_c > bound || br_d < -bound || br_d > bound {
                proof {
                    assert(!small_coeffs(m[i as int].1));
                    assert(!measure_guards(m));
                }
                return Err(EvalError::AmplitudeOverflow);
            }
            let (xa, xb, xc, xd) = (br_a as i128, br_b as i128, br_c as i128, br_d as i128);
            proof {
                lemma_abs_mul(xa as int, 0x8000_0000, xa as int, 0x8000_0000);
                lemma_abs_mul(xb as int, 0x8000_0000, xb as int, 0x8000_0000);
                lemma_abs_mul(xc as int, 0x8000_0000, xc as int, 0x8000_0000);
                lemma_abs_mul(xd as int, 0x8000_0000, xd as int, 0x8000_0000);
                lemma_abs_mul(xa as int, 0x8000_0000, xb as int, 0x8000_0000);
                lemma_abs_mul(xb as int, 0x8000_0000, xc as int, 0x8000_0000);
                lemma_abs_mul(xc as int, 0x8000_0000, xd as int, 0x8000_0000);
                lemma_abs_mul(xa as int, 0x8000_0000, xd as int, 0x8000_0000);
                lemma_sq_nonneg(xa as int);
                lemma_sq_nonneg(xb as int);
                lemma_sq_nonneg(xc as int);
                lemma_sq_nonneg(xd as int);
            }
            let na = xa * xa + xb * xb + xc * xc + xd * xd;
            let nb = xa * xb + xb * xc + xc * xd - xa * xd;
            // scale to the common denominator
            let sc = pow2_i128(kk - br_k);
            proof {
                vstd::arithmetic::power2::lemma2_to64();
                if ((kk - br_k) as nat) < 30 {
                    vstd::arithmetic::power2::lemma_pow2_strictly_increases(
                        (kk - br_k) as nat,
                        30,
                    );
                }
                lemma_abs_mul(na as int, 0x1_0000_0000_0000_0000, sc as int, 0x4000_0000);
                lemma_abs_mul(nb as int, 0x1_0000_0000_0000_0000, sc as int, 0x4000_0000);
            }
            let sa2 = sa + na * sc;
            let sb2 = sb + nb * sc;
            if sa2 > 0x4000_0000 || sb2 > 0x4000_0000 || sb2 < -0x4000_0000 {
                proof {
                    assert(cum_a(m, kk as nat, i + 1) == sa2 && cum_b(m, kk as nat, i + 1) == sb2);
                    assert(!measure_guards(m));
                }
                return Err(EvalError::AmplitudeOverflow);
            }
            sa = sa2;
            sb = sb2;
            i = i + 1;
            proof {
                lemma_mul_nonneg(na as int, sc as int);
                assert(sa == cum_a(m, kk as nat, i as int));
                assert(sb == cum_b(m, kk as nat, i as int));
                lemma_abs_mul(sa as int, 0x4000_0000, 0x1_0000_0000, 0x1_0000_0000);
                lemma_abs_mul(sb as int, 0x4000_0000, 0x1_0000_0000, 0x1_0000_0000);
                lemma_abs_mul(r as int, 0x1_0000_0000, pk as int, 0x4000_0000);
            }
            let e = sa * 0x1_0000_0000 - (r as i128) * pk;
            let f = sb * 0x1_0000_0000;
            proof {
                assert(e as int == 0x1_0000_0000 * cum_a(m, kk as nat, i as int) - (r as int)
                    * pow2(kk as nat));
                assert(f as int == 0x1_0000_0000 * cum_b(m, kk as nat, i as int));
                assert(sqrt2_pos(e as int, f as int) == cum_exceeds(m, kk as nat, r as int, i - 1));
            }
            if sqrt2_pos_exec(e, f) {
                proof {
                    lemma_pick_at(m, kk as nat, r as int, i - 1);
                    assert(m[i - 1] == (merged.0@[i - 1].0@, merged.0@[i - 1].1@));
                }
                return Ok(clone_term(&merged.0[i - 1].0));
            }
            proof {
                assert forall|j: int| 0 <= j <= i implies 0 <= #[trigger] cum_a(
                    m,
                    kk as nat,
                    j,
                ) <= 0x4000_0000 by {}
                assert forall|j: int| 0 <= j <= i implies -0x4000_0000 <= #[trigger] cum_b(
                    m,
                    kk as nat,
                    j,
                ) <= 0x4000_0000 by {}
            }
        }
        proof {
            lemma_pick_at(m, kk as nat, r as int, n - 1);
        }
        Ok(clone_term(&merged.0[n - 1].0))
    }

    /// Samples a term from the superposition: draws a uniform sample and
    /// measures with it.  Whatever the draw, a returned term is one of the
    /// merged branches.
    pub fn measure(&self) -> (res: Result<Term, EvalError>)
        ensures
            res matches Ok(t) ==> {
                &&& spec_merge(self@) is Some
                &&& spec_merge(self@)->Some_0.len() > 0
                &&& exists|i: int|
                    0 <= i < spec_merge(self@)->Some_0.len() && t@ == spec_merge(
                        self@,
                    )->Some_0[i].0
            },
            res matches Err(e) ==> match e@ {
                ErrX::BadApplication(_) => spec_merge(self@) is Some && spec_merge(
                    self@,
                )->Some_0.len() == 0,
                ErrX::AmplitudeOverflow => spec_merge(self@) is None || (spec_merge(self@)
                    is Some && spec_merge(self@)->Some_0.len() > 0 && !measure_guards(
                    spec_merge(self@)->Some_0,
                )),
                _ => false,
            },
            (spec_merge(self@) matches Some(m2) && m2.len() > 0 && measure_guards(m2)) ==> res
                is Ok,
    {
        let r = random_u32();
        let res = self.measure_with(r);
        proof {
            if res is Ok {
                let m = spec_merge(self@)->Some_0;
                lemma_pick_range(m, max_k(m), r as int, 0);
            }
        }
        res
    }
}

} // verus!

