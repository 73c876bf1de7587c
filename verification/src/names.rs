//! Fresh-name generation: `fresh_var` returns its base name if that name is
//! not taken, else the base with the smallest integer suffix that makes it
//! free.

use vstd::prelude::*;
use vstd::set_lib::lemma_len_subset;
use vstd::assert_by_contradiction;

verus! {

/// The character for a single decimal digit.
pub open spec fn digit_char(d: nat) -> char {
    if d == 0 {
        '0'
    } else if d == 1 {
        '1'
    } else if d == 2 {
        '2'
    } else if d == 3 {
        '3'
    } else if d == 4 {
        '4'
    } else if d == 5 {
        '5'
    } else if d == 6 {
        '6'
    } else if d == 7 {
        '7'
    } else if d == 8 {
        '8'
    } else {
        '9'
    }
}

/// The value a digit character stands for.
pub open spec fn char_digit(c: char) -> nat {
    if c == '0' {
        0
    } else if c == '1' {
        1
    } else if c == '2' {
        2
    } else if c == '3' {
        3
    } else if c == '4' {
        4
    } else if c == '5' {
        5
    } else if c == '6' {
        6
    } else if c == '7' {
        7
    } else if c == '8' {
        8
    } else {
        9
    }
}

/// The usual decimal rendering of a number, most significant digit first.
pub open spec fn dec_digits(n: nat) -> Seq<char>
    decreases n,
{
    if n < 10 {
        seq![digit_char(n)]
    } else {
        dec_digits(n / 10) + seq![digit_char(n % 10)]
    }
}

/// Reads a decimal rendering back; the inverse of `dec_digits` on its range.
pub open spec fn dec_value(s: Seq<char>) -> nat
    decreases s.len(),
{
    if s.len() <= 1 {
        if s.len() == 1 {
            char_digit(s[0])
        } else {
            0
        }
    } else {
        dec_value(s.drop_last()) * 10 + char_digit(s.last())
    }
}

pub proof fn lemma_dec_digits_len(n: nat)
    ensures
        dec_digits(n).len() >= 1,
    decreases n,
{
    if n >= 10 {
        lemma_dec_digits_len(n / 10);
    }
}

/// Decimal rendering round-trips through `dec_value`, so it is injective.
pub proof fn lemma_dec_value_digits(n: nat)
    ensures
        dec_value(dec_digits(n)) == n,
    decreases n,
{
    if n < 10 {
        assert(dec_digits(n).len() == 1);
    } else {
        lemma_dec_value_digits(n / 10);
        lemma_dec_digits_len(n / 10);
        let s = dec_digits(n);
        assert(s.drop_last() =~= dec_digits(n / 10));
        assert(s.last() == digit_char(n % 10));
        assert(char_digit(digit_char(n % 10)) == n % 10);
    }
}

/// The k-th candidate name over a base: the base itself for k == 0, else the
/// base followed by the decimal rendering of k.
pub open spec fn cand(base: Seq<char>, k: nat) -> Seq<char> {
    if k == 0 {
        base
    } else {
        base + dec_digits(k)
    }
}

pub proof fn lemma_cand_injective(base: Seq<char>, k1: nat, k2: nat)
    requires
        cand(base, k1) == cand(base, k2),
    ensures
        k1 == k2,
{
    if k1 == 0 && k2 != 0 {
        lemma_dec_digits_len(k2);
        assert(cand(base, k2).len() > base.len());
    } else if k1 != 0 && k2 == 0 {
        lemma_dec_digits_len(k1);
        assert(cand(base, k1).len() > base.len());
    } else if k1 != 0 && k2 != 0 {
        let d1 = dec_digits(k1);
        let d2 = dec_digits(k2);
        assert(d1 =~= d2) by {
            assert((base + d1).len() == (base + d2).len());
            assert(forall|i: int|
                0 <= i < d1.len() ==> d1[i] == (base + d1)[base.len() + i] && d2[i] == (base
                    + d2)[base.len() + i]);
        }
        lemma_dec_value_digits(k1);
        lemma_dec_value_digits(k2);
    }
}

/// The set of the first `n` candidate names.
pub open spec fn cand_set(base: Seq<char>, n: nat) -> Set<Seq<char>>
    decreases n,
{
    if n == 0 {
        Set::empty()
    } else {
        cand_set(base, (n - 1) as nat).insert(cand(base, (n - 1) as nat))
    }
}

pub proof fn lemma_cand_set_members(base: Seq<char>, n: nat, s: Seq<char>)
    ensures
        cand_set(base, n).contains(s) <==> exists|j: nat| j < n && s == cand(base, j),
    decreases n,
{
    if n > 0 {
        lemma_cand_set_members(base, (n - 1) as nat, s);
        if s == cand(base, (n - 1) as nat) {
            assert(((n - 1) as nat) < n && s == cand(base, (n - 1) as nat));
        }
    }
}

pub proof fn lemma_cand_set_len(base: Seq<char>, n: nat)
    ensures
        cand_set(base, n).finite(),
        cand_set(base, n).len() == n,
    decreases n,
{
    if n > 0 {
        let m = (n - 1) as nat;
        lemma_cand_set_len(base, m);
        assert_by_contradiction!(!cand_set(base, m).contains(cand(base, m)), {
            lemma_cand_set_members(base, m, cand(base, m));
            let j = choose|j: nat| j < m && cand(base, m) == cand(base, j);
            lemma_cand_injective(base, m, j);
        });
    }
}

/// Among the first `|taken| + 1` candidates over any base, at least one name
/// is not taken: there are more candidates than taken names.
pub proof fn lemma_fresh_exists(base: Seq<char>, taken: Set<Seq<char>>)
    requires
        taken.finite(),
    ensures
        exists|k: nat| k <= taken.len() && !taken.contains(cand(base, k)),
{
    assert_by_contradiction!(exists|k: nat| k <= taken.len() && !taken.contains(cand(base, k)), {
        let n = (taken.len() + 1) as nat;
        lemma_cand_set_len(base, n);
        assert(cand_set(base, n).subset_of(taken)) by {
            assert forall|s: Seq<char>| cand_set(base, n).contains(s) implies taken.contains(
                s,
            ) by {
                lemma_cand_set_members(base, n, s);
                let j = choose|j: nat| j < n && s == cand(base, j);
                assert(j <= taken.len() && taken.contains(cand(base, j)));
            }
        }
        lemma_len_subset(cand_set(base, n), taken);
    });
}

/// Holds when `k` indexes the first free candidate: the k-th candidate is not
/// taken and every earlier one is.
pub open spec fn first_free_idx(base: Seq<char>, taken: Set<Seq<char>>, k: nat) -> bool {
    !taken.contains(cand(base, k)) && forall|j: nat| j < k ==> taken.contains(cand(base, j))
}

pub proof fn lemma_first_free_unique(base: Seq<char>, taken: Set<Seq<char>>, k1: nat, k2: nat)
    requires
        first_free_idx(base, taken, k1),
        first_free_idx(base, taken, k2),
    ensures
        k1 == k2,
{
    if k1 < k2 {
        assert(taken.contains(cand(base, k1)));
    } else if k2 < k1 {
        assert(taken.contains(cand(base, k2)));
    }
}

/// The name `fresh_var` must return: the base when it is free, else the base
/// with the smallest integer suffix whose candidate is free.
pub open spec fn fresh_name(base: Seq<char>, taken: Set<Seq<char>>) -> Seq<char> {
    cand(base, choose|k: nat| first_free_idx(base, taken, k))
}

/// The set of names a list of strings holds.
pub open spec fn str_set(v: Seq<String>) -> Set<Seq<char>> {
    Set::new(|s: Seq<char>| exists|i: int| 0 <= i < v.len() && v[i]@ == s)
}

pub proof fn lemma_str_set_finite(v: Seq<String>)
    ensures
        str_set(v).finite(),
        str_set(v).len() <= v.len(),
    decreases v.len(),
{
    if v.len() == 0 {
        assert(str_set(v) =~= Set::empty());
    } else {
        let w = v.drop_last();
        lemma_str_set_finite(w);
        assert(str_set(v) =~= str_set(w).insert(v.last()@)) by {
            assert forall|s: Seq<char>| str_set(v).contains(s) implies str_set(w).insert(
                v.last()@,
            ).contains(s) by {
                let i = choose|i: int| 0 <= i < v.len() && v[i]@ == s;
                if i < v.len() - 1 {
                    assert(w[i]@ == s);
                }
            }
            assert forall|s: Seq<char>|
                str_set(w).insert(v.last()@).contains(s) implies str_set(v).contains(s) by {
                if str_set(w).contains(s) {
                    let i = choose|i: int| 0 <= i < w.len() && w[i]@ == s;
                    assert(v[i]@ == s);
                } else {
                    assert(v[v.len() - 1]@ == s);
                }
            }
        }
    }
}

pub proof fn lemma_str_set_push(v: Seq<String>, e: String)
    ensures
        str_set(v.push(e)) == str_set(v).insert(e@),
{
    assert(str_set(v.push(e)) =~= str_set(v).insert(e@)) by {
        assert forall|s: Seq<char>| str_set(v.push(e)).contains(s) implies str_set(v).insert(
            e@,
        ).contains(s) by {
            let i = choose|i: int| 0 <= i < v.push(e).len() && v.push(e)[i]@ == s;
            if i < v.len() {
                assert(v[i]@ == s);
            }
        }
        assert forall|s: Seq<char>|
            str_set(v).insert(e@).contains(s) implies str_set(v.push(e)).contains(s) by {
            if str_set(v).contains(s) {
                let i = choose|i: int| 0 <= i < v.len() && v[i]@ == s;
                assert(v.push(e)[i]@ == s);
            } else {
                assert(v.push(e)[v.len() as int]@ == s);
            }
        }
    }
}

/// Decides whether a name occurs in a list of names.
pub fn contains_name(v: &Vec<String>, x: &String) -> (r: bool)
    ensures
        r == str_set(v@).contains(x@),
{
    let mut i: usize = 0;
    while i < v.len()
        invariant
            i <= v.len(),
            forall|j: int| 0 <= j < i ==> v@[j]@ != x@,
        decreases v.len() - i,
    {
        if v[i].eq(x) {
            return true;
        }
        i = i + 1;
    }
    false
}

/// A one-character string for each decimal digit.
fn digit_str(d: usize) -> (r: &'static str)
    requires
        d < 10,
    ensures
        r@ =~= seq![digit_char(d as nat)],
{
    proof {
        reveal_strlit("0");
        reveal_strlit("1");
        reveal_strlit("2");
        reveal_strlit("3");
        reveal_strlit("4");
        reveal_strlit("5");
        reveal_strlit("6");
        reveal_strlit("7");
        reveal_strlit("8");
        reveal_strlit("9");
    }
    match d {
        0 => "0",
        1 => "1",
        2 => "2",
        3 => "3",
        4 => "4",
        5 => "5",
        6 => "6",
        7 => "7",
        8 => "8",
        _ => "9",
    }
}

/// Renders a number in decimal.
pub fn fmt_nat(n: usize) -> (r: String)
    ensures
        r@ == dec_digits(n as nat),
    decreases n,
{
    if n < 10 {
        digit_str(n).to_owned()
    } else {
        let mut prefix = fmt_nat(n / 10);
        prefix.append(digit_str(n % 10));
        proof {
            assert(prefix@ =~= dec_digits(n as nat));
        }
        prefix
    }
}

/// Returns `base` if it is not taken, else `base` with the smallest integer
/// suffix `1`, `2`, ... whose candidate is not taken.
pub fn fresh_var(base: &str, in_use: &Vec<String>) -> (r: String)
    ensures
        r@ == fresh_name(base@, str_set(in_use@)),
        !str_set(in_use@).contains(r@),
{
    let ghost taken = str_set(in_use@);
    let n_names = in_use.len();
    proof {
        lemma_str_set_finite(in_use@);
        lemma_fresh_exists(base@, taken);
        assert(taken.len() <= n_names);
    }
    let mut k: usize = 0;
    let mut name = base.to_owned();
    let ghost bound = choose|j: nat| j <= taken.len() && !taken.contains(cand(base@, j));
    while contains_name(in_use, &name)
        invariant
            name@ == cand(base@, k as nat),
            forall|j: nat| j < k ==> taken.contains(cand(base@, j)),
            taken == str_set(in_use@),
            bound <= taken.len(),
            !taken.contains(cand(base@, bound)),
            taken.finite(),
            k <= bound <= usize::MAX,
        decreases bound - k,
    {
        proof {
            // the current candidate is taken, so the free one lies further on
            assert(k as nat != bound);
        }
        k = k + 1;
        let mut next = base.to_owned();
        next.append(fmt_nat(k).as_str());
        name = next;
    }
    proof {
        assert(first_free_idx(base@, taken, k as nat));
        let c = choose|j: nat| first_free_idx(base@, taken, j);
        lemma_first_free_unique(base@, taken, k as nat, c);
    }
    name
}

} // verus!
