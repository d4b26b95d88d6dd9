use vstd::prelude::*;
use numerica::combinatorics::CombinationIterator;

verus! {

#[verifier::external_type_specification]
#[verifier::external_body]
pub struct ExCombinationIterator(CombinationIterator);

/// The `k`-element subsets of `start..n`, each as its elements in increasing order, in
/// lexicographic order.
pub open spec fn combinations_from(n: nat, k: nat, start: nat) -> Seq<Seq<usize>>
    decreases k, n - start,
{
    if k == 0 {
        seq![Seq::<usize>::empty()]
    } else if start >= n {
        Seq::empty()
    } else {
        combinations_from(n, (k - 1) as nat, start + 1).map_values(
            |c: Seq<usize>| seq![start as usize] + c,
        ) + combinations_from(n, k, start + 1)
    }
}

/// The `k`-element subsets of `0..n` in lexicographic order; none when `k` is zero.
pub open spec fn lex_combinations(n: nat, k: nat) -> Seq<Seq<usize>> {
    if k == 0 {
        Seq::empty()
    } else {
        combinations_from(n, k, 0)
    }
}

/// The combinations that a `CombinationIterator` has still to give.
pub uninterp spec fn combinations_remaining(it: CombinationIterator) -> Seq<Seq<usize>>;

/// `CombinationIterator::new(n, k)`: it gives the `k`-element subsets of `0..n` as
/// increasing index lists in lexicographic order, and nothing when `k` is zero or larger
/// than `n`.
#[verifier::external_body]
pub fn combination_iter_new(n: usize, k: usize) -> (it: CombinationIterator)
    ensures
        combinations_remaining(it) == lex_combinations(n as nat, k as nat),
{
    CombinationIterator::new(n, k)
}

/// `CombinationIterator::next`: the next combination, copied out of the iterator, and
/// `None` for good once every combination has been given. It does not panic.
#[verifier::external_body]
pub fn combination_iter_next(it: &mut CombinationIterator) -> (res: Option<Vec<usize>>)
    ensures
        combinations_remaining(*old(it)).len() == 0 ==> res is None && combinations_remaining(
            *final(it),
        ) == combinations_remaining(*old(it)),
        combinations_remaining(*old(it)).len() > 0 ==> (res matches Some(v) && v@
            == combinations_remaining(*old(it))[0] && combinations_remaining(*final(it))
            == combinations_remaining(*old(it)).drop_first()),
    no_unwind
{
    it.next().map(|c| c.to_vec())
}

/// `b` to the power `e`.
pub open spec fn power(b: nat, e: nat) -> nat
    decreases e,
{
    if e == 0 {
        1
    } else {
        b * power(b, (e - 1) as nat)
    }
}

/// Powers grow with their base.
pub proof fn lemma_power_mono(a: nat, b: nat, e: nat)
    requires
        a <= b,
    ensures
        power(a, e) <= power(b, e),
    decreases e,
{
    if e > 0 {
        lemma_power_mono(a, b, (e - 1) as nat);
        let x = power(a, (e - 1) as nat);
        let y = power(b, (e - 1) as nat);
        assert(a * x <= b * y) by (nonlinear_arith)
            requires
                a <= b,
                x <= y,
        ;
    }
}

/// There are at most `m` to the power `k` ways to choose `k` of the `m` numbers from
/// `start` up to `n`.
pub proof fn lemma_combinations_count(n: nat, k: nat, start: nat)
    requires
        start <= n,
    ensures
        combinations_from(n, k, start).len() <= power((n - start) as nat, k),
    decreases k, n - start,
{
    if k == 0 {
    } else if start >= n {
    } else {
        let m = (n - start) as nat;
        lemma_combinations_count(n, (k - 1) as nat, start + 1);
        lemma_combinations_count(n, k, start + 1);
        lemma_power_mono((m - 1) as nat, m, (k - 1) as nat);
        let p = power((m - 1) as nat, (k - 1) as nat);
        let q = power(m, (k - 1) as nat);
        assert(power((m - 1) as nat, k) == (m - 1) * p);
        assert(power(m, k) == m * q);
        assert(p + (m - 1) * p <= m * q) by (nonlinear_arith)
            requires
                p <= q,
                m >= 1,
        ;
    }
}

/// The number of ways to choose `k` of `m` things, by Pascal's rule.
pub open spec fn binomial(m: nat, k: nat) -> nat
    decreases m,
{
    if k == 0 {
        1
    } else if m == 0 {
        0
    } else {
        binomial((m - 1) as nat, (k - 1) as nat) + binomial((m - 1) as nat, k)
    }
}

/// There is no way to choose more things than there are.
pub proof fn lemma_binomial_small(m: nat, k: nat)
    requires
        m < k,
    ensures
        binomial(m, k) == 0,
    decreases m,
{
    if m > 0 {
        lemma_binomial_small((m - 1) as nat, (k - 1) as nat);
        lemma_binomial_small((m - 1) as nat, k);
    }
}

/// There are `binomial(n - start, k)` ways to choose `k` of the numbers from `start` up
/// to `n`.
pub proof fn lemma_combinations_len(n: nat, k: nat, start: nat)
    requires
        start <= n,
    ensures
        combinations_from(n, k, start).len() == binomial((n - start) as nat, k),
    decreases k, n - start,
{
    if k == 0 {
    } else if start >= n {
    } else {
        lemma_combinations_len(n, (k - 1) as nat, start + 1);
        lemma_combinations_len(n, k, start + 1);
        assert(((n - start) as nat - 1) as nat == (n - (start + 1)) as nat);
    }
}

/// Enumerating the ways to choose `k` of `n` things gives each of the `binomial(n, k)`
/// choices, and nothing when `k` is zero.
pub proof fn lemma_lex_combinations_len(n: nat, k: nat)
    ensures
        lex_combinations(n, k).len() == if k == 0 {
            0
        } else {
            binomial(n, k)
        },
{
    if k > 0 {
        lemma_combinations_len(n, k, 0);
    }
}

/// Each combination has `k` increasing entries from `start..n`.
pub proof fn lemma_combinations_from(n: nat, k: nat, start: nat)
    requires
        n <= usize::MAX,
    ensures
        forall|i: int|
            0 <= i < combinations_from(n, k, start).len() ==> {
                let c = #[trigger] combinations_from(n, k, start)[i];
                &&& c.len() == k
                &&& forall|j: int| 0 <= j < k ==> start <= #[trigger] c[j] < n
                &&& forall|j: int, l: int| 0 <= j < l < k ==> c[j] < c[l]
            },
    decreases k, n - start,
{
    if k == 0 {
    } else if start >= n {
    } else {
        lemma_combinations_from(n, (k - 1) as nat, start + 1);
        lemma_combinations_from(n, k, start + 1);
        let a = combinations_from(n, (k - 1) as nat, start + 1).map_values(
            |c: Seq<usize>| seq![start as usize] + c,
        );
        let b = combinations_from(n, k, start + 1);
        assert forall|i: int| 0 <= i < (a + b).len() implies {
            let c = #[trigger] (a + b)[i];
            &&& c.len() == k
            &&& forall|j: int| 0 <= j < k ==> start <= #[trigger] c[j] < n
            &&& forall|j: int, l: int| 0 <= j < l < k ==> c[j] < c[l]
        } by {
            if i < a.len() {
                let d = combinations_from(n, (k - 1) as nat, start + 1)[i];
                assert((a + b)[i] == seq![start as usize] + d);
                assert forall|j: int| 0 <= j < k implies start <= #[trigger] (a + b)[i][j] < n by {
                    if j == 0 {
                        assert((a + b)[i][0] == start as usize);
                    }
                    if j > 0 {
                        assert((a + b)[i][j] == d[j - 1]);
                    }
                }
                assert forall|j: int, l: int| 0 <= j < l < k implies (a + b)[i][j] < (a + b)[i][l] by {
                    assert((a + b)[i][l] == d[l - 1]);
                    if j > 0 {
                        assert((a + b)[i][j] == d[j - 1]);
                    }
                }
            } else {
                assert((a + b)[i] == b[i - a.len()]);
            }
        }
    }
}

} // verus!
