use vstd::prelude::*;

verus! {

/// The upstream that attempt `attempt` of a connection starting at
/// `start` tries, out of `count`.
pub open spec fn tried_upstream(start: int, attempt: int, count: int) -> int {
    (start + attempt) % count
}

/// The attempt at which a connection starting at `start` tries upstream `u`.
pub open spec fn attempt_reaching(start: int, u: int, count: int) -> int {
    if u >= start % count {
        u - start % count
    } else {
        u - start % count + count
    }
}

/// The upstream that attempt number `attempt` of a connection tries: the
/// upstreams are tried in turn from position `start`, each once; `None`
/// once all have been tried.
pub fn next_upstream(start: usize, attempt: usize, count: usize) -> (index: Option<usize>)
    requires
        start + attempt <= usize::MAX,
    ensures
        index == if attempt < count {
            Some(tried_upstream(start as int, attempt as int, count as int) as usize)
        } else {
            None::<usize>
        },
{
    if attempt < count {
        Some((start + attempt) % count)
    } else {
        None
    }
}

/// The attempts of one connection reach every upstream exactly once: two
/// different attempts try different upstreams, and each upstream is tried
/// by some attempt.
pub proof fn lemma_each_upstream_once(start: int, count: int)
    requires
        start >= 0,
        count > 0,
    ensures
        forall|a: int, b: int|
            0 <= a < count && 0 <= b < count && a != b ==> #[trigger] tried_upstream(start, a, count)
                != #[trigger] tried_upstream(start, b, count),
        forall|u: int|
            0 <= u < count ==> 0 <= #[trigger] attempt_reaching(start, u, count) < count
                && tried_upstream(start, attempt_reaching(start, u, count), count) == u,
{
    let n = count;
    assert forall|a: int, b: int|
        0 <= a < count && 0 <= b < count && a != b implies #[trigger] tried_upstream(start, a, count)
        != #[trigger] tried_upstream(start, b, count) by {
        if (start + a) % n == (start + b) % n {
            vstd::arithmetic::div_mod::lemma_fundamental_div_mod(start + a, n);
            vstd::arithmetic::div_mod::lemma_fundamental_div_mod(start + b, n);
            let qa = (start + a) / n;
            let qb = (start + b) / n;
            assert(a - b == (qa - qb) * n) by (nonlinear_arith)
                requires
                    start + a == n * qa + (start + a) % n,
                    start + b == n * qb + (start + b) % n,
                    (start + a) % n == (start + b) % n,
            ;
            assert(false) by (nonlinear_arith)
                requires
                    a - b == (qa - qb) * n,
                    a < n,
                    b < n,
                    a != b,
                    0 <= a,
                    0 <= b,
            ;
        }
    }
    assert forall|u: int| 0 <= u < count implies 0 <= #[trigger] attempt_reaching(start, u, count)
        < count && tried_upstream(start, attempt_reaching(start, u, count), count) == u by {
        vstd::arithmetic::div_mod::lemma_fundamental_div_mod(start, n);
        let s = start % n;
        let q = start / n;
        let wrap: int = if u >= s {
            0
        } else {
            1
        };
        let a: int = u - s + wrap * n;
        assert(start + a == (q + wrap) * n + u) by (nonlinear_arith)
            requires
                start == n * q + s,
                a == u - s + wrap * n,
        ;
        vstd::arithmetic::div_mod::lemma_fundamental_div_mod_converse(start + a, n, q + wrap, u);
        assert(a == attempt_reaching(start, u, count));
    }
}

} // verus!
