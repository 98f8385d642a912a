use vstd::prelude::*;

verus! {

/// A rational ranking value `num / den`.
#[derive(Clone, Copy, Debug)]
pub struct Score {
    pub num: i128,
    pub den: u32,
}

impl Score {
    /// The denominator is positive and the value lies within the range of `i64`.
    pub open spec fn wf(self) -> bool {
        &&& self.den >= 1
        &&& -(self.den * 0x8000_0000_0000_0000) <= self.num <= self.den * 0x8000_0000_0000_0000
    }
}

/// `a` ranks no lower than `b`: `a.num / a.den >= b.num / b.den`.
pub open spec fn at_least(a: Score, b: Score) -> bool {
    a.num * b.den >= b.num * a.den
}

/// `r` lists distinct positions of `s`, their values in descending order, and
/// no position left out has a higher value than one listed.
pub open spec fn ranked(s: Seq<Score>, r: Seq<usize>) -> bool {
    &&& forall|i: int| 0 <= i < r.len() ==> #[trigger] r[i] < s.len()
    &&& forall|i: int, j: int| 0 <= i < j < r.len() ==> #[trigger] r[i] != #[trigger] r[j]
    &&& forall|i: int, j: int|
        0 <= i < j < r.len() ==> at_least(s[#[trigger] r[i] as int], s[#[trigger] r[j] as int])
    &&& forall|i: int, k: int|
        0 <= i < r.len() && 0 <= k < s.len() && (forall|j: int| 0 <= j < r.len() ==> r[j] != k)
            ==> at_least(s[#[trigger] r[i] as int], #[trigger] s[k])
}

pub open spec fn holds(p: Seq<usize>, x: int) -> bool {
    exists|j: int| 0 <= j < p.len() && p[j] == x
}

pub open spec fn min(a: nat, b: nat) -> nat {
    if a <= b {
        a
    } else {
        b
    }
}

proof fn lemma_at_least_transitive(a: Score, b: Score, c: Score)
    requires
        a.den >= 1,
        b.den >= 1,
        c.den >= 1,
        at_least(a, b),
        at_least(b, c),
    ensures
        at_least(a, c),
{
    let (an, ad, bn, bd, cn, cd) = (
        a.num as int,
        a.den as int,
        b.num as int,
        b.den as int,
        c.num as int,
        c.den as int,
    );
    assert(an * bd * cd >= bn * ad * cd) by (nonlinear_arith)
        requires
            an * bd >= bn * ad,
            cd >= 1,
    ;
    assert(bn * cd * ad >= cn * bd * ad) by (nonlinear_arith)
        requires
            bn * cd >= cn * bd,
            ad >= 1,
    ;
    assert(an * cd >= cn * ad) by (nonlinear_arith)
        requires
            an * bd * cd >= bn * ad * cd,
            bn * cd * ad >= cn * bd * ad,
            bd >= 1,
    ;
}

/// Compares two well-formed scores exactly.
pub fn score_at_least(a: &Score, b: &Score) -> (r: bool)
    requires
        a.wf(),
        b.wf(),
    ensures
        r == at_least(*a, *b),
{
    proof {
        let (an, ad, bn, bd) = (a.num as int, a.den as int, b.num as int, b.den as int);
        assert(-0x7fff_ffff_ffff_ffff_ffff_ffff_ffff_ffff <= an * bd
            <= 0x7fff_ffff_ffff_ffff_ffff_ffff_ffff_ffff) by (nonlinear_arith)
            requires
                -(ad * 0x8000_0000_0000_0000) <= an <= ad * 0x8000_0000_0000_0000,
                1 <= ad <= 0xffff_ffff,
                1 <= bd <= 0xffff_ffff,
        ;
        assert(-0x7fff_ffff_ffff_ffff_ffff_ffff_ffff_ffff <= bn * ad
            <= 0x7fff_ffff_ffff_ffff_ffff_ffff_ffff_ffff) by (nonlinear_arith)
            requires
                -(bd * 0x8000_0000_0000_0000) <= bn <= bd * 0x8000_0000_0000_0000,
                1 <= ad <= 0xffff_ffff,
                1 <= bd <= 0xffff_ffff,
        ;
    }
    a.num * (b.den as i128) >= b.num * (a.den as i128)
}

/// The positions of the `n` highest scores of `s`, highest first.
///
/// The result has `min(n, s.len())` distinct positions. Scores that compare
/// equal may come out in any relative order.
pub fn rank_top(s: &Vec<Score>, n: usize) -> (r: Vec<usize>)
    requires
        forall|i: int| 0 <= i < s@.len() ==> (#[trigger] s@[i]).wf(),
    ensures
        r@.len() == min(n as nat, s@.len()),
        ranked(s@, r@),
        n == 0 ==> r@.len() == 0,
        n >= s@.len() ==> r@.len() == s@.len(),
{
    let len = s.len();
    let mut perm: Vec<usize> = Vec::new();
    let mut k: usize = 0;
    while k < len
        invariant
            k <= len == s@.len(),
            perm@.len() == k,
            forall|j: int| 0 <= j < k ==> #[trigger] perm@[j] == j,
        decreases len - k,
    {
        perm.push(k);
        k = k + 1;
    }
    let m: usize = if n < len { n } else { len };
    proof {
        assert forall|x: int| 0 <= x < len implies #[trigger] holds(perm@, x) by {
            assert(perm@[x] == x);
        }
    }
    let mut pos: usize = 0;
    while pos < m
        invariant
            m <= len == s@.len() == perm@.len(),
            m == min(n as nat, len as nat),
            pos <= m,
            forall|i: int| 0 <= i < s@.len() ==> (#[trigger] s@[i]).wf(),
            forall|i: int| 0 <= i < len ==> #[trigger] perm@[i] < len,
            forall|i: int, j: int| 0 <= i < j < len ==> #[trigger] perm@[i] != #[trigger] perm@[j],
            forall|x: int| 0 <= x < len ==> #[trigger] holds(perm@, x),
            forall|i: int, j: int|
                0 <= i < pos && i < j < len ==> at_least(
                    s@[#[trigger] perm@[i] as int],
                    s@[#[trigger] perm@[j] as int],
                ),
        decreases m - pos,
    {
        let mut best: usize = pos;
        let mut q: usize = pos + 1;
        while q < len
            invariant
                pos < m <= len == s@.len() == perm@.len(),
                pos <= best < q <= len,
                forall|i: int| 0 <= i < s@.len() ==> (#[trigger] s@[i]).wf(),
                forall|i: int| 0 <= i < len ==> #[trigger] perm@[i] < len,
                forall|j: int|
                    pos <= j < q ==> at_least(
                        s@[perm@[best as int] as int],
                        s@[#[trigger] perm@[j] as int],
                    ),
            decreases len - q,
        {
            if !score_at_least(&s[perm[best]], &s[perm[q]]) {
                proof {
                    assert forall|j: int| pos <= j < q + 1 implies at_least(
                        s@[perm@[q as int] as int],
                        s@[#[trigger] perm@[j] as int],
                    ) by {
                        if j < q {
                            lemma_at_least_transitive(
                                s@[perm@[q as int] as int],
                                s@[perm@[best as int] as int],
                                s@[perm@[j] as int],
                            );
                        }
                    }
                }
                best = q;
            }
            q = q + 1;
        }
        let ghost old_perm = perm@;
        let a = perm[pos];
        let b = perm[best];
        perm[pos] = b;
        perm[best] = a;
        proof {
            assert(perm@ == old_perm.update(pos as int, b).update(best as int, a));
            assert forall|x: int| 0 <= x < len implies #[trigger] holds(perm@, x) by {
                assert(holds(old_perm, x));
                let j = choose|j: int| 0 <= j < len && old_perm[j] == x;
                if j == pos {
                    assert(perm@[best as int] == x);
                } else if j == best {
                    assert(perm@[pos as int] == x);
                } else {
                    assert(perm@[j] == x);
                }
            }
            assert forall|i: int, j: int| 0 <= i < j < len implies #[trigger] perm@[i]
                != #[trigger] perm@[j] by {
                let oi = if i == pos {
                    best as int
                } else if i == best {
                    pos as int
                } else {
                    i
                };
                let oj = if j == pos {
                    best as int
                } else if j == best {
                    pos as int
                } else {
                    j
                };
                assert(perm@[i] == old_perm[oi]);
                assert(perm@[j] == old_perm[oj]);
                assert(oi != oj);
            }
            assert forall|i: int, j: int|
                0 <= i < pos + 1 && i < j < len implies at_least(
                s@[#[trigger] perm@[i] as int],
                s@[#[trigger] perm@[j] as int],
            ) by {
                let oj = if j == pos {
                    best as int
                } else if j == best {
                    pos as int
                } else {
                    j
                };
                assert(perm@[j] == old_perm[oj]);
                if i < pos {
                    assert(perm@[i] == old_perm[i]);
                } else {
                    assert(perm@[i] == old_perm[best as int]);
                }
            }
        }
        pos = pos + 1;
    }
    let ghost full = perm@;
    perm.truncate(m);
    proof {
        assert(perm@ =~= full.take(m as int));
        assert forall|i: int, x: int|
            0 <= i < perm@.len() && 0 <= x < s@.len() && (forall|j: int|
                0 <= j < perm@.len() ==> perm@[j] != x) implies at_least(
            s@[#[trigger] perm@[i] as int],
            #[trigger] s@[x],
        ) by {
            assert(holds(full, x));
            let j = choose|j: int| 0 <= j < len && full[j] == x;
            if j < m {
                assert(perm@[j] == x);
            }
            assert(full[i] == perm@[i]);
        }
    }
    perm
}

/// No two positions of `s` hold scores of equal value.
pub open spec fn no_ties(s: Seq<Score>) -> bool {
    forall|a: int, b: int|
        0 <= a < s.len() && 0 <= b < s.len() && a != b ==> !(at_least(s[a], s[b]) && at_least(
            s[b],
            s[a],
        ))
}

proof fn lemma_rankings_agree_below(s: Seq<Score>, r1: Seq<usize>, r2: Seq<usize>, i: int)
    requires
        no_ties(s),
        ranked(s, r1),
        ranked(s, r2),
        r1.len() == r2.len(),
        0 <= i <= r1.len(),
    ensures
        forall|j: int| 0 <= j < i ==> r1[j] == r2[j],
    decreases i,
{
    if i > 0 {
        lemma_rankings_agree_below(s, r1, r2, i - 1);
        let k = i - 1;
        let (a, b) = (r1[k] as int, r2[k] as int);
        assert(at_least(s[a], s[b])) by {
            if exists|j: int| 0 <= j < r1.len() && r1[j] == b {
                let j = choose|j: int| 0 <= j < r1.len() && r1[j] == b;
                if j < k {
                    assert(r2[j] == b);
                    assert(r2[j] != r2[k]);
                }
                if j > k {
                    assert(at_least(s[r1[k] as int], s[r1[j] as int]));
                }
            } else {
                assert(at_least(s[r1[k] as int], s[b]));
            }
        }
        assert(at_least(s[b], s[a])) by {
            if exists|j: int| 0 <= j < r2.len() && r2[j] == a {
                let j = choose|j: int| 0 <= j < r2.len() && r2[j] == a;
                if j < k {
                    assert(r1[j] == a);
                    assert(r1[j] != r1[k]);
                }
                if j > k {
                    assert(at_least(s[r2[k] as int], s[r2[j] as int]));
                }
            } else {
                assert(at_least(s[r2[k] as int], s[a]));
            }
        }
    }
}

/// Ranking is deterministic up to ties: where no two scores are equal, two
/// rankings of the same scores to the same length are identical.
pub proof fn law_ranking_unique_without_ties(s: Seq<Score>, r1: Seq<usize>, r2: Seq<usize>)
    requires
        no_ties(s),
        ranked(s, r1),
        ranked(s, r2),
        r1.len() == r2.len(),
    ensures
        r1 == r2,
{
    lemma_rankings_agree_below(s, r1, r2, r1.len() as int);
    assert(r1 =~= r2);
}

} // verus!
