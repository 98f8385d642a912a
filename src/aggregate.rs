use vstd::prelude::*;
use crate::record::{Game, Category, bestseller, key_spec};

verus! {

/// What a grouping accumulates besides the record count.
#[derive(Clone, Copy, Debug, PartialEq, Eq, Structural)]
pub enum Mode {
    /// Every record counts; the metric is the number of bestsellers.
    Hits,
    /// Only records with sales count; the metric is the sum of their sales.
    Sales,
}

/// The accumulated figures of one group.
#[derive(Clone, Debug)]
pub struct Group {
    pub key: String,
    pub count: u32,
    pub metric: i128,
}

/// Whether a record takes part in a grouping of mode `m`.
pub open spec fn counts_in(g: Game, m: Mode) -> bool {
    match m {
        Mode::Hits => true,
        Mode::Sales => g.global_sales is Some,
    }
}

/// What a taking-part record adds to its group's metric.
pub open spec fn amount(g: Game, m: Mode) -> int {
    match m {
        Mode::Hits => if bestseller(g) { 1 } else { 0 },
        Mode::Sales => match g.global_sales {
            Some(s) => s as int,
            None => 0,
        },
    }
}

/// The number of records of `gs` that take part and carry label `k`.
pub open spec fn key_count(gs: Seq<Game>, c: Category, m: Mode, k: Seq<char>) -> nat
    decreases gs.len(),
{
    if gs.len() == 0 {
        0
    } else {
        key_count(gs.drop_last(), c, m, k) + if counts_in(gs.last(), m) && key_spec(gs.last(), c)
            == k {
            1nat
        } else {
            0nat
        }
    }
}

/// The metric summed over the records of `gs` that take part and carry label `k`.
pub open spec fn key_metric(gs: Seq<Game>, c: Category, m: Mode, k: Seq<char>) -> int
    decreases gs.len(),
{
    if gs.len() == 0 {
        0
    } else {
        key_metric(gs.drop_last(), c, m, k) + if counts_in(gs.last(), m) && key_spec(gs.last(), c)
            == k {
            amount(gs.last(), m)
        } else {
            0
        }
    }
}

/// The number of records of `gs` that take part.
pub open spec fn total_count(gs: Seq<Game>, m: Mode) -> nat
    decreases gs.len(),
{
    if gs.len() == 0 {
        0
    } else {
        total_count(gs.drop_last(), m) + if counts_in(gs.last(), m) {
            1nat
        } else {
            0nat
        }
    }
}

/// The metric summed over all records of `gs` that take part.
pub open spec fn total_metric(gs: Seq<Game>, m: Mode) -> int
    decreases gs.len(),
{
    if gs.len() == 0 {
        0
    } else {
        total_metric(gs.drop_last(), m) + if counts_in(gs.last(), m) {
            amount(gs.last(), m)
        } else {
            0
        }
    }
}

/// The number of bestsellers in `gs`.
pub open spec fn bestseller_count(gs: Seq<Game>) -> nat
    decreases gs.len(),
{
    if gs.len() == 0 {
        0
    } else {
        bestseller_count(gs.drop_last()) + if bestseller(gs.last()) {
            1nat
        } else {
            0nat
        }
    }
}

pub open spec fn sum_counts(r: Seq<Group>) -> int
    decreases r.len(),
{
    if r.len() == 0 {
        0
    } else {
        sum_counts(r.drop_last()) + r.last().count
    }
}

pub open spec fn sum_metrics(r: Seq<Group>) -> int
    decreases r.len(),
{
    if r.len() == 0 {
        0
    } else {
        sum_metrics(r.drop_last()) + r.last().metric
    }
}

/// `r` holds one group per label of the records of `gs` that take part, each
/// with that label's count and metric.
pub open spec fn groups_of(gs: Seq<Game>, c: Category, m: Mode, r: Seq<Group>) -> bool {
    &&& forall|a: int, b: int|
        0 <= a < r.len() && 0 <= b < r.len() && a != b ==> #[trigger] r[a].key@ != #[trigger] r[b].key@
    &&& forall|a: int|
        0 <= a < r.len() ==> {
            &&& #[trigger] r[a].count == key_count(gs, c, m, r[a].key@)
            &&& r[a].metric == key_metric(gs, c, m, r[a].key@)
            &&& r[a].count >= 1
        }
    &&& forall|j: int|
        0 <= j < gs.len() && counts_in(gs[j], m) ==> exists|a: int|
            0 <= a < r.len() && #[trigger] r[a].key@ == key_spec(#[trigger] gs[j], c)
}

pub proof fn lemma_key_bounds(gs: Seq<Game>, c: Category, m: Mode, k: Seq<char>)
    ensures
        key_count(gs, c, m, k) <= gs.len(),
        -(key_count(gs, c, m, k) * 0x8000_0000_0000_0000) <= key_metric(gs, c, m, k)
            <= key_count(gs, c, m, k) * 0x8000_0000_0000_0000,
        m == Mode::Hits ==> 0 <= key_metric(gs, c, m, k) <= key_count(gs, c, m, k),
    decreases gs.len(),
{
    if gs.len() > 0 {
        lemma_key_bounds(gs.drop_last(), c, m, k);
    }
}

/// A label with a positive count is carried by some record that takes part.
pub proof fn lemma_key_witness(gs: Seq<Game>, c: Category, m: Mode, k: Seq<char>)
    requires
        key_count(gs, c, m, k) > 0,
    ensures
        exists|j: int| 0 <= j < gs.len() && counts_in(gs[j], m) && key_spec(gs[j], c) == k,
    decreases gs.len(),
{
    if key_count(gs.drop_last(), c, m, k) > 0 {
        lemma_key_witness(gs.drop_last(), c, m, k);
        let j = choose|j: int|
            0 <= j < gs.drop_last().len() && counts_in(gs.drop_last()[j], m) && key_spec(
                gs.drop_last()[j],
                c,
            ) == k;
        assert(gs[j] == gs.drop_last()[j]);
    } else {
        assert(gs[gs.len() - 1] == gs.last());
    }
}

proof fn lemma_sums_update(r: Seq<Group>, p: int, g: Group)
    requires
        0 <= p < r.len(),
    ensures
        sum_counts(r.update(p, g)) == sum_counts(r) - r[p].count + g.count,
        sum_metrics(r.update(p, g)) == sum_metrics(r) - r[p].metric + g.metric,
    decreases r.len(),
{
    if p < r.len() - 1 {
        lemma_sums_update(r.drop_last(), p, g);
        assert(r.update(p, g).drop_last() =~= r.drop_last().update(p, g));
    } else {
        assert(r.update(p, g).drop_last() =~= r.drop_last());
    }
}

/// Groups the records of `games` by their label along `c`, counting and
/// accumulating in mode `m`.
///
/// Groups stand in the order in which their labels first occur. The counts
/// add up to the number of records that take part (every record for
/// `Mode::Hits`, those with sales for `Mode::Sales`), and the metrics to the
/// bestseller count or the sales total.
pub fn aggregate(games: &[Game], c: Category, m: Mode) -> (r: Vec<Group>)
    requires
        games@.len() <= u32::MAX,
    ensures
        groups_of(games@, c, m, r@),
        sum_counts(r@) == total_count(games@, m),
        sum_metrics(r@) == total_metric(games@, m),
        m == Mode::Hits ==> total_count(games@, m) == games@.len(),
        m == Mode::Hits ==> total_metric(games@, m) == bestseller_count(games@),
        total_count(games@, m) <= games@.len(),
{
    let mut r: Vec<Group> = Vec::new();
    let mut i: usize = 0;
    while i < games.len()
        invariant
            i <= games@.len() <= u32::MAX,
            groups_of(games@.take(i as int), c, m, r@),
            sum_counts(r@) == total_count(games@.take(i as int), m),
            sum_metrics(r@) == total_metric(games@.take(i as int), m),
            m == Mode::Hits ==> total_count(games@.take(i as int), m) == i,
            m == Mode::Hits ==> total_metric(games@.take(i as int), m) == bestseller_count(
                games@.take(i as int),
            ),
            total_count(games@.take(i as int), m) <= i,
        decreases games@.len() - i,
    {
        let ghost pre = games@.take(i as int);
        let ghost post = games@.take(i as int + 1);
        assert(post.drop_last() =~= pre);
        assert(post.last() == games@[i as int]);
        let g = &games[i];
        let takes_part = match m {
            Mode::Hits => true,
            Mode::Sales => g.global_sales.is_some(),
        };
        if takes_part {
            let add: i128 = match m {
                Mode::Hits => if g.is_bestseller() { 1 } else { 0 },
                Mode::Sales => match g.global_sales {
                    Some(s) => s as i128,
                    None => 0,
                },
            };
            assert(add == amount(*g, m));
            let key = g.key_of(c);
            let mut p: usize = 0;
            while p < r.len()
                invariant
                    p <= r@.len(),
                    forall|q: int| 0 <= q < p ==> #[trigger] r@[q].key@ != key@,
                ensures
                    p <= r@.len(),
                    forall|q: int| 0 <= q < p ==> #[trigger] r@[q].key@ != key@,
                    p < r@.len() ==> r@[p as int].key@ == key@,
                decreases r@.len() - p,
            {
                if r[p].key == key {
                    break;
                }
                p = p + 1;
            }
            if p < r.len() {
                let ghost old_r = r@;
                proof {
                    lemma_key_bounds(pre, c, m, key@);
                    lemma_key_bounds(post, c, m, key@);
                }
                let count = r[p].count + 1;
                let metric = r[p].metric + add;
                let ng = Group { key: r[p].key.clone(), count, metric };
                r[p] = ng;
                proof {
                    lemma_sums_update(old_r, p as int, ng);
                    assert(r@ == old_r.update(p as int, ng));
                    assert forall|a: int| 0 <= a < r@.len() implies #[trigger] r@[a].key@
                        == old_r[a].key@ by {}
                    assert forall|a: int| 0 <= a < r@.len() implies {
                        &&& #[trigger] r@[a].count == key_count(post, c, m, r@[a].key@)
                        &&& r@[a].metric == key_metric(post, c, m, r@[a].key@)
                        &&& r@[a].count >= 1
                    } by {
                        if a != p {
                            assert(old_r[a].key@ != old_r[p as int].key@);
                        }
                    }
                    assert forall|j: int|
                        0 <= j < post.len() && counts_in(post[j], m) implies exists|a: int|
                        0 <= a < r@.len() && #[trigger] r@[a].key@ == key_spec(
                            #[trigger] post[j],
                            c,
                        ) by {
                        if j < pre.len() {
                            assert(post[j] == pre[j]);
                            let a = choose|a: int|
                                0 <= a < old_r.len() && #[trigger] old_r[a].key@ == key_spec(
                                    pre[j],
                                    c,
                                );
                            assert(r@[a].key@ == old_r[a].key@);
                        } else {
                            assert(r@[p as int].key@ == key_spec(post[j], c));
                        }
                    }
                }
            } else {
                proof {
                    lemma_key_bounds(pre, c, m, key@);
                }
                let ghost old_r = r@;
                let ng = Group { key, count: 1, metric: add };
                r.push(ng);
                proof {
                    assert(r@.drop_last() =~= old_r);
                    if key_count(pre, c, m, key@) > 0 {
                        lemma_key_witness(pre, c, m, key@);
                        let j = choose|j: int|
                            0 <= j < pre.len() && counts_in(pre[j], m) && key_spec(pre[j], c)
                                == key@;
                        let a = choose|a: int|
                            0 <= a < old_r.len() && #[trigger] old_r[a].key@ == key_spec(
                                #[trigger] pre[j],
                                c,
                            );
                        assert(old_r[a].key@ != key@);
                    }
                    assert forall|a: int| 0 <= a < r@.len() implies {
                        &&& #[trigger] r@[a].count == key_count(post, c, m, r@[a].key@)
                        &&& r@[a].metric == key_metric(post, c, m, r@[a].key@)
                        &&& r@[a].count >= 1
                    } by {
                        if a < old_r.len() {
                            assert(old_r[a].key@ != key@);
                        }
                    }
                    assert forall|j: int|
                        0 <= j < post.len() && counts_in(post[j], m) implies exists|a: int|
                        0 <= a < r@.len() && #[trigger] r@[a].key@ == key_spec(
                            #[trigger] post[j],
                            c,
                        ) by {
                        if j < pre.len() {
                            assert(post[j] == pre[j]);
                            let a = choose|a: int|
                                0 <= a < old_r.len() && #[trigger] old_r[a].key@ == key_spec(
                                    pre[j],
                                    c,
                                );
                            assert(r@[a].key@ == old_r[a].key@);
                        } else {
                            assert(r@[old_r.len() as int].key@ == key_spec(post[j], c));
                        }
                    }
                }
            }
        } else {
            proof {
                assert forall|a: int| 0 <= a < r@.len() implies {
                    &&& #[trigger] r@[a].count == key_count(post, c, m, r@[a].key@)
                    &&& r@[a].metric == key_metric(post, c, m, r@[a].key@)
                    &&& r@[a].count >= 1
                } by {}
                assert forall|j: int|
                    0 <= j < post.len() && counts_in(post[j], m) implies exists|a: int|
                    0 <= a < r@.len() && #[trigger] r@[a].key@ == key_spec(#[trigger] post[j], c) by {
                    assert(j < pre.len());
                    assert(post[j] == pre[j]);
                }
            }
        }
        i = i + 1;
    }
    assert(games@.take(games@.len() as int) =~= games@);
    r
}

} // verus!
