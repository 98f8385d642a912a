use vstd::prelude::*;
use crate::record::{Game, Category, bestseller, key_spec};
use crate::aggregate::{
    total_count,
    counts_in,
    Group,
    Mode,
    aggregate,
    groups_of,
    key_count,
    key_metric,
    lemma_key_bounds,
    lemma_key_witness,
};
use crate::rank::{Score, at_least, min, rank_top};

verus! {

/// How many groups a category report lists.
pub const TOP_GROUPS: usize = 10;

/// A category report: the leading groups, best first, and how many distinct
/// labels there were.
#[derive(Debug)]
pub struct CategoryRanking {
    pub top: Vec<Group>,
    pub unique: usize,
}

/// The labels carried by at least one record that takes part.
pub open spec fn labels(gs: Seq<Game>, c: Category, m: Mode) -> Set<Seq<char>> {
    Set::new(|k: Seq<char>| key_count(gs, c, m, k) > 0)
}

/// A group with count `ca` and metric `ma` ranks no lower than one with `cb`
/// and `mb`: by bestseller count in `Mode::Hits`, by average sales
/// (`ma / ca` against `mb / cb`) in `Mode::Sales`.
pub open spec fn no_lower(m: Mode, ca: int, ma: int, cb: int, mb: int) -> bool {
    match m {
        Mode::Hits => ma >= mb,
        Mode::Sales => ma * cb >= mb * ca,
    }
}

pub open spec fn group_score(g: Group, m: Mode) -> Score {
    match m {
        Mode::Hits => Score { num: g.metric, den: 1 },
        Mode::Sales => Score { num: g.metric, den: g.count },
    }
}

/// `r` is the ranking of the labels of `gs` along `c` in mode `m`, cut to `n`.
pub open spec fn ranks_labels(gs: Seq<Game>, c: Category, m: Mode, n: nat, r: CategoryRanking) -> bool {
    let top = r.top@;
    &&& labels(gs, c, m).finite()
    &&& r.unique == labels(gs, c, m).len()
    &&& top.len() == min(n, r.unique as nat)
    &&& forall|i: int|
        0 <= i < top.len() ==> {
            &&& #[trigger] top[i].count == key_count(gs, c, m, top[i].key@)
            &&& top[i].metric == key_metric(gs, c, m, top[i].key@)
            &&& top[i].count >= 1
        }
    &&& forall|i: int, j: int|
        0 <= i < j < top.len() ==> #[trigger] top[i].key@ != #[trigger] top[j].key@
    &&& forall|i: int, j: int|
        0 <= i < j < top.len() ==> no_lower(
            m,
            #[trigger] top[i].count as int,
            top[i].metric as int,
            #[trigger] top[j].count as int,
            top[j].metric as int,
        )
    &&& forall|i: int, k: Seq<char>|
        0 <= i < top.len() && #[trigger] labels(gs, c, m).contains(k) && (forall|j: int|
            0 <= j < top.len() ==> top[j].key@ != k) ==> no_lower(
            m,
            #[trigger] top[i].count as int,
            top[i].metric as int,
            key_count(gs, c, m, k) as int,
            key_metric(gs, c, m, k),
        )
}

proof fn lemma_score_order(m: Mode, ga: Group, gb: Group)
    requires
        at_least(group_score(ga, m), group_score(gb, m)),
    ensures
        no_lower(m, ga.count as int, ga.metric as int, gb.count as int, gb.metric as int),
{
    match m {
        Mode::Hits => {
            let (sa, sb) = (group_score(ga, m), group_score(gb, m));
            assert(sa.den == 1 && sb.den == 1);
            let (an, ad, bn, bd) = (sa.num as int, sa.den as int, sb.num as int, sb.den as int);
            assert(an * bd == an && bn * ad == bn) by (nonlinear_arith)
                requires
                    ad == 1,
                    bd == 1,
            ;
        },
        Mode::Sales => {},
    }
}

/// No two labels of `gs` rank equally.
pub open spec fn labels_untied(gs: Seq<Game>, c: Category, m: Mode) -> bool {
    forall|k1: Seq<char>, k2: Seq<char>|
        #[trigger] labels(gs, c, m).contains(k1) && #[trigger] labels(gs, c, m).contains(k2) && k1
            != k2 ==> !(no_lower(
            m,
            key_count(gs, c, m, k1) as int,
            key_metric(gs, c, m, k1),
            key_count(gs, c, m, k2) as int,
            key_metric(gs, c, m, k2),
        ) && no_lower(
            m,
            key_count(gs, c, m, k2) as int,
            key_metric(gs, c, m, k2),
            key_count(gs, c, m, k1) as int,
            key_metric(gs, c, m, k1),
        ))
}

proof fn lemma_label_ranks_no_lower(
    gs: Seq<Game>,
    c: Category,
    m: Mode,
    n: nat,
    r1: CategoryRanking,
    r2: CategoryRanking,
    k: int,
)
    requires
        ranks_labels(gs, c, m, n, r1),
        ranks_labels(gs, c, m, n, r2),
        0 <= k < r1.top@.len(),
        k < r2.top@.len(),
        forall|j: int| 0 <= j < k ==> r1.top@[j].key@ == r2.top@[j].key@,
    ensures
        labels(gs, c, m).contains(r2.top@[k].key@),
        no_lower(
            m,
            r1.top@[k].count as int,
            r1.top@[k].metric as int,
            key_count(gs, c, m, r2.top@[k].key@) as int,
            key_metric(gs, c, m, r2.top@[k].key@),
        ),
{
    let (t1, t2) = (r1.top@, r2.top@);
    let b = t2[k].key@;
    assert(t2[k].count >= 1);
    assert(labels(gs, c, m).contains(b));
    assert(t1[k].count >= 1);
    if exists|j: int| 0 <= j < t1.len() && t1[j].key@ == b {
        let j = choose|j: int| 0 <= j < t1.len() && t1[j].key@ == b;
        if j < k {
            assert(t2[j].key@ == b);
        }
        if j > k {
            assert(t1[j].count == key_count(gs, c, m, t1[j].key@));
            assert(no_lower(
                m,
                t1[k].count as int,
                t1[k].metric as int,
                t1[j].count as int,
                t1[j].metric as int,
            ));
        }
    }
}

proof fn lemma_label_rankings_agree_below(
    gs: Seq<Game>,
    c: Category,
    m: Mode,
    n: nat,
    r1: CategoryRanking,
    r2: CategoryRanking,
    i: int,
)
    requires
        labels_untied(gs, c, m),
        ranks_labels(gs, c, m, n, r1),
        ranks_labels(gs, c, m, n, r2),
        0 <= i <= r1.top@.len(),
    ensures
        forall|j: int| 0 <= j < i ==> r1.top@[j].key@ == r2.top@[j].key@,
    decreases i,
{
    if i > 0 {
        let k = i - 1;
        lemma_label_rankings_agree_below(gs, c, m, n, r1, r2, k);
        lemma_label_ranks_no_lower(gs, c, m, n, r1, r2, k);
        lemma_label_ranks_no_lower(gs, c, m, n, r2, r1, k);
        assert(r1.top@[k].count == key_count(gs, c, m, r1.top@[k].key@));
        assert(r2.top@[k].count == key_count(gs, c, m, r2.top@[k].key@));
    }
}

/// A category report is deterministic up to ties: where no two labels rank
/// equally, two reports on the same records list the same groups in the same
/// order.
pub proof fn law_category_ranking_unique_without_ties(
    gs: Seq<Game>,
    c: Category,
    m: Mode,
    n: nat,
    r1: CategoryRanking,
    r2: CategoryRanking,
)
    requires
        labels_untied(gs, c, m),
        ranks_labels(gs, c, m, n, r1),
        ranks_labels(gs, c, m, n, r2),
    ensures
        r1.unique == r2.unique,
        r1.top@.len() == r2.top@.len(),
        forall|i: int|
            0 <= i < r1.top@.len() ==> {
                &&& #[trigger] r1.top@[i].key@ == r2.top@[i].key@
                &&& r1.top@[i].count == r2.top@[i].count
                &&& r1.top@[i].metric == r2.top@[i].metric
            },
{
    lemma_label_rankings_agree_below(gs, c, m, n, r1, r2, r1.top@.len() as int);
    assert forall|i: int| 0 <= i < r1.top@.len() implies {
        &&& #[trigger] r1.top@[i].key@ == r2.top@[i].key@
        &&& r1.top@[i].count == r2.top@[i].count
        &&& r1.top@[i].metric == r2.top@[i].metric
    } by {
        assert(r1.top@[i].count == key_count(gs, c, m, r1.top@[i].key@));
        assert(r2.top@[i].count == key_count(gs, c, m, r2.top@[i].key@));
    }
}

fn copy_group(g: &Group) -> (r: Group)
    ensures
        r.key@ == g.key@,
        r.count == g.count,
        r.metric == g.metric,
{
    Group { key: g.key.clone(), count: g.count, metric: g.metric }
}

/// Groups `games` along `c` in mode `m` and keeps the `n` leading groups.
pub fn rank_groups(games: &[Game], c: Category, m: Mode, n: usize) -> (r: CategoryRanking)
    requires
        games@.len() <= u32::MAX,
    ensures
        ranks_labels(games@, c, m, n as nat, r),
{
    let ghost gs = games@;
    let groups = aggregate(games, c, m);
    let mut scores: Vec<Score> = Vec::new();
    let mut i: usize = 0;
    while i < groups.len()
        invariant
            i <= groups@.len(),
            gs == games@,
            gs.len() <= u32::MAX,
            groups_of(gs, c, m, groups@),
            scores@.len() == i,
            forall|j: int| 0 <= j < i ==> #[trigger] scores@[j] == group_score(groups@[j], m),
            forall|j: int| 0 <= j < i ==> (#[trigger] scores@[j]).wf(),
        decreases groups@.len() - i,
    {
        let g = &groups[i];
        proof {
            lemma_key_bounds(gs, c, m, g.key@);
        }
        let s = match m {
            Mode::Hits => Score { num: g.metric, den: 1 },
            Mode::Sales => Score { num: g.metric, den: g.count },
        };
        scores.push(s);
        i = i + 1;
    }
    let idx = rank_top(&scores, n);
    let mut top: Vec<Group> = Vec::new();
    let mut t: usize = 0;
    while t < idx.len()
        invariant
            t <= idx@.len(),
            scores@.len() == groups@.len(),
            forall|j: int| 0 <= j < scores@.len() ==> #[trigger] scores@[j] == group_score(groups@[j], m),
            forall|j: int| 0 <= j < idx@.len() ==> #[trigger] idx@[j] < scores@.len(),
            top@.len() == t,
            forall|j: int|
                0 <= j < t ==> {
                    &&& (#[trigger] top@[j]).key@ == groups@[idx@[j] as int].key@
                    &&& top@[j].count == groups@[idx@[j] as int].count
                    &&& top@[j].metric == groups@[idx@[j] as int].metric
                },
        decreases idx@.len() - t,
    {
        top.push(copy_group(&groups[idx[t]]));
        t = t + 1;
    }
    proof {
        let keys = groups@.map_values(|g: Group| g.key@);
        assert(keys.no_duplicates()) by {
            assert forall|a: int, b: int| 0 <= a < keys.len() && 0 <= b < keys.len() && a != b
                implies keys[a] != keys[b] by {
                assert(groups@[a].key@ != groups@[b].key@);
            }
        }
        keys.unique_seq_to_set();
        assert(keys.to_set() =~= labels(gs, c, m)) by {
            assert forall|k: Seq<char>| #[trigger] labels(gs, c, m).contains(k) implies keys.to_set().contains(k) by {
                lemma_key_witness(gs, c, m, k);
                let j = choose|j: int| 0 <= j < gs.len() && counts_in(gs[j], m) && key_spec(gs[j], c) == k;
                let a = choose|a: int| 0 <= a < groups@.len() && #[trigger] groups@[a].key@ == key_spec(#[trigger] gs[j], c);
                assert(keys[a] == k);
            }
            assert forall|k: Seq<char>| keys.to_set().contains(k) implies #[trigger] labels(gs, c, m).contains(k) by {
                let a = choose|a: int| 0 <= a < keys.len() && keys[a] == k;
                assert(groups@[a].count >= 1);
            }
        }
        assert forall|i: int, k: Seq<char>|
            0 <= i < top@.len() && #[trigger] labels(gs, c, m).contains(k) && (forall|j: int|
                0 <= j < top@.len() ==> top@[j].key@ != k) implies no_lower(
                m,
                #[trigger] top@[i].count as int,
                top@[i].metric as int,
                key_count(gs, c, m, k) as int,
                key_metric(gs, c, m, k),
            ) by {
            assert(keys.to_set().contains(k));
            let a = choose|a: int| 0 <= a < keys.len() && keys[a] == k;
            assert forall|j: int| 0 <= j < idx@.len() implies idx@[j] != a by {
                assert(top@[j].key@ != k);
            }
            assert(groups@[a].key@ == k);
            assert(at_least(scores@[idx@[i] as int], scores@[a]));
            lemma_score_order(m, groups@[idx@[i] as int], groups@[a]);
        }
        assert forall|i: int, j: int| 0 <= i < j < top@.len() implies no_lower(
            m,
            #[trigger] top@[i].count as int,
            top@[i].metric as int,
            #[trigger] top@[j].count as int,
            top@[j].metric as int,
        ) by {
            assert(at_least(scores@[idx@[i] as int], scores@[idx@[j] as int]));
            lemma_score_order(m, groups@[idx@[i] as int], groups@[idx@[j] as int]);
        }
        assert forall|i: int, j: int| 0 <= i < j < top@.len() implies #[trigger] top@[i].key@
            != #[trigger] top@[j].key@ by {
            assert(idx@[i] != idx@[j]);
        }
    }
    CategoryRanking { top, unique: groups.len() }
}

/// Bestseller statistics along category `c`: the ten labels with the most
/// bestsellers, best first, each with its record count, and the number of
/// distinct labels. Every record counts.
pub fn analyze_category(games: &[Game], c: Category) -> (r: CategoryRanking)
    requires
        games@.len() <= u32::MAX,
    ensures
        ranks_labels(games@, c, Mode::Hits, TOP_GROUPS as nat, r),
{
    rank_groups(games, c, Mode::Hits, TOP_GROUPS)
}

/// Average sales along category `c`: the ten labels with the highest average
/// sales (`metric / count`), best first, and the number of distinct labels.
/// Records without sales are left out entirely.
pub fn average_sales_by_category(games: &[Game], c: Category) -> (r: CategoryRanking)
    requires
        games@.len() <= u32::MAX,
    ensures
        ranks_labels(games@, c, Mode::Sales, TOP_GROUPS as nat, r),
{
    rank_groups(games, c, Mode::Sales, TOP_GROUPS)
}

/// `r` lists, best first, the names and sales of the `n` records of `gs` with
/// the highest sales, taken from the distinct positions `src`; records
/// without sales are not ranked.
pub open spec fn lists_top_sales(gs: Seq<Game>, n: nat, r: Seq<(String, i64)>, src: Seq<int>) -> bool {
    &&& src.len() == r.len() == min(n, total_count(gs, Mode::Sales))
    &&& forall|t: int|
        0 <= t < r.len() ==> {
            &&& 0 <= #[trigger] src[t] < gs.len()
            &&& gs[src[t]].global_sales == Some(r[t].1)
            &&& r[t].0@ == gs[src[t]].name@
        }
    &&& forall|t: int, u: int| 0 <= t < u < r.len() ==> #[trigger] src[t] != #[trigger] src[u]
    &&& forall|t: int, u: int| 0 <= t < u < r.len() ==> #[trigger] r[t].1 >= #[trigger] r[u].1
    &&& forall|t: int, j: int|
        0 <= t < r.len() && 0 <= j < gs.len() && (forall|u: int| 0 <= u < r.len() ==> src[u] != j)
            ==> match #[trigger] gs[j].global_sales {
            Some(v) => #[trigger] r[t].1 >= v,
            None => true,
        }
}

/// The `n` best-selling records, best first, as name and sales. Records
/// without sales are left out; equal sales may come in any order.
pub fn top_games_by_sales(games: &[Game], n: usize) -> (r: Vec<(String, i64)>)
    ensures
        exists|src: Seq<int>| lists_top_sales(games@, n as nat, r@, src),
{
    let ghost gs = games@;
    let mut pos: Vec<usize> = Vec::new();
    let mut scores: Vec<Score> = Vec::new();
    let mut i: usize = 0;
    while i < games.len()
        invariant
            i <= gs.len(),
            gs == games@,
            pos@.len() == scores@.len() == total_count(gs.take(i as int), Mode::Sales),
            forall|j: int|
                0 <= j < pos@.len() ==> {
                    &&& #[trigger] pos@[j] < i
                    &&& gs[pos@[j] as int].global_sales == Some(scores@[j].num as i64)
                },
            forall|j: int|
                0 <= j < scores@.len() ==> {
                    &&& (#[trigger] scores@[j]).wf()
                    &&& scores@[j].den == 1
                    &&& i64::MIN <= scores@[j].num <= i64::MAX
                },
            forall|j: int, k: int| 0 <= j < k < pos@.len() ==> #[trigger] pos@[j] < #[trigger] pos@[k],
            forall|x: int|
                0 <= x < i && (#[trigger] gs[x]).global_sales is Some ==> exists|j: int|
                    0 <= j < pos@.len() && pos@[j] == x,
        decreases gs.len() - i,
    {
        assert(gs.take(i as int + 1).drop_last() =~= gs.take(i as int));
        if let Some(v) = games[i].global_sales {
            let ghost old_pos = pos@;
            pos.push(i);
            scores.push(Score { num: v as i128, den: 1 });
            proof {
                assert forall|x: int|
                    0 <= x < i + 1 && (#[trigger] gs[x]).global_sales is Some implies exists|j: int|
                    0 <= j < pos@.len() && pos@[j] == x by {
                    if x == i {
                        assert(pos@[pos@.len() - 1] == x);
                    } else {
                        let j = choose|j: int| 0 <= j < old_pos.len() && old_pos[j] == x;
                        assert(pos@[j] == x);
                    }
                }
            }
        }
        i = i + 1;
    }
    assert(gs.take(gs.len() as int) =~= gs);
    let idx = rank_top(&scores, n);
    let mut r: Vec<(String, i64)> = Vec::new();
    let mut t: usize = 0;
    while t < idx.len()
        invariant
            t <= idx@.len(),
            gs == games@,
            pos@.len() == scores@.len(),
            forall|j: int|
                0 <= j < pos@.len() ==> {
                    &&& #[trigger] pos@[j] < gs.len()
                    &&& gs[pos@[j] as int].global_sales == Some(scores@[j].num as i64)
                },
            forall|j: int|
                0 <= j < scores@.len() ==> {
                    &&& (#[trigger] scores@[j]).wf()
                    &&& scores@[j].den == 1
                    &&& i64::MIN <= scores@[j].num <= i64::MAX
                },
            forall|j: int| 0 <= j < idx@.len() ==> #[trigger] idx@[j] < scores@.len(),
            r@.len() == t,
            forall|u: int|
                0 <= u < t ==> {
                    &&& (#[trigger] r@[u]).0@ == gs[pos@[idx@[u] as int] as int].name@
                    &&& r@[u].1 == scores@[idx@[u] as int].num as i64
                },
        decreases idx@.len() - t,
    {
        let p = pos[idx[t]];
        let g = &games[p];
        let v = scores[idx[t]].num as i64;
        r.push((g.name.clone(), v));
        t = t + 1;
    }
    proof {
        let src = Seq::new(r@.len(), |u: int| pos@[idx@[u] as int] as int);
        assert forall|t: int, u: int| 0 <= t < u < r@.len() implies #[trigger] src[t]
            != #[trigger] src[u] by {
            assert(idx@[t] != idx@[u]);
            if idx@[t] < idx@[u] {
                assert(pos@[idx@[t] as int] < pos@[idx@[u] as int]);
            } else {
                assert(pos@[idx@[u] as int] < pos@[idx@[t] as int]);
            }
        }
        assert forall|t: int, u: int| 0 <= t < u < r@.len() implies #[trigger] r@[t].1
            >= #[trigger] r@[u].1 by {
            assert(at_least(scores@[idx@[t] as int], scores@[idx@[u] as int]));
            lemma_unit_order(scores@[idx@[t] as int], scores@[idx@[u] as int]);
        }
        assert forall|t: int, j: int|
            0 <= t < r@.len() && 0 <= j < gs.len() && (forall|u: int|
                0 <= u < r@.len() ==> src[u] != j) implies match #[trigger] gs[j].global_sales {
            Some(v) => #[trigger] r@[t].1 >= v,
            None => true,
        } by {
            if gs[j].global_sales is Some {
                let a = choose|a: int| 0 <= a < pos@.len() && pos@[a] == j;
                assert forall|u: int| 0 <= u < idx@.len() implies idx@[u] != a by {
                    assert(src[u] != j);
                }
                assert(at_least(scores@[idx@[t] as int], scores@[a]));
                lemma_unit_order(scores@[idx@[t] as int], scores@[a]);
            }
        }
        assert(lists_top_sales(gs, n as nat, r@, src));
    }
    r
}

/// The widest bar of the yearly trend.
pub const BAR_LIMIT: u32 = 50;

/// One year of the bestseller trend; `bar` is the bar's width.
#[derive(Clone, Copy, Debug, PartialEq, Eq, Structural)]
pub struct YearCount {
    pub year: u32,
    pub count: u32,
    pub bar: u32,
}

/// The number of bestsellers of `gs` released in year `y`.
pub open spec fn year_hits(gs: Seq<Game>, y: u32) -> nat
    decreases gs.len(),
{
    if gs.len() == 0 {
        0
    } else {
        year_hits(gs.drop_last(), y) + if gs.last().year == Some(y) && bestseller(gs.last()) {
            1nat
        } else {
            0nat
        }
    }
}

/// A bar is half the count, rounded down, and never wider than `BAR_LIMIT`.
pub open spec fn bar_width(count: int) -> int {
    if count / 2 < BAR_LIMIT {
        count / 2
    } else {
        BAR_LIMIT as int
    }
}

/// `r` holds, by ascending year, each year of a bestseller of `gs` with its
/// bestseller count and bar.
pub open spec fn year_trend(gs: Seq<Game>, r: Seq<YearCount>) -> bool {
    &&& forall|i: int, j: int| 0 <= i < j < r.len() ==> #[trigger] r[i].year < #[trigger] r[j].year
    &&& forall|i: int|
        0 <= i < r.len() ==> {
            &&& #[trigger] r[i].count == year_hits(gs, r[i].year)
            &&& r[i].count >= 1
            &&& r[i].bar == bar_width(r[i].count as int)
        }
    &&& forall|j: int|
        0 <= j < gs.len() && bestseller(gs[j]) && gs[j].year is Some ==> exists|i: int|
            0 <= i < r.len() && Some(#[trigger] r[i].year) == (#[trigger] gs[j]).year
}

proof fn lemma_year_bounds(gs: Seq<Game>, y: u32)
    ensures
        year_hits(gs, y) <= gs.len(),
    decreases gs.len(),
{
    if gs.len() > 0 {
        lemma_year_bounds(gs.drop_last(), y);
    }
}

proof fn lemma_year_witness(gs: Seq<Game>, y: u32)
    requires
        year_hits(gs, y) > 0,
    ensures
        exists|j: int| 0 <= j < gs.len() && bestseller(gs[j]) && gs[j].year == Some(y),
    decreases gs.len(),
{
    if year_hits(gs.drop_last(), y) > 0 {
        lemma_year_witness(gs.drop_last(), y);
        let j = choose|j: int|
            0 <= j < gs.drop_last().len() && bestseller(gs.drop_last()[j]) && gs.drop_last()[j].year
                == Some(y);
        assert(gs[j] == gs.drop_last()[j]);
    } else {
        assert(gs[gs.len() - 1] == gs.last());
    }
}

fn bar_of(count: u32) -> (r: u32)
    ensures
        r == bar_width(count as int),
{
    let half = count / 2;
    if half < BAR_LIMIT {
        half
    } else {
        BAR_LIMIT
    }
}

/// Bestsellers per release year, by ascending year, each with a bar of half
/// its count (at most `BAR_LIMIT`). Records without a year or without
/// bestselling sales are left out.
pub fn yearly_bestseller_trend_with_bar(games: &[Game]) -> (r: Vec<YearCount>)
    requires
        games@.len() <= u32::MAX,
    ensures
        year_trend(games@, r@),
{
    let ghost gs = games@;
    let mut r: Vec<YearCount> = Vec::new();
    let mut i: usize = 0;
    while i < games.len()
        invariant
            i <= gs.len() <= u32::MAX,
            gs == games@,
            year_trend(gs.take(i as int), r@),
        decreases gs.len() - i,
    {
        let ghost pre = gs.take(i as int);
        let ghost post = gs.take(i as int + 1);
        assert(post.drop_last() =~= pre);
        assert(post.last() == gs[i as int]);
        let g = &games[i];
        let best = g.is_bestseller();
        match g.year {
            Some(y) if best => {
                let mut p: usize = 0;
                while p < r.len()
                    invariant
                        p <= r@.len(),
                        forall|q: int| 0 <= q < p ==> #[trigger] r@[q].year < y,
                    ensures
                        p <= r@.len(),
                        forall|q: int| 0 <= q < p ==> #[trigger] r@[q].year < y,
                        p < r@.len() ==> r@[p as int].year >= y,
                    decreases r@.len() - p,
                {
                    if r[p].year >= y {
                        break;
                    }
                    p = p + 1;
                }
                let ghost old_r = r@;
                proof {
                    lemma_year_bounds(pre, y);
                }
                if p < r.len() && r[p].year == y {
                    let count = r[p].count + 1;
                    let e = YearCount { year: y, count, bar: bar_of(count) };
                    r[p] = e;
                    proof {
                        assert(r@ == old_r.update(p as int, e));
                        assert forall|a: int| 0 <= a < r@.len() implies {
                            &&& #[trigger] r@[a].count == year_hits(post, r@[a].year)
                            &&& r@[a].count >= 1
                            &&& r@[a].bar == bar_width(r@[a].count as int)
                        } by {
                            if a != p {
                                assert(old_r[a].year != y) by {
                                    if a < p {
                                        assert(old_r[a].year < old_r[p as int].year);
                                    } else {
                                        assert(old_r[p as int].year < old_r[a].year);
                                    }
                                }
                            }
                        }
                        assert forall|j: int|
                            0 <= j < post.len() && bestseller(post[j]) && post[j].year is Some implies exists|a: int|
                            0 <= a < r@.len() && Some(#[trigger] r@[a].year) == (#[trigger] post[j]).year by {
                            if j < pre.len() {
                                assert(post[j] == pre[j]);
                                let a = choose|a: int| 0 <= a < old_r.len() && Some(#[trigger] old_r[a].year) == pre[j].year;
                                assert(r@[a].year == old_r[a].year);
                            } else {
                                assert(r@[p as int].year == y);
                            }
                        }
                    }
                } else {
                    proof {
                        if year_hits(pre, y) > 0 {
                            lemma_year_witness(pre, y);
                            let j = choose|j: int| 0 <= j < pre.len() && bestseller(pre[j]) && pre[j].year == Some(y);
                            let a = choose|a: int| 0 <= a < old_r.len() && Some(#[trigger] old_r[a].year) == (#[trigger] pre[j]).year;
                            if a < p {
                                assert(old_r[a].year < y);
                            } else if a > p {
                                assert(old_r[p as int].year < old_r[a].year);
                            }
                        }
                    }
                    let e = YearCount { year: y, count: 1, bar: bar_of(1) };
                    r.insert(p, e);
                    proof {
                        assert(r@ == old_r.insert(p as int, e));
                        assert forall|a: int, b: int| 0 <= a < b < r@.len() implies #[trigger] r@[a].year < #[trigger] r@[b].year by {
                            if b < p {
                            } else if a < p && b == p {
                            } else if a < p {
                                assert(r@[b] == old_r[b - 1]);
                                assert(old_r[a].year < y);
                                if p < old_r.len() {
                                    assert(old_r[p as int].year <= old_r[b - 1].year) by {
                                        if p < b - 1 {
                                            assert(old_r[p as int].year < old_r[b - 1].year);
                                        }
                                    }
                                }
                            } else if a == p {
                                assert(r@[b] == old_r[b - 1]);
                                if p < b - 1 {
                                    assert(old_r[p as int].year < old_r[b - 1].year);
                                }
                            } else {
                                assert(r@[a] == old_r[a - 1]);
                                assert(r@[b] == old_r[b - 1]);
                            }
                        }
                        assert forall|a: int| 0 <= a < r@.len() implies {
                            &&& #[trigger] r@[a].count == year_hits(post, r@[a].year)
                            &&& r@[a].count >= 1
                            &&& r@[a].bar == bar_width(r@[a].count as int)
                        } by {
                            if a < p {
                                assert(r@[a] == old_r[a]);
                            } else if a > p {
                                assert(r@[a] == old_r[a - 1]);
                                assert(old_r[a - 1].year != y) by {
                                    if a - 1 > p {
                                        assert(old_r[p as int].year < old_r[a - 1].year);
                                    }
                                }
                            }
                        }
                        assert forall|j: int|
                            0 <= j < post.len() && bestseller(post[j]) && post[j].year is Some implies exists|a: int|
                            0 <= a < r@.len() && Some(#[trigger] r@[a].year) == (#[trigger] post[j]).year by {
                            if j < pre.len() {
                                assert(post[j] == pre[j]);
                                let a = choose|a: int| 0 <= a < old_r.len() && Some(#[trigger] old_r[a].year) == pre[j].year;
                                if a < p {
                                    assert(r@[a] == old_r[a]);
                                } else {
                                    assert(r@[a + 1] == old_r[a]);
                                }
                            } else {
                                assert(r@[p as int].year == y);
                            }
                        }
                    }
                }
            },
            _ => {
                proof {
                    assert forall|a: int| 0 <= a < r@.len() implies {
                        &&& #[trigger] r@[a].count == year_hits(post, r@[a].year)
                        &&& r@[a].count >= 1
                        &&& r@[a].bar == bar_width(r@[a].count as int)
                    } by {}
                    assert forall|j: int|
                        0 <= j < post.len() && bestseller(post[j]) && post[j].year is Some implies exists|a: int|
                        0 <= a < r@.len() && Some(#[trigger] r@[a].year) == (#[trigger] post[j]).year by {
                        assert(j < pre.len());
                        assert(post[j] == pre[j]);
                    }
                }
            },
        }
        i = i + 1;
    }
    assert(gs.take(gs.len() as int) =~= gs);
    r
}

proof fn lemma_trend_years_shared(gs: Seq<Game>, r1: Seq<YearCount>, r2: Seq<YearCount>, k: int)
    requires
        year_trend(gs, r1),
        year_trend(gs, r2),
        0 <= k < r1.len(),
    ensures
        exists|j: int| 0 <= j < r2.len() && r2[j].year == r1[k].year,
{
    assert(r1[k].count >= 1);
    lemma_year_witness(gs, r1[k].year);
    let x = choose|x: int| 0 <= x < gs.len() && bestseller(gs[x]) && gs[x].year == Some(r1[k].year);
    let j = choose|j: int| 0 <= j < r2.len() && Some(#[trigger] r2[j].year) == (#[trigger] gs[x]).year;
    assert(r2[j].year == r1[k].year);
}

proof fn lemma_trends_agree_below(gs: Seq<Game>, r1: Seq<YearCount>, r2: Seq<YearCount>, i: int)
    requires
        year_trend(gs, r1),
        year_trend(gs, r2),
        0 <= i <= r1.len(),
        i <= r2.len(),
    ensures
        forall|j: int| 0 <= j < i ==> r1[j].year == r2[j].year,
    decreases i,
{
    if i > 0 {
        let k = i - 1;
        lemma_trends_agree_below(gs, r1, r2, k);
        lemma_trend_years_shared(gs, r1, r2, k);
        lemma_trend_years_shared(gs, r2, r1, k);
        let j2 = choose|j: int| 0 <= j < r2.len() && r2[j].year == r1[k].year;
        let j1 = choose|j: int| 0 <= j < r1.len() && r1[j].year == r2[k].year;
        if j2 < k {
            assert(r1[j2].year < r1[k].year);
        }
        if j1 < k {
            assert(r2[j1].year < r2[k].year);
        }
        if j2 > k {
            assert(r2[k].year < r2[j2].year);
        }
        if j1 > k {
            assert(r1[k].year < r1[j1].year);
        }
    }
}

/// The yearly trend is deterministic: any two results that meet its
/// description for the same records are identical.
pub proof fn law_year_trend_unique(gs: Seq<Game>, r1: Seq<YearCount>, r2: Seq<YearCount>)
    requires
        year_trend(gs, r1),
        year_trend(gs, r2),
    ensures
        r1 == r2,
{
    if r1.len() != r2.len() {
        let (a, b) = if r1.len() < r2.len() {
            (r1, r2)
        } else {
            (r2, r1)
        };
        let k = a.len() as int;
        lemma_trends_agree_below(gs, a, b, k);
        lemma_trend_years_shared(gs, b, a, k);
        let j = choose|j: int| 0 <= j < a.len() && a[j].year == b[k].year;
        assert(b[j].year < b[k].year);
    }
    lemma_trends_agree_below(gs, r1, r2, r1.len() as int);
    assert forall|i: int| 0 <= i < r1.len() implies r1[i] == r2[i] by {
        assert(r1[i].year == r2[i].year);
        assert(r1[i].count == year_hits(gs, r1[i].year));
        assert(r2[i].count == year_hits(gs, r2[i].year));
    }
    assert(r1 =~= r2);
}

/// No two records of `gs` have equal sales.
pub open spec fn sales_untied(gs: Seq<Game>) -> bool {
    forall|a: int, b: int|
        0 <= a < gs.len() && 0 <= b < gs.len() && a != b && (#[trigger] gs[a]).global_sales is Some
            ==> (#[trigger] gs[b]).global_sales != gs[a].global_sales
}

proof fn lemma_sales_lists_agree_below(
    gs: Seq<Game>,
    n: nat,
    r1: Seq<(String, i64)>,
    s1: Seq<int>,
    r2: Seq<(String, i64)>,
    s2: Seq<int>,
    i: int,
)
    requires
        sales_untied(gs),
        lists_top_sales(gs, n, r1, s1),
        lists_top_sales(gs, n, r2, s2),
        0 <= i <= r1.len(),
    ensures
        forall|j: int| 0 <= j < i ==> s1[j] == s2[j],
    decreases i,
{
    if i > 0 {
        let k = i - 1;
        lemma_sales_lists_agree_below(gs, n, r1, s1, r2, s2, k);
        let (a, b) = (s1[k], s2[k]);
        assert(r1[k].1 >= r2[k].1) by {
            if exists|j: int| 0 <= j < r1.len() && s1[j] == b {
                let j = choose|j: int| 0 <= j < r1.len() && s1[j] == b;
                if j < k {
                    assert(s2[j] == b);
                }
                if j > k {
                    assert(r1[k].1 >= r1[j].1);
                }
            } else {
                assert(gs[b].global_sales == Some(r2[k].1));
            }
        }
        assert(r2[k].1 >= r1[k].1) by {
            if exists|j: int| 0 <= j < r2.len() && s2[j] == a {
                let j = choose|j: int| 0 <= j < r2.len() && s2[j] == a;
                if j < k {
                    assert(s1[j] == a);
                }
                if j > k {
                    assert(r2[k].1 >= r2[j].1);
                }
            } else {
                assert(gs[a].global_sales == Some(r1[k].1));
            }
        }
        assert(gs[a].global_sales == gs[b].global_sales);
    }
}

/// The top-sales list is deterministic up to ties: where no two records have
/// equal sales, two lists of the same length from the same records agree.
pub proof fn law_top_sales_unique_without_ties(
    gs: Seq<Game>,
    n: nat,
    r1: Seq<(String, i64)>,
    s1: Seq<int>,
    r2: Seq<(String, i64)>,
    s2: Seq<int>,
)
    requires
        sales_untied(gs),
        lists_top_sales(gs, n, r1, s1),
        lists_top_sales(gs, n, r2, s2),
    ensures
        r1.len() == r2.len(),
        forall|t: int|
            0 <= t < r1.len() ==> #[trigger] r1[t].0@ == r2[t].0@ && r1[t].1 == r2[t].1,
{
    lemma_sales_lists_agree_below(gs, n, r1, s1, r2, s2, r1.len() as int);
    assert forall|t: int| 0 <= t < r1.len() implies #[trigger] r1[t].0@ == r2[t].0@ && r1[t].1
        == r2[t].1 by {
        assert(s1[t] == s2[t]);
    }
}

proof fn lemma_unit_order(a: Score, b: Score)
    requires
        a.den == 1,
        b.den == 1,
        at_least(a, b),
    ensures
        a.num >= b.num,
{
    let (an, ad, bn, bd) = (a.num as int, a.den as int, b.num as int, b.den as int);
    assert(an * bd == an && bn * ad == bn) by (nonlinear_arith)
        requires
            ad == 1,
            bd == 1,
    ;
}

} // verus!
