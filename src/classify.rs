use vstd::prelude::*;
use crate::record::{Game, bestseller};

verus! {

/// A 2x2 confusion matrix: predicted label against actual label.
#[derive(Clone, Copy, Debug, PartialEq, Eq, Structural)]
pub struct Confusion {
    pub tp: u64,
    pub fp: u64,
    pub fn_: u64,
    pub tn: u64,
}

/// The number of records of `gs` whose prediction (genre equals `genre`) is
/// `predicted` and whose bestseller flag is `actual`.
pub open spec fn outcome_count(gs: Seq<Game>, genre: Seq<char>, predicted: bool, actual: bool) -> nat
    decreases gs.len(),
{
    if gs.len() == 0 {
        0
    } else {
        outcome_count(gs.drop_last(), genre, predicted, actual) + if (gs.last().genre@ == genre)
            == predicted && bestseller(gs.last()) == actual {
            1nat
        } else {
            0nat
        }
    }
}

impl Confusion {
    pub open spec fn total(self) -> int {
        self.tp + self.fp + self.fn_ + self.tn
    }

    /// Accuracy in hundredths of a percent, rounded half up; `None` when the
    /// matrix counts nothing.
    pub open spec fn accuracy_spec(self) -> Option<int> {
        if self.total() == 0 {
            None
        } else {
            Some(((self.tp + self.tn) * 20000 + self.total()) / (2 * self.total()))
        }
    }

    /// Accuracy `(tp + tn) / total` in hundredths of a percent (so `6667`
    /// stands for 66.67%), rounded half up. An empty matrix has no accuracy.
    pub fn accuracy_basis_points(&self) -> (r: Option<u64>)
        ensures
            r is None <==> self.total() == 0,
            r matches Some(v) ==> Some(v as int) == self.accuracy_spec() && v <= 10000,
    {
        let total: u128 = self.tp as u128 + self.fp as u128 + self.fn_ as u128 + self.tn as u128;
        if total == 0 {
            return None;
        }
        let hits: u128 = self.tp as u128 + self.tn as u128;
        let num: u128 = hits * 20000 + total;
        let den: u128 = 2 * total;
        let q: u128 = num / den;
        proof {
            let (n, d, t, h, qq) = (num as int, den as int, total as int, hits as int, q as int);
            vstd::arithmetic::div_mod::lemma_fundamental_div_mod(n, d);
            assert(qq * d <= n) by (nonlinear_arith)
                requires
                    n == d * qq + n % d,
                    0 <= n % d,
            ;
            assert(qq <= 10000) by (nonlinear_arith)
                requires
                    qq * d <= n,
                    n == h * 20000 + t,
                    d == 2 * t,
                    h <= t,
                    t >= 1,
            ;
        }
        Some(q as u64)
    }
}

/// `c` holds the confusion matrix of the prediction "genre equals `genre`"
/// over `gs`.
pub open spec fn evaluates(gs: Seq<Game>, genre: Seq<char>, c: Confusion) -> bool {
    &&& c.tp == outcome_count(gs, genre, true, true)
    &&& c.fp == outcome_count(gs, genre, true, false)
    &&& c.fn_ == outcome_count(gs, genre, false, true)
    &&& c.tn == outcome_count(gs, genre, false, false)
}

/// The evaluation is deterministic: two matrices that both evaluate the same
/// records against the same genre are identical.
pub proof fn law_evaluation_unique(gs: Seq<Game>, genre: Seq<char>, a: Confusion, b: Confusion)
    requires
        evaluates(gs, genre, a),
        evaluates(gs, genre, b),
    ensures
        a == b,
{
}

/// Evaluates the prediction "every game of `genre` is a bestseller" against
/// the records' bestseller flags. The genre match is exact and case-sensitive.
pub fn genre_predictor(games: &[Game], genre: &str) -> (r: Confusion)
    ensures
        evaluates(games@, genre@, r),
        r.total() == games@.len(),
{
    let target = genre.to_owned();
    let mut r = Confusion { tp: 0, fp: 0, fn_: 0, tn: 0 };
    let mut i: usize = 0;
    while i < games.len()
        invariant
            i <= games@.len(),
            target@ == genre@,
            r.tp == outcome_count(games@.take(i as int), genre@, true, true),
            r.fp == outcome_count(games@.take(i as int), genre@, true, false),
            r.fn_ == outcome_count(games@.take(i as int), genre@, false, true),
            r.tn == outcome_count(games@.take(i as int), genre@, false, false),
            r.total() == i,
        decreases games@.len() - i,
    {
        assert(games@.take(i as int + 1).drop_last() =~= games@.take(i as int));
        let g = &games[i];
        let predicted = g.genre == target;
        let actual = g.is_bestseller();
        if predicted && actual {
            r.tp = r.tp + 1;
        } else if predicted {
            r.fp = r.fp + 1;
        } else if actual {
            r.fn_ = r.fn_ + 1;
        } else {
            r.tn = r.tn + 1;
        }
        i = i + 1;
    }
    assert(games@.take(games@.len() as int) =~= games@);
    r
}

} // verus!
