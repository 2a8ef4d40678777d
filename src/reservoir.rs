//! Reservoir sampling with a reservoir of one: after `n` candidates, each has
//! been kept with probability `1/n`.

use vstd::prelude::*;
use crate::random::draw_below;

verus! {

/// Index of the last zero draw, or -1 where there is none. The candidate at
/// that index is the one kept: a zero draw replaces the kept candidate.
pub open spec fn last_zero(draws: Seq<nat>) -> int
    decreases draws.len(),
{
    if draws.len() == 0 {
        -1
    } else if draws.last() == 0 {
        draws.len() - 1
    } else {
        last_zero(draws.drop_last())
    }
}

/// The draw for the candidate at index `k` lies in `[0, k]`.
pub open spec fn valid_draws(draws: Seq<nat>) -> bool {
    forall|k: int| 0 <= k < draws.len() ==> #[trigger] draws[k] <= k
}

/// The candidate kept after `seen` were observed with the given draws.
pub open spec fn kept(seen: Seq<Seq<char>>, draws: Seq<nat>) -> Option<Seq<char>> {
    if seen.len() == 0 {
        None
    } else {
        Some(seen[last_zero(draws)])
    }
}

pub open spec fn factorial(n: nat) -> nat
    decreases n,
{
    if n == 0 {
        1
    } else {
        n * factorial((n - 1) as nat)
    }
}

/// Number of valid draw sequences of length `n` whose last draw is below `j`
/// and which satisfy `f`.
pub open spec fn tally(n: nat, f: spec_fn(Seq<nat>) -> bool, j: nat) -> nat
    decreases n, j,
{
    if n == 0 {
        if f(Seq::empty()) {
            1
        } else {
            0
        }
    } else if j == 0 {
        0
    } else {
        tally(n, f, (j - 1) as nat) + tally(
            (n - 1) as nat,
            |s: Seq<nat>| f(s.push((j - 1) as nat)),
            (n - 1) as nat,
        )
    }
}

/// Number of valid draw sequences of length `n` that satisfy `f`: each one is
/// a run of `n` observations, and all of them are equally likely.
pub open spec fn draw_count(n: nat, f: spec_fn(Seq<nat>) -> bool) -> nat {
    tally(n, f, n)
}

/// Number of runs over `cands` that keep the value `c`.
pub open spec fn runs_keeping(cands: Seq<Seq<char>>, c: Seq<char>) -> nat {
    draw_count(cands.len(), |d: Seq<nat>| kept(cands, d) == Some(c))
}

proof fn lemma_last_zero_bounds(d: Seq<nat>)
    ensures
        -1 <= last_zero(d) < d.len(),
        d.len() > 0 && d[0] == 0 ==> last_zero(d) >= 0,
    decreases d.len(),
{
    if d.len() > 0 && d.last() != 0 {
        lemma_last_zero_bounds(d.drop_last());
    }
}

proof fn lemma_last_zero_push(d: Seq<nat>, j: nat)
    ensures
        last_zero(d.push(j)) == if j == 0 {
            d.len() as int
        } else {
            last_zero(d)
        },
{
    assert(d.push(j).drop_last() =~= d);
}

proof fn lemma_valid_push(s: Seq<nat>, j: nat)
    requires
        valid_draws(s),
        j <= s.len(),
    ensures
        valid_draws(s.push(j)),
{
    assert forall|k: int| 0 <= k < s.len() + 1 implies #[trigger] s.push(j)[k] <= k by {
        if k < s.len() {
            assert(s.push(j)[k] == s[k]);
        }
    }
}

proof fn lemma_tally_congruent(n: nat, f: spec_fn(Seq<nat>) -> bool, g: spec_fn(Seq<nat>) -> bool, j: nat)
    requires
        j <= n,
        forall|s: Seq<nat>| s.len() == n && valid_draws(s) ==> f(s) == g(s),
    ensures
        tally(n, f, j) == tally(n, g, j),
    decreases n, j,
{
    if n == 0 {
        assert(valid_draws(Seq::<nat>::empty()));
    }
    if n > 0 && j > 0 {
        lemma_tally_congruent(n, f, g, (j - 1) as nat);
        let fj = |s: Seq<nat>| f(s.push((j - 1) as nat));
        let gj = |s: Seq<nat>| g(s.push((j - 1) as nat));
        assert forall|s: Seq<nat>| s.len() == n - 1 && valid_draws(s) implies fj(s) == gj(s) by {
            lemma_valid_push(s, (j - 1) as nat);
            assert(s.push((j - 1) as nat).len() == n);
        }
        lemma_tally_congruent((n - 1) as nat, fj, gj, (n - 1) as nat);
    }
}

proof fn lemma_tally_split(n: nat, f: spec_fn(Seq<nat>) -> bool, g: spec_fn(Seq<nat>) -> bool, j: nat)
    requires
        forall|s: Seq<nat>| s.len() == n ==> !(f(s) && g(s)),
    ensures
        tally(n, |d: Seq<nat>| f(d) || g(d), j) == tally(n, f, j) + tally(n, g, j),
    decreases n, j,
{
    let h = |d: Seq<nat>| f(d) || g(d);
    if n == 0 {
        assert(Seq::<nat>::empty().len() == 0);
    }
    if n > 0 && j > 0 {
        lemma_tally_split(n, f, g, (j - 1) as nat);
        let fj = |s: Seq<nat>| f(s.push((j - 1) as nat));
        let gj = |s: Seq<nat>| g(s.push((j - 1) as nat));
        let hj = |s: Seq<nat>| h(s.push((j - 1) as nat));
        let fgj = |s: Seq<nat>| fj(s) || gj(s);
        assert forall|s: Seq<nat>| s.len() == n - 1 implies !(fj(s) && gj(s)) by {
            assert(s.push((j - 1) as nat).len() == n);
        }
        lemma_tally_split((n - 1) as nat, fj, gj, (n - 1) as nat);
        assert(hj =~= fgj);
    }
}

proof fn lemma_tally_never(n: nat, f: spec_fn(Seq<nat>) -> bool, j: nat)
    requires
        forall|s: Seq<nat>| s.len() == n ==> !f(s),
    ensures
        tally(n, f, j) == 0,
    decreases n, j,
{
    if n == 0 {
        assert(Seq::<nat>::empty().len() == 0);
    }
    if n > 0 && j > 0 {
        lemma_tally_never(n, f, (j - 1) as nat);
        let fj = |s: Seq<nat>| f(s.push((j - 1) as nat));
        assert forall|s: Seq<nat>| s.len() == n - 1 implies !fj(s) by {
            assert(s.push((j - 1) as nat).len() == n);
        }
        lemma_tally_never((n - 1) as nat, fj, (n - 1) as nat);
    }
}

proof fn lemma_tally_always(n: nat, f: spec_fn(Seq<nat>) -> bool, j: nat)
    requires
        forall|s: Seq<nat>| s.len() == n ==> f(s),
    ensures
        n > 0 ==> tally(n, f, j) == j * factorial((n - 1) as nat),
        n == 0 ==> tally(n, f, j) == 1,
    decreases n, j,
{
    if n == 0 {
        assert(Seq::<nat>::empty().len() == 0);
    }
    if n > 0 && j > 0 {
        lemma_tally_always(n, f, (j - 1) as nat);
        let fj = |s: Seq<nat>| f(s.push((j - 1) as nat));
        assert forall|s: Seq<nat>| s.len() == n - 1 implies fj(s) by {
            assert(s.push((j - 1) as nat).len() == n);
        }
        lemma_tally_always((n - 1) as nat, fj, (n - 1) as nat);
        let m = (n - 1) as nat;
        assert(factorial(0) == 1);
        assert(tally(n, f, j) == (j - 1) * factorial(m) + factorial(m)) by (nonlinear_arith)
            requires
                tally(n, f, j) == tally(n, f, (j - 1) as nat) + tally(m, fj, m),
                tally(n, f, (j - 1) as nat) == (j - 1) * factorial(m),
                tally(m, fj, m) == factorial(m),
        ;
        assert((j - 1) * factorial(m) + factorial(m) == j * factorial(m)) by (nonlinear_arith);
    } else if n > 0 {
        assert(0 * factorial((n - 1) as nat) == 0);
    }
}

/// Tally of the runs that keep index `i`, by the bound `j` on the last draw.
proof fn lemma_tally_keeps(n: nat, i: int, j: nat)
    requires
        0 <= i < n,
        j <= n,
    ensures
        i == n - 1 ==> tally(n, |d: Seq<nat>| last_zero(d) == i, j) == if j == 0 {
            0
        } else {
            factorial((n - 1) as nat)
        },
        i < n - 1 ==> tally(n, |d: Seq<nat>| last_zero(d) == i, j) == if j == 0 {
            0
        } else {
            (j - 1) * factorial((n - 2) as nat)
        },
    decreases n, j,
{
    let f = |d: Seq<nat>| last_zero(d) == i;
    let m = (n - 1) as nat;
    if j > 0 {
        lemma_tally_keeps(n, i, (j - 1) as nat);
        let fj = |s: Seq<nat>| f(s.push((j - 1) as nat));
        assert(tally(n, f, j) == tally(n, f, (j - 1) as nat) + tally(m, fj, m));
        if j == 1 {
            if i == n - 1 {
                assert forall|s: Seq<nat>| s.len() == m implies fj(s) by {
                    lemma_last_zero_push(s, 0);
                }
                lemma_tally_always(m, fj, m);
                if m > 0 {
                    assert(factorial(m) == m * factorial((m - 1) as nat));
                }
            } else {
                assert forall|s: Seq<nat>| s.len() == m implies !fj(s) by {
                    lemma_last_zero_push(s, 0);
                }
                lemma_tally_never(m, fj, m);
            }
        } else {
            let g = |s: Seq<nat>| last_zero(s) == i;
            assert forall|s: Seq<nat>| s.len() == m implies fj(s) == g(s) by {
                lemma_last_zero_push(s, (j - 1) as nat);
            }
            lemma_tally_congruent(m, fj, g, m);
            if i == n - 1 {
                assert forall|s: Seq<nat>| s.len() == m implies !g(s) by {
                    lemma_last_zero_bounds(s);
                }
                lemma_tally_never(m, g, m);
            } else {
                lemma_tally_keeps(m, i, m);
                let k = factorial((n - 2) as nat);
                assert((j - 2) * k + k == (j - 1) * k) by (nonlinear_arith);
            }
        }
    }
}

/// Runs over the first `m` candidates' indices that keep the value `c`.
proof fn lemma_prefix_keeping(cands: Seq<Seq<char>>, c: Seq<char>, m: nat)
    requires
        m <= cands.len(),
        cands.len() > 0,
    ensures
        draw_count(
            cands.len(),
            |d: Seq<nat>| 0 <= last_zero(d) < m && cands[last_zero(d)] == c,
        ) == cands.take(m as int).to_multiset().count(c) * factorial((cands.len() - 1) as nat),
    decreases m,
{
    let n = cands.len();
    let k = factorial((n - 1) as nat);
    let f = |d: Seq<nat>| 0 <= last_zero(d) < m && cands[last_zero(d)] == c;
    if m == 0 {
        assert forall|s: Seq<nat>| s.len() == n implies !f(s) by {}
        lemma_tally_never(n, f, n);
        let t = cands.take(0);
        t.to_multiset_ensures();
        vstd::multiset::lemma_multiset_empty_len(t.to_multiset());
        assert(t.to_multiset().count(c) == 0) by {
            broadcast use vstd::multiset::group_multiset_axioms;
        }
    } else {
        let p = (m - 1) as nat;
        lemma_prefix_keeping(cands, c, p);
        let fp = |d: Seq<nat>| 0 <= last_zero(d) < p && cands[last_zero(d)] == c;
        let at = |d: Seq<nat>| last_zero(d) == p && cands[p as int] == c;
        assert forall|s: Seq<nat>| s.len() == n implies !(fp(s) && at(s)) by {}
        lemma_tally_split(n, fp, at, n);
        assert(f =~= |d: Seq<nat>| fp(d) || at(d));
        let t = cands.take(p as int);
        assert(cands.take(m as int) =~= t.push(cands[p as int]));
        t.to_multiset_ensures();
        lemma_uniform(n, p as int);
        if cands[p as int] == c {
            assert(at =~= |d: Seq<nat>| last_zero(d) == p);
            assert(t.to_multiset().count(c) * k + k == (t.to_multiset().count(c) + 1) * k)
                by (nonlinear_arith);
        } else {
            assert forall|s: Seq<nat>| s.len() == n implies !at(s) by {}
            lemma_tally_never(n, at, n);
        }
    }
}

/// Each value is kept by as many runs as it has occurrences among the
/// candidates, times `(n-1)!`.
proof fn lemma_runs_keeping(cands: Seq<Seq<char>>, c: Seq<char>)
    ensures
        cands.len() > 0 ==> runs_keeping(cands, c) == cands.to_multiset().count(c) * factorial(
            (cands.len() - 1) as nat,
        ),
        cands.len() == 0 ==> runs_keeping(cands, c) == 0,
{
    let n = cands.len();
    if n > 0 {
        lemma_prefix_keeping(cands, c, n);
        let f = |d: Seq<nat>| 0 <= last_zero(d) < n && cands[last_zero(d)] == c;
        let g = |d: Seq<nat>| kept(cands, d) == Some(c);
        assert forall|s: Seq<nat>| s.len() == n && valid_draws(s) implies g(s) == f(s) by {
            assert(s[0] <= 0);
            lemma_last_zero_bounds(s);
        }
        lemma_tally_congruent(n, g, f, n);
        assert(cands.take(n as int) =~= cands);
    }
}

/// Order invariance: reordering the candidates leaves unchanged, for every
/// value, the number of runs that keep it.
pub proof fn lemma_order_invariant(a: Seq<Seq<char>>, b: Seq<Seq<char>>, c: Seq<char>)
    requires
        a.to_multiset() == b.to_multiset(),
    ensures
        runs_keeping(a, c) == runs_keeping(b, c),
{
    a.to_multiset_ensures();
    b.to_multiset_ensures();
    lemma_runs_keeping(a, c);
    lemma_runs_keeping(b, c);
}

/// Uniformity: of the `n!` equally likely runs of `n` observations, exactly
/// `(n-1)!` keep the candidate at index `i`, whatever `i` is.
pub proof fn lemma_uniform(n: nat, i: int)
    requires
        0 <= i < n,
    ensures
        draw_count(n, |d: Seq<nat>| last_zero(d) == i) == factorial((n - 1) as nat),
        draw_count(n, |d: Seq<nat>| true) == factorial(n),
{
    lemma_tally_keeps(n, i, n);
    if i < n - 1 {
        let k = factorial((n - 2) as nat);
        assert(factorial((n - 1) as nat) == (n - 1) * k);
    }
    lemma_tally_always(n, |d: Seq<nat>| true, n);
}

/// What a reservoir has seen: the candidates in order, and the draw made for
/// each. The kept candidate is `kept(seen, draws)`.
pub ghost struct ReservoirModel {
    pub seen: Seq<Seq<char>>,
    pub draws: Seq<nat>,
}

/// The selector's state: how many candidates were observed and which one is
/// kept.
pub struct Reservoir {
    count: u64,
    chosen: Option<String>,
    seen: Ghost<Seq<Seq<char>>>,
    draws: Ghost<Seq<nat>>,
}

impl View for Reservoir {
    type V = ReservoirModel;

    closed spec fn view(&self) -> ReservoirModel {
        ReservoirModel { seen: self.seen@, draws: self.draws@ }
    }
}

impl Reservoir {
    pub closed spec fn wf(&self) -> bool {
        &&& self.count as nat == self.seen@.len()
        &&& self.draws@.len() == self.seen@.len()
        &&& valid_draws(self.draws@)
        &&& match self.chosen {
            Some(c) => kept(self.seen@, self.draws@) == Some(c@),
            None => kept(self.seen@, self.draws@) is None,
        }
    }

    /// A reservoir that has seen nothing.
    pub fn new() -> (r: Reservoir)
        ensures
            r.wf(),
            r@.seen.len() == 0,
            r@.draws.len() == 0,
    {
        Reservoir { count: 0, chosen: None, seen: Ghost(Seq::empty()), draws: Ghost(Seq::empty()) }
    }

    /// Number of candidates observed.
    pub fn count(&self) -> (r: u64)
        requires
            self.wf(),
        ensures
            r == self@.seen.len(),
    {
        self.count
    }

    /// The kept candidate; none exactly while nothing was observed.
    pub fn chosen(&self) -> (r: Option<&String>)
        requires
            self.wf(),
        ensures
            match r {
                Some(c) => kept(self@.seen, self@.draws) == Some(c@),
                None => kept(self@.seen, self@.draws) is None,
            },
            r is None <==> self@.seen.len() == 0,
            self@.draws.len() == self@.seen.len(),
            valid_draws(self@.draws),
    {
        self.chosen.as_ref()
    }

    /// Gives up the reservoir for its kept candidate.
    pub fn into_chosen(self) -> (r: Option<String>)
        requires
            self.wf(),
        ensures
            match r {
                Some(c) => kept(self@.seen, self@.draws) == Some(c@),
                None => kept(self@.seen, self@.draws) is None,
            },
            r is None <==> self@.seen.len() == 0,
            self@.draws.len() == self@.seen.len(),
            valid_draws(self@.draws),
    {
        self.chosen
    }

    /// Observes one candidate with the draw `draw`, taken uniformly from
    /// `[0, count]` where `count` candidates came before it: a draw of zero
    /// keeps the new candidate, any other keeps the old one. The first
    /// candidate is always kept, its only possible draw being zero.
    pub fn observe_with_draw(&mut self, candidate: String, draw: u64)
        requires
            old(self).wf(),
            old(self)@.seen.len() < u64::MAX,
            draw <= old(self)@.seen.len(),
        ensures
            final(self).wf(),
            final(self)@.seen == old(self)@.seen.push(candidate@),
            final(self)@.draws == old(self)@.draws.push(draw as nat),
            kept(final(self)@.seen, final(self)@.draws) == if draw == 0 {
                Some(candidate@)
            } else {
                kept(old(self)@.seen, old(self)@.draws)
            },
    {
        proof {
            lemma_last_zero_push(self.draws@, draw as nat);
            lemma_valid_push(self.draws@, draw as nat);
            lemma_last_zero_bounds(self.draws@);
            if self.seen@.len() > 0 {
                assert(self.draws@[0] <= 0);
            }
        }
        let ghost old_seen = self.seen@;
        self.count = self.count + 1;
        self.seen = Ghost(self.seen@.push(candidate@));
        self.draws = Ghost(self.draws@.push(draw as nat));
        if draw == 0 {
            self.chosen = Some(candidate);
        }
        proof {
            let lz = last_zero(self.draws@);
            if draw != 0 {
                assert(self.seen@[lz] == old_seen[lz]);
            }
        }
    }

    /// Observes one candidate, drawing from `rng` uniformly in `[0, count]`
    /// where `count` candidates came before it (no draw for the first).
    pub fn observe(&mut self, candidate: String, rng: &mut rand::rngs::StdRng)
        requires
            old(self).wf(),
            old(self)@.seen.len() < u64::MAX,
        ensures
            final(self).wf(),
            final(self)@.seen == old(self)@.seen.push(candidate@),
            final(self)@.draws.drop_last() == old(self)@.draws,
            final(self)@.draws.last() <= old(self)@.seen.len(),
            kept(final(self)@.seen, final(self)@.draws) == if final(self)@.draws.last() == 0 {
                Some(candidate@)
            } else {
                kept(old(self)@.seen, old(self)@.draws)
            },
    {
        let draw: u64 = if self.count == 0 {
            0
        } else {
            draw_below(rng, self.count + 1)
        };
        self.observe_with_draw(candidate, draw);
        proof {
            assert(self@.draws.drop_last() =~= old(self)@.draws);
        }
    }
}

} // verus!
