//! The lookahead search a machine player uses to rank its options: it
//! explores sequences of non-overlapping plays up to a card budget,
//! charges each step one term of the cost model, and aggregates the
//! charges per first move. The cost model's ten numeric weights live
//! outside this crate; the search reports, per weight, how many times it
//! was charged, so a caller can price the result with any weight vector.

use vstd::prelude::*;

use crate::card::{card_value_spec, three_of_clubs, three_of_clubs_spec, Card, Rank};
use crate::finder::{cards_disjoint, cards_from, contains_card, Finder};
use crate::game::{can_play_err, can_play_post, play_legal, GameState, SafeGameInterface};
use crate::play::{kind_len_spec, Play, PlayKind};

verus! {

broadcast use vstd::seq_lib::group_filter_ensures;

/// One charge of the cost model: free, or one of the ten configurable
/// weights, by index. (The prohibitive price of a non-opening branch on
/// the very first turn is a flag of the evaluation, not a charge.)
#[derive(Copy, Clone, PartialEq, Eq, Structural, Debug)]
pub enum CostTerm {
    Free,
    Weight(usize),
}

/// The placeholder heuristic for "this play will keep control": its
/// ranking card is of one of the two highest ranks, or its kind is full
/// house or better.
pub open spec fn would_get_control_spec(p: Play) -> bool {
    match p.spec_kind() {
        PlayKind::Pass => false,
        PlayKind::Single | PlayKind::Pair => {
            let r = (p.spec_ranking()->Some_0).rank;
            r is Two || r is Ace
        },
        PlayKind::Strait => false,
        PlayKind::Flush => false,
        PlayKind::FullHouse => true,
        PlayKind::FourOfAKind => true,
        PlayKind::StraitFlush => true,
    }
}

/// Whether a play is judged to keep control after it is played; a
/// placeholder heuristic pending empirical data.
pub fn would_get_control(play: &Play) -> (r: bool)
    requires
        play.wf(),
        !(play.spec_kind() is Pass),
    ensures
        r == would_get_control_spec(*play),
{
    match play.kind() {
        PlayKind::Pass => false,
        PlayKind::Single | PlayKind::Pair => {
            let rank = play.ranking_card().unwrap().rank;
            let i = rank.index();
            proof {
                crate::card::lemma_rank_index_injective(rank, Rank::Two);
                crate::card::lemma_rank_index_injective(rank, Rank::Ace);
            }
            i == 12 || i == 11
        },
        PlayKind::Strait => false,
        PlayKind::Flush => false,
        PlayKind::FullHouse => true,
        PlayKind::FourOfAKind => true,
        PlayKind::StraitFlush => true,
    }
}

/// The cost model's charge for following `before` with `next` later in
/// the simulated sequence, as a weight index in 0..=4: a single or pair
/// is cheap if `before` keeps control, cheap-ish if the rank gap leaves
/// room for the table to come back around, expensive otherwise; straits
/// and flushes, and full houses, get one flat weight each; four of a
/// kind and strait flush are treated as free (rare enough to ignore).
pub open spec fn cost_term_spec(before: Play, next: Play) -> CostTerm {
    match next.spec_kind() {
        PlayKind::Pass => CostTerm::Free,
        PlayKind::Single | PlayKind::Pair => {
            if would_get_control_spec(before) {
                CostTerm::Weight(0)
            } else if card_value_spec(next.spec_ranking()->Some_0) - card_value_spec(
                before.spec_ranking()->Some_0,
            ) > 20 {
                CostTerm::Weight(1)
            } else {
                CostTerm::Weight(2)
            }
        },
        PlayKind::Strait | PlayKind::Flush => CostTerm::Weight(3),
        PlayKind::FullHouse => CostTerm::Weight(4),
        PlayKind::FourOfAKind => CostTerm::Free,
        PlayKind::StraitFlush => CostTerm::Free,
    }
}

/// The same charge table for the first analyzed play, judged against the
/// play actually on the table, as a weight index in 5..=9.
pub open spec fn first_analysis_term_spec(before: Play, next: Play) -> CostTerm {
    match next.spec_kind() {
        PlayKind::Pass => CostTerm::Free,
        PlayKind::Single | PlayKind::Pair => {
            if would_get_control_spec(before) {
                CostTerm::Weight(5)
            } else if card_value_spec(next.spec_ranking()->Some_0) - card_value_spec(
                before.spec_ranking()->Some_0,
            ) > 20 {
                CostTerm::Weight(6)
            } else {
                CostTerm::Weight(7)
            }
        },
        PlayKind::Strait | PlayKind::Flush => CostTerm::Weight(8),
        PlayKind::FullHouse => CostTerm::Weight(9),
        PlayKind::FourOfAKind => CostTerm::Free,
        PlayKind::StraitFlush => CostTerm::Free,
    }
}

/// The estimated friction of playing `play2` on top of `play1` later in
/// a simulated sequence, as the index of the configurable weight to
/// charge (0..=4), or no charge.
pub fn cost_term(play1: &Play, play2: &Play) -> (t: CostTerm)
    requires
        play1.wf(),
        play2.wf(),
        !(play1.spec_kind() is Pass),
        !(play2.spec_kind() is Pass),
    ensures
        t == cost_term_spec(*play1, *play2),
{
    match play2.kind() {
        PlayKind::Pass => CostTerm::Free,
        PlayKind::Single | PlayKind::Pair => {
            if would_get_control(play1) {
                CostTerm::Weight(0)
            } else {
                let v2 = play2.ranking_card().unwrap().numeric_value();
                let v1 = play1.ranking_card().unwrap().numeric_value();
                let gap = (v2 as i64) - (v1 as i64);
                if gap > 20 {
                    CostTerm::Weight(1)
                } else {
                    CostTerm::Weight(2)
                }
            }
        },
        PlayKind::Strait | PlayKind::Flush => CostTerm::Weight(3),
        PlayKind::FullHouse => CostTerm::Weight(4),
        PlayKind::FourOfAKind => CostTerm::Free,
        PlayKind::StraitFlush => CostTerm::Free,
    }
}

/// The estimated friction of leading with `play2` against `play1`, the
/// play actually on the table, as the index of the configurable weight
/// to charge (5..=9), or no charge.
pub fn first_analysis_cost_term(play1: &Play, play2: &Play) -> (t: CostTerm)
    requires
        play1.wf(),
        play2.wf(),
        !(play1.spec_kind() is Pass),
        !(play2.spec_kind() is Pass),
    ensures
        t == first_analysis_term_spec(*play1, *play2),
{
    match play2.kind() {
        PlayKind::Pass => CostTerm::Free,
        PlayKind::Single | PlayKind::Pair => {
            if would_get_control(play1) {
                CostTerm::Weight(5)
            } else {
                let v2 = play2.ranking_card().unwrap().numeric_value();
                let v1 = play1.ranking_card().unwrap().numeric_value();
                let gap = (v2 as i64) - (v1 as i64);
                if gap > 20 {
                    CostTerm::Weight(6)
                } else {
                    CostTerm::Weight(7)
                }
            }
        },
        PlayKind::Strait | PlayKind::Flush => CostTerm::Weight(8),
        PlayKind::FullHouse => CostTerm::Weight(9),
        PlayKind::FourOfAKind => CostTerm::Free,
        PlayKind::StraitFlush => CostTerm::Free,
    }
}


// ---------------------------------------------------------------------------
// The lookahead search: explore sequences of non-overlapping plays until
// the card budget is spent, charging one cost term per step, and report
// per-weight charge counts. All counters clamp at the integer limit.
// ---------------------------------------------------------------------------

/// Addition clamped at the integer limit.
pub open spec fn sat_add(a: u64, b: u64) -> u64 {
    if a + b > u64::MAX {
        u64::MAX
    } else {
        (a + b) as u64
    }
}

/// Five zeroed weight counters (for the in-sequence weights 0..=4).
pub open spec fn zero5() -> Seq<u64> {
    seq![0u64, 0u64, 0u64, 0u64, 0u64]
}

/// Leaf counts and weight counters of two branches, merged.
pub open spec fn combine5(a: (u64, Seq<u64>), b: (u64, Seq<u64>)) -> (u64, Seq<u64>) {
    (sat_add(a.0, b.0), Seq::new(5, |i: int| sat_add(a.1[i], b.1[i])))
}

/// Charges a cost term once per leaf of a subtree: weight `w` is counted
/// `stats.0` more times.
pub open spec fn charge(stats: (u64, Seq<u64>), t: CostTerm) -> (u64, Seq<u64>) {
    match t {
        CostTerm::Weight(w) => if w < 5 {
            (stats.0, stats.1.update(w as int, sat_add(stats.1[w as int], stats.0)))
        } else {
            stats
        },
        _ => stats,
    }
}

/// Keeping an available play: it shares no card with the cards just
/// committed.
pub open spec fn keep_idx_pred(all: Seq<Play>, used: Seq<Card>) -> spec_fn(usize) -> bool {
    |j: usize| cards_disjoint(all[j as int].spec_cards(), used)
}

/// The statistics of the whole search tree below one chosen play: with
/// no card budget left this position is one leaf; otherwise each still
/// available play that fits the budget is tried in turn, its subtree is
/// explored with the overlapping plays removed, and its step is charged
/// the cost term against the previous play.
pub open spec fn subtree_spec(depth: int, all: Seq<Play>, active: Seq<usize>, prev: Play) -> (
    u64,
    Seq<u64>,
)
    decreases depth, active.len(), 1int, 0int,
{
    if depth <= 0 {
        (1u64, zero5())
    } else {
        subtree_fold_spec(depth, active, all, active, prev)
    }
}

/// Folds the branches of `rem` (a suffix of the active list) into one
/// statistic.
pub open spec fn subtree_fold_spec(
    depth: int,
    rem: Seq<usize>,
    all: Seq<Play>,
    active: Seq<usize>,
    prev: Play,
) -> (u64, Seq<u64>)
    decreases depth, active.len(), 0int, rem.len(),
{
    if rem.len() == 0 || depth <= 0 {
        (0u64, zero5())
    } else {
        let j = rem[0];
        let rest = subtree_fold_spec(depth, rem.drop_first(), all, active, prev);
        if j < all.len() {
            let p = all[j as int];
            let l = kind_len_spec(p.spec_kind());
            if 1 <= l <= depth {
                let child = subtree_spec(
                    depth - l,
                    all,
                    active.filter(keep_idx_pred(all, p.spec_cards())),
                    p,
                );
                combine5(charge(child, cost_term_spec(prev, p)), rest)
            } else {
                rest
            }
        } else {
            rest
        }
    }
}

/// Merging is associative, so the branches may be accumulated left to
/// right.
pub proof fn lemma_combine5_assoc(a: (u64, Seq<u64>), b: (u64, Seq<u64>), c: (u64, Seq<u64>))
    ensures
        combine5(combine5(a, b), c) == combine5(a, combine5(b, c)),
{
    let l = combine5(combine5(a, b), c);
    let r = combine5(a, combine5(b, c));
    assert(l.0 == r.0);
    assert(l.1 =~= r.1);
}

/// Merging with an empty statistic changes nothing.
pub proof fn lemma_combine5_unit(a: (u64, Seq<u64>))
    requires
        a.1.len() == 5,
    ensures
        combine5(a, (0u64, zero5())) == a,
        combine5((0u64, zero5()), a) == a,
{
    assert(combine5(a, (0u64, zero5())).1 =~= a.1);
    assert(combine5((0u64, zero5()), a).1 =~= a.1);
}

/// Every statistic the fold yields carries five weight counters.
pub proof fn lemma_subtree_len5(depth: int, all: Seq<Play>, active: Seq<usize>, prev: Play)
    ensures
        subtree_spec(depth, all, active, prev).1.len() == 5,
    decreases depth, active.len(), 1int, 0int,
{
    if depth > 0 {
        lemma_subtree_fold_len5(depth, active, all, active, prev);
    }
}

/// Every statistic the fold yields carries five weight counters.
pub proof fn lemma_subtree_fold_len5(
    depth: int,
    rem: Seq<usize>,
    all: Seq<Play>,
    active: Seq<usize>,
    prev: Play,
)
    ensures
        subtree_fold_spec(depth, rem, all, active, prev).1.len() == 5,
    decreases depth, active.len(), 0int, rem.len(),
{
    if rem.len() != 0 && depth > 0 {
        lemma_subtree_fold_len5(depth, rem.drop_first(), all, active, prev);
        let j = rem[0];
        if j < all.len() {
            let p = all[j as int];
            let l = kind_len_spec(p.spec_kind());
            if 1 <= l <= depth {
                lemma_subtree_len5(
                    depth - l,
                    all,
                    active.filter(keep_idx_pred(all, p.spec_cards())),
                    p,
                );
            }
        }
    }
}

/// Addition clamped at the integer limit.
fn sat_add_u64(a: u64, b: u64) -> (r: u64)
    ensures
        r == sat_add(a, b),
{
    if a > u64::MAX - b {
        u64::MAX
    } else {
        a + b
    }
}

/// Five zeroed counters.
fn zeros5() -> (v: Vec<u64>)
    ensures
        v@ == zero5(),
{
    let mut v: Vec<u64> = Vec::new();
    v.push(0);
    v.push(0);
    v.push(0);
    v.push(0);
    v.push(0);
    proof {
        assert(v@ =~= zero5());
    }
    v
}

/// Pushing one element extends a filtered index sequence by that element
/// exactly when it satisfies the predicate.
proof fn lemma_filter_push_idx(s: Seq<usize>, pred: spec_fn(usize) -> bool, x: usize)
    ensures
        s.push(x).filter(pred) == if pred(x) {
            s.filter(pred).push(x)
        } else {
            s.filter(pred)
        },
{
    reveal(Seq::filter);
    assert(s.push(x).drop_last() =~= s);
    assert(s.push(x).last() == x);
}

/// Explores every sequence of non-overlapping plays below one chosen
/// play until the card budget is spent, and reports the leaf count and,
/// per in-sequence weight, how many leaf-paths charge it.
pub fn subtree_stats(depth: usize, all: &Vec<Play>, active: &Vec<usize>, prev: &Play) -> (r: (
    u64,
    Vec<u64>,
))
    requires
        forall|k: int| 0 <= k < active@.len() ==> #[trigger] active@[k] < all@.len(),
        forall|k: int|
            0 <= k < all@.len() ==> (#[trigger] all@[k]).wf() && !(all@[k].spec_kind() is Pass),
        prev.wf(),
        !(prev.spec_kind() is Pass),
    ensures
        r.1@.len() == 5,
        (r.0, r.1@) == subtree_spec(depth as int, all@, active@, *prev),
    decreases depth,
{
    let mut counts = zeros5();
    if depth == 0 {
        return (1, counts);
    }
    let mut leaves: u64 = 0;
    let ghost total = subtree_fold_spec(depth as int, active@, all@, active@, *prev);
    let mut i: usize = 0;
    proof {
        assert(active@.skip(0) =~= active@);
        lemma_subtree_fold_len5(depth as int, active@, all@, active@, *prev);
        lemma_combine5_unit(subtree_fold_spec(depth as int, active@, all@, active@, *prev));
    }
    while i < active.len()
        invariant
            i <= active@.len(),
            depth >= 1,
            counts@.len() == 5,
            forall|k: int| 0 <= k < active@.len() ==> #[trigger] active@[k] < all@.len(),
            forall|k: int|
                0 <= k < all@.len() ==> (#[trigger] all@[k]).wf() && !(all@[k].spec_kind()
                    is Pass),
            prev.wf(),
            !(prev.spec_kind() is Pass),
            total == subtree_fold_spec(depth as int, active@, all@, active@, *prev),
            combine5(
                (leaves, counts@),
                subtree_fold_spec(depth as int, active@.skip(i as int), all@, active@, *prev),
            ) == total,
        decreases active@.len() - i,
    {
        let j = active[i];
        let p = &all[j];
        let l = p.kind().len();
        let ghost f_i = subtree_fold_spec(
            depth as int,
            active@.skip(i as int),
            all@,
            active@,
            *prev,
        );
        let ghost f_i1 = subtree_fold_spec(
            depth as int,
            active@.skip(i as int + 1),
            all@,
            active@,
            *prev,
        );
        proof {
            assert(active@.skip(i as int).len() > 0);
            assert(active@.skip(i as int)[0] == active@[i as int]);
            assert(active@.skip(i as int).drop_first() =~= active@.skip(i as int + 1));
        }
        if l <= depth {
            // the indices of the plays that share no card with p
            let mut child_active: Vec<usize> = Vec::new();
            let mut t: usize = 0;
            proof {
                assert(active@.take(0).filter(keep_idx_pred(all@, p.spec_cards())) =~= Seq::<
                    usize,
                >::empty()) by {
                    reveal(Seq::filter);
                }
            }
            while t < active.len()
                invariant
                    t <= active@.len(),
                    j < all@.len(),
                    p == &all@[j as int],
                    forall|k: int| 0 <= k < active@.len() ==> #[trigger] active@[k] < all@.len(),
                    child_active@ == active@.take(t as int).filter(
                        keep_idx_pred(all@, p.spec_cards()),
                    ),
                decreases active@.len() - t,
            {
                proof {
                    assert(active@.take(t as int + 1) =~= active@.take(t as int).push(
                        active@[t as int],
                    ));
                    lemma_filter_push_idx(
                        active@.take(t as int),
                        keep_idx_pred(all@, p.spec_cards()),
                        active@[t as int],
                    );
                }
                let cand = active[t];
                if !crate::finder::do_overlap(all[cand].cards(), p.cards()) {
                    child_active.push(cand);
                }
                t += 1;
            }
            proof {
                assert(active@.take(active@.len() as int) =~= active@);
                assert(child_active@ == active@.filter(keep_idx_pred(all@, p.spec_cards())));
                assert forall|k: int|
                    0 <= k < child_active@.len() implies #[trigger] child_active@[k]
                    < all@.len() by {
                    assert(active@.filter(keep_idx_pred(all@, p.spec_cards())).contains(
                        child_active@[k],
                    ));
                    active@.lemma_filter_contains_rev(
                        keep_idx_pred(all@, p.spec_cards()),
                        child_active@[k],
                    );
                }
            }
            let child = subtree_stats(depth - l, all, &child_active, p);
            let term = cost_term(prev, p);
            let (child_leaves, mut child_counts) = child;
            match term {
                CostTerm::Weight(w) => {
                    if w < 5 {
                        let cur = child_counts[w];
                        let upd = sat_add_u64(cur, child_leaves);
                        let slot = vstd::std_specs::vec::vec_index_mut(&mut child_counts, w);
                        *slot = upd;
                    }
                },
                _ => {},
            }
            proof {
                let spec_child = subtree_spec(
                    depth as int - l as int,
                    all@,
                    active@.filter(keep_idx_pred(all@, p.spec_cards())),
                    *p,
                );
                assert((child_leaves, child_counts@) == charge(
                    spec_child,
                    cost_term_spec(*prev, *p),
                )) by {
                    match cost_term_spec(*prev, *p) {
                        CostTerm::Weight(w) => {
                            if w < 5 {
                                assert(child_counts@ =~= spec_child.1.update(
                                    w as int,
                                    sat_add(spec_child.1[w as int], spec_child.0),
                                ));
                            }
                        },
                        _ => {},
                    }
                }
                assert(f_i == combine5((child_leaves, child_counts@), f_i1));
            }
            // fold this branch into the running totals
            let ghost acc_old = (leaves, counts@);
            leaves = sat_add_u64(leaves, child_leaves);
            let mut w: usize = 0;
            while w < 5
                invariant
                    w <= 5,
                    counts@.len() == 5,
                    child_counts@.len() == 5,
                    forall|v: int| 0 <= v < w ==> counts@[v] == sat_add(acc_old.1[v], child_counts@[v]),
                    forall|v: int| w <= v < 5 ==> counts@[v] == acc_old.1[v],
                decreases 5 - w,
            {
                let cur = counts[w];
                let upd = sat_add_u64(cur, child_counts[w]);
                let slot = vstd::std_specs::vec::vec_index_mut(&mut counts, w);
                *slot = upd;
                w += 1;
            }
            proof {
                assert((leaves, counts@) == combine5(acc_old, (child_leaves, child_counts@))) by {
                    assert(counts@ =~= combine5(acc_old, (child_leaves, child_counts@)).1);
                }
                lemma_combine5_assoc(acc_old, (child_leaves, child_counts@), f_i1);
            }
        } else {
            proof {
                assert(kind_len_spec(all@[j as int].spec_kind()) == l as int);
                assert(f_i == f_i1);
            }
        }
        i += 1;
    }
    proof {
        assert(active@.skip(active@.len() as int) =~= Seq::<usize>::empty());
        lemma_combine5_unit((leaves, counts@));
        assert((leaves, counts@) == subtree_spec(depth as int, all@, active@, *prev));
    }
    (leaves, counts)
}


// ---------------------------------------------------------------------------
// Ranking the first moves.
// ---------------------------------------------------------------------------

/// The search's card budget: six cards, or the whole hand if smaller.
pub open spec fn search_depth(g: GameState) -> int {
    if g.spec_my_hand().len() < 6 {
        g.spec_my_hand().len() as int
    } else {
        6
    }
}

/// A play small enough to fit the card budget.
pub open spec fn qual_pred(depth: int) -> spec_fn(Play) -> bool {
    |p: Play| 1 <= kind_len_spec(p.spec_kind()) <= depth
}

/// The indices 0, 1, ..., n-1.
pub open spec fn all_indices(n: nat) -> Seq<usize> {
    Seq::new(n, |i: int| i as usize)
}

/// The indices of the plays that share no card with the cards just
/// committed.
pub open spec fn child_active_spec(plays: Seq<Play>, used: Seq<Card>) -> Seq<usize> {
    all_indices(plays.len()).filter(keep_idx_pred(plays, used))
}

/// On the very first turn of a game only an opening play is free; any
/// branch that does not put down the designated opening card is priced
/// prohibitively.
pub open spec fn root_infinite_spec(g: GameState, q: Play) -> bool {
    g.spec_is_first_turn() && !q.spec_cards().contains(three_of_clubs_spec())
}

/// The first-move charge is recorded exactly: nothing on the first turn
/// or when the move is immediately legal on the real table, and
/// otherwise the lead-in weight (5..=9) the charge table picks, counted
/// once per leaf.
pub open spec fn root_charge_ok(g: GameState, q: Play, leaves: u64, w10: Seq<u64>) -> bool {
    if g.spec_is_first_turn() {
        forall|v: int| 5 <= v < 10 ==> w10[v] == 0
    } else if can_play_err(g, q.spec_cards()) is None {
        forall|v: int| 5 <= v < 10 ==> w10[v] == 0
    } else {
        match first_analysis_term_spec(g.cards_down->Some_0, q) {
            CostTerm::Weight(w) => 5 <= w < 10 && w10[w as int] == leaves && (forall|v: int|
                5 <= v < 10 && v != w ==> w10[v] == 0),
            _ => forall|v: int| 5 <= v < 10 ==> w10[v] == 0,
        }
    }
}

/// Some evaluated candidate is the single of the given card.
pub open spec fn single_evaluated(evals: Seq<PlayEval>, c: Card) -> bool {
    exists|k: int|
        0 <= k < evals.len() && (#[trigger] evals[k]).play.spec_cards() == seq![c]
            && evals[k].play.spec_kind() is Single
}

/// The evaluation of one first move: the move itself, how many leaves
/// its subtree has, how many leaf-paths charge each of the ten weights,
/// and whether the branch is priced prohibitively.
pub struct PlayEval {
    pub play: Play,
    pub leaves: u64,
    pub weight_leaves: Vec<u64>,
    pub infinite: bool,
}

/// A filter of a longer sequence keeps at least as much as the filter
/// of a prefix.
proof fn lemma_filter_prefix_len_play(s: Seq<Play>, n: int, pred: spec_fn(Play) -> bool)
    requires
        0 <= n <= s.len(),
    ensures
        s.filter(pred).len() >= s.take(n).filter(pred).len(),
    decreases s.len(),
{
    reveal(Seq::filter);
    if n < s.len() {
        assert(s.drop_last().take(n) =~= s.take(n));
        lemma_filter_prefix_len_play(s.drop_last(), n, pred);
        s.drop_last().lemma_filter_len(pred);
    } else {
        assert(s.take(n) =~= s);
    }
}

/// Pushing one play extends a filtered play sequence by that play
/// exactly when it satisfies the predicate.
proof fn lemma_filter_push_play(s: Seq<Play>, pred: spec_fn(Play) -> bool, x: Play)
    ensures
        s.push(x).filter(pred) == if pred(x) {
            s.filter(pred).push(x)
        } else {
            s.filter(pred)
        },
{
    reveal(Seq::filter);
    assert(s.push(x).drop_last() =~= s);
    assert(s.push(x).last() == x);
}

/// Evaluates every candidate first move that fits the card budget: each
/// gets its subtree explored over the remaining non-overlapping plays,
/// and its own lead-in charge against the real table state.
pub fn evaluate_plays(game: &SafeGameInterface, plays: &Vec<Play>) -> (out: Vec<PlayEval>)
    requires
        game.inner.wf(),
        game.inner.winning_player is None,
        forall|k: int|
            0 <= k < plays@.len() ==> (#[trigger] plays@[k]).wf() && !(plays@[k].spec_kind()
                is Pass) && plays@[k].spec_cards().no_duplicates(),
    ensures
        out@.len() == plays@.filter(qual_pred(search_depth(*game.inner))).len(),
        forall|k: int|
            0 <= k < out@.len() ==> {
                let q = plays@.filter(qual_pred(search_depth(*game.inner)))[k];
                let e = #[trigger] out@[k];
                &&& e.play.eqv(q)
                &&& e.weight_leaves@.len() == 10
                &&& (e.leaves, e.weight_leaves@.take(5)) == subtree_spec(
                    search_depth(*game.inner) - kind_len_spec(q.spec_kind()),
                    plays@,
                    child_active_spec(plays@, q.spec_cards()),
                    q,
                )
                &&& e.infinite == root_infinite_spec(*game.inner, q)
                &&& root_charge_ok(*game.inner, q, e.leaves, e.weight_leaves@)
            },
{
    let ghost g = *game.inner;
    let hand_len = game.my_hand().len();
    let depth: usize = if hand_len < 6 {
        hand_len
    } else {
        6
    };
    proof {
        assert(depth as int == search_depth(g));
    }
    let mut out: Vec<PlayEval> = Vec::new();
    let mut k: usize = 0;
    proof {
        assert(plays@.take(0).filter(qual_pred(search_depth(g))) =~= Seq::<Play>::empty()) by {
            reveal(Seq::filter);
        }
    }
    while k < plays.len()
        invariant
            k <= plays@.len(),
            g == *game.inner,
            g.wf(),
            g.winning_player is None,
            depth as int == search_depth(g),
            forall|q: int|
                0 <= q < plays@.len() ==> (#[trigger] plays@[q]).wf() && !(plays@[q].spec_kind()
                    is Pass) && plays@[q].spec_cards().no_duplicates(),
            out@.len() == plays@.take(k as int).filter(qual_pred(search_depth(g))).len(),
            forall|q: int|
                0 <= q < out@.len() ==> {
                    let p = plays@.take(k as int).filter(qual_pred(search_depth(g)))[q];
                    let e = #[trigger] out@[q];
                    &&& e.play.eqv(p)
                    &&& e.weight_leaves@.len() == 10
                    &&& (e.leaves, e.weight_leaves@.take(5)) == subtree_spec(
                        search_depth(g) - kind_len_spec(p.spec_kind()),
                        plays@,
                        child_active_spec(plays@, p.spec_cards()),
                        p,
                    )
                    &&& e.infinite == root_infinite_spec(g, p)
                    &&& root_charge_ok(g, p, e.leaves, e.weight_leaves@)
                },
        decreases plays@.len() - k,
    {
        proof {
            assert(plays@.take(k as int + 1) =~= plays@.take(k as int).push(plays@[k as int]));
            lemma_filter_push_play(
                plays@.take(k as int),
                qual_pred(search_depth(g)),
                plays@[k as int],
            );
        }
        let p = &plays[k];
        let l = p.kind().len();
        if l <= depth {
            // the plays that share no card with p stay available below it
            let mut active: Vec<usize> = Vec::new();
            let mut t: usize = 0;
            proof {
                assert(all_indices(0).filter(keep_idx_pred(plays@, p.spec_cards())) =~= Seq::<
                    usize,
                >::empty()) by {
                    reveal(Seq::filter);
                    assert(all_indices(0) =~= Seq::<usize>::empty());
                }
            }
            while t < plays.len()
                invariant
                    t <= plays@.len(),
                    k < plays@.len(),
                    p == &plays@[k as int],
                    active@ == all_indices(t as nat).filter(keep_idx_pred(plays@, p.spec_cards())),
                decreases plays@.len() - t,
            {
                proof {
                    assert(all_indices((t + 1) as nat) =~= all_indices(t as nat).push(t));
                    lemma_filter_push_idx(
                        all_indices(t as nat),
                        keep_idx_pred(plays@, p.spec_cards()),
                        t,
                    );
                }
                if !crate::finder::do_overlap(plays[t].cards(), p.cards()) {
                    active.push(t);
                }
                t += 1;
            }
            proof {
                assert(active@ == child_active_spec(plays@, p.spec_cards()));
                assert forall|v: int| 0 <= v < active@.len() implies #[trigger] active@[v]
                    < plays@.len() by {
                    assert(all_indices(plays@.len()).filter(
                        keep_idx_pred(plays@, p.spec_cards()),
                    ).contains(active@[v]));
                    all_indices(plays@.len()).lemma_filter_contains_rev(
                        keep_idx_pred(plays@, p.spec_cards()),
                        active@[v],
                    );
                    let w = choose|w: int|
                        0 <= w < all_indices(plays@.len()).len() && all_indices(plays@.len())[w]
                            == active@[v];
                }
            }
            let stats = subtree_stats(depth - l, plays, &active, p);
            let leaves = stats.0;
            let mut w10 = stats.1;
            let ghost counts5 = w10@;
            w10.push(0);
            w10.push(0);
            w10.push(0);
            w10.push(0);
            w10.push(0);
            proof {
                assert(w10@.take(5) =~= counts5);
                assert(forall|v: int| 5 <= v < 10 ==> w10@[v] == 0);
            }
            let mut infinite = false;
            match game.get_play_on_table() {
                None => {
                    if !contains_card(p.cards(), three_of_clubs()) {
                        infinite = true;
                    }
                },
                Some(table) => {
                    let attempt = game.can_play(p.cards().clone());
                    match attempt {
                        Ok(_) => {},
                        Err(_) => {
                            let term = first_analysis_cost_term(table, p);
                            match term {
                                CostTerm::Weight(w) => {
                                    if w < 10 {
                                        let slot = vstd::std_specs::vec::vec_index_mut(
                                            &mut w10,
                                            w,
                                        );
                                        *slot = leaves;
                                    }
                                },
                                _ => {},
                            }
                            proof {
                                assert(w10@.take(5) =~= counts5);
                            }
                        },
                    }
                },
            }
            let eval = PlayEval { play: p.clone(), leaves, weight_leaves: w10, infinite };
            out.push(eval);
        }
        k += 1;
    }
    proof {
        assert(plays@.take(plays@.len() as int) =~= plays@);
    }
    out
}

/// How many proposals the fallback chain walks: the best-ranked move, a
/// Pass, then the remaining moves in rank order (just the Pass when
/// nothing is ranked).
pub open spec fn walk_len(ranked: Seq<Play>) -> int {
    if ranked.len() == 0 {
        1
    } else {
        ranked.len() as int + 1
    }
}

/// The cards proposed at position `w` of the fallback chain.
pub open spec fn walk_cards(ranked: Seq<Play>, w: int) -> Seq<Card> {
    if ranked.len() == 0 {
        Seq::empty()
    } else if w == 0 {
        ranked[0].spec_cards()
    } else if w == 1 {
        Seq::empty()
    } else {
        ranked[w - 1].spec_cards()
    }
}

/// Every chain position before `w` is rejected.
pub open spec fn walk_rejected_before(g: GameState, ranked: Seq<Play>, w: int) -> bool {
    forall|v: int| 0 <= v < w ==> can_play_err(g, #[trigger] walk_cards(ranked, v)) is Some
}

/// Whether every candidate, and a Pass, is rejected by the machine: the
/// fallback chain then finds nothing.
pub open spec fn fallback_exhausted(g: GameState, ranked: Seq<Play>) -> bool {
    &&& forall|k: int|
        0 <= k < ranked.len() ==> can_play_err(g, (#[trigger] ranked[k]).spec_cards()) is Some
    &&& can_play_err(g, Seq::<Card>::empty()) is Some
}

/// Walks the fallback chain the policy uses: try the best-ranked move,
/// fall back to a Pass, then walk the remaining moves in rank order, and
/// return the first one the machine accepts.
pub fn select_first_legal(game: &SafeGameInterface, ranked: &Vec<Play>) -> (r: Option<Play>)
    requires
        game.inner.wf(),
        game.inner.winning_player is None,
    ensures
        r matches Some(p) ==> p.wf() && play_legal(*game.inner, p)
            && p.spec_cards().no_duplicates() && p.spec_cards().to_multiset().subset_of(
            game.inner.spec_my_hand().to_multiset(),
        ),
        (forall|k: int|
            0 <= k < ranked@.len() ==> (#[trigger] ranked@[k]).spec_cards().no_duplicates())
            ==> ((r is None) <==> fallback_exhausted(*game.inner, ranked@)),
        (forall|k: int|
            0 <= k < ranked@.len() ==> (#[trigger] ranked@[k]).spec_cards().no_duplicates())
            ==> (r matches Some(p) ==> exists|w: int|
            0 <= w < walk_len(ranked@) && can_play_err(*game.inner, #[trigger] walk_cards(ranked@, w))
                is None && walk_rejected_before(*game.inner, ranked@, w) && can_play_post(
                *game.inner,
                walk_cards(ranked@, w),
                Ok(p),
            )),
{
    let ghost g = *game.inner;
    if ranked.len() >= 1 {
        match game.can_play(ranked[0].cards().clone()) {
            Ok(p) => {
                proof {
                    if forall|k: int|
                        0 <= k < ranked@.len() ==> (#[trigger] ranked@[k]).spec_cards().no_duplicates() {
                        assert(walk_cards(ranked@, 0) == ranked@[0].spec_cards());
                        assert(walk_rejected_before(g, ranked@, 0));
                    }
                }
                return Some(p);
            },
            Err(_) => {},
        }
    }
    let empty: Vec<Card> = Vec::new();
    proof {
        assert(empty@ =~= Seq::<Card>::empty());
    }
    match game.can_play(empty) {
        Ok(p) => {
            proof {
                if forall|k: int|
                    0 <= k < ranked@.len() ==> (#[trigger] ranked@[k]).spec_cards().no_duplicates() {
                    let w: int = if ranked@.len() == 0 {
                        0
                    } else {
                        1
                    };
                    assert(walk_cards(ranked@, w) =~= Seq::<Card>::empty());
                    assert(walk_rejected_before(g, ranked@, w)) by {
                        if ranked@.len() >= 1 {
                            assert(walk_cards(ranked@, 0) == ranked@[0].spec_cards());
                        }
                    }
                }
            }
            return Some(p);
        },
        Err(_) => {},
    }
    let mut i: usize = 1;
    while i < ranked.len()
        invariant
            1 <= i,
            g == *game.inner,
            g.wf(),
            g.winning_player is None,
            forall|k: int|
                0 <= k < i && k < ranked@.len() ==> ((#[trigger] ranked@[k]).spec_cards().no_duplicates()
                    ==> can_play_err(g, ranked@[k].spec_cards()) is Some),
            can_play_err(g, Seq::<Card>::empty()) is Some,
        decreases ranked@.len() - i,
    {
        match game.can_play(ranked[i].cards().clone()) {
            Ok(p) => {
                proof {
                    if forall|k: int|
                        0 <= k < ranked@.len() ==> (#[trigger] ranked@[k]).spec_cards().no_duplicates() {
                        let w = i as int + 1;
                        assert(walk_cards(ranked@, w) == ranked@[i as int].spec_cards());
                        assert(walk_rejected_before(g, ranked@, w)) by {
                            assert forall|v: int|
                                0 <= v < w implies can_play_err(
                                g,
                                #[trigger] walk_cards(ranked@, v),
                            ) is Some by {
                                if v == 0 {
                                    assert(walk_cards(ranked@, 0) == ranked@[0].spec_cards());
                                } else if v == 1 {
                                    assert(walk_cards(ranked@, 1) =~= Seq::<Card>::empty());
                                } else {
                                    assert(walk_cards(ranked@, v) == ranked@[v - 1].spec_cards());
                                }
                            }
                        }
                    }
                }
                return Some(p);
            },
            Err(_) => {},
        }
        i += 1;
    }
    None
}


/// Enumerates every play the acting seat's hand can produce and
/// evaluates each as a first move: every returned candidate is a
/// well-formed play drawn from the hand that fits the card budget,
/// carrying its subtree statistics and exact lead-in charge.
pub fn rank_first_plays(game: &SafeGameInterface) -> (out: Vec<PlayEval>)
    requires
        game.inner.wf(),
        game.inner.winning_player is None,
    ensures
        game.inner.spec_my_hand().len() >= 1 ==> out@.len() >= game.inner.spec_my_hand().len(),
        forall|c: Card|
            game.inner.spec_my_hand().contains(c) ==> single_evaluated(out@, c),
        forall|k: int|
            0 <= k < out@.len() ==> {
                let e = #[trigger] out@[k];
                &&& e.play.wf()
                &&& !(e.play.spec_kind() is Pass)
                &&& cards_from(e.play.spec_cards(), game.inner.spec_my_hand())
                &&& e.play.spec_cards().no_duplicates()
                &&& crate::finder::play_shape(e.play)
                &&& 1 <= kind_len_spec(e.play.spec_kind()) <= search_depth(*game.inner)
                &&& e.weight_leaves@.len() == 10
                &&& e.infinite == root_infinite_spec(*game.inner, e.play)
                &&& root_charge_ok(*game.inner, e.play, e.leaves, e.weight_leaves@)
            },
{
    broadcast use vstd::seq_lib::group_to_multiset_ensures;

    let ghost g = *game.inner;
    let hand = game.my_hand().clone();
    proof {
        assert(hand@ =~= g.spec_my_hand());
    }
    let finder = Finder::new(hand);
    proof {
        assert(finder.cards@.no_duplicates()) by {
            g.spec_my_hand().lemma_multiset_has_no_duplicates();
            finder.cards@.lemma_multiset_has_no_duplicates_conv();
        }
    }
    let plays = finder.all_plays();
    proof {
        assert forall|k: int|
            0 <= k < plays@.len() implies (#[trigger] plays@[k]).wf() && !(plays@[k].spec_kind()
            is Pass) && plays@[k].spec_cards().no_duplicates() by {
            crate::finder::lemma_entry_found(finder.cards@, plays@[k]);
        }
    }
    let evals = evaluate_plays(game, &plays);
    proof {
        let depth = search_depth(g);
        let picked = plays@.filter(qual_pred(depth));
        if g.spec_my_hand().len() >= 1 {
            // every single leads the enumeration and fits the budget
            let n = finder.cards@.len() as int;
            assert forall|i: int| 0 <= i < plays@.take(n).len() implies qual_pred(depth)(
                #[trigger] plays@.take(n)[i],
            ) by {
                assert(plays@[i].spec_kind() is Single);
            }
            crate::finder::lemma_filter_all_conv_play(plays@.take(n), qual_pred(depth));
            lemma_filter_prefix_len_play(plays@, n, qual_pred(depth));
            assert(picked.len() >= n);
        }
        assert forall|k: int| 0 <= k < evals@.len() implies {
            let e = #[trigger] evals@[k];
            &&& e.play.wf()
            &&& !(e.play.spec_kind() is Pass)
            &&& cards_from(e.play.spec_cards(), g.spec_my_hand())
            &&& e.play.spec_cards().no_duplicates()
            &&& crate::finder::play_shape(e.play)
            &&& 1 <= kind_len_spec(e.play.spec_kind()) <= depth
            &&& e.weight_leaves@.len() == 10
            &&& e.infinite == root_infinite_spec(g, e.play)
            &&& root_charge_ok(g, e.play, e.leaves, e.weight_leaves@)
        } by {
            let q = picked[k];
            let e = evals@[k];
            assert(picked.contains(q));
            plays@.lemma_filter_contains_rev(qual_pred(depth), q);
            let w = choose|w: int| 0 <= w < plays@.len() && plays@[w] == q;
            crate::finder::lemma_entry_found(finder.cards@, q);
            plays@.lemma_filter_pred(qual_pred(depth), k);
            crate::finder::lemma_cards_from_perm(
                q.spec_cards(),
                finder.cards@,
                g.spec_my_hand(),
            );
            assert(e.play.eqv(q));
            assert(e.play.spec_cards() == q.spec_cards());
            assert(cards_from(e.play.spec_cards(), g.spec_my_hand()));
            assert(e.infinite == root_infinite_spec(g, q));
            assert(root_infinite_spec(g, q) == root_infinite_spec(g, e.play));
            assert(root_charge_ok(g, q, e.leaves, e.weight_leaves@) == root_charge_ok(
                g,
                e.play,
                e.leaves,
                e.weight_leaves@,
            )) by {
                assert(q.spec_cards() == e.play.spec_cards());
                assert(q.spec_kind() == e.play.spec_kind());
                assert(q.spec_ranking() == e.play.spec_ranking());
                if !g.spec_is_first_turn() && !(can_play_err(g, q.spec_cards()) is None) {
                    assert(first_analysis_term_spec(g.cards_down->Some_0, q)
                        == first_analysis_term_spec(g.cards_down->Some_0, e.play));
                }
            }
            assert(crate::finder::play_shape(e.play)) by {
                assert(crate::finder::play_shape(q));
            }
        }
        assert forall|c: Card|
            g.spec_my_hand().contains(c) implies single_evaluated(evals@, c) by {
            broadcast use vstd::seq_lib::group_to_multiset_ensures;
            broadcast use vstd::seq_lib::group_filter_ensures;

            // the card sits somewhere in the finder's sorted copy of the hand
            assert(g.spec_my_hand().to_multiset().count(c) > 0);
            assert(finder.cards@.contains(c));
            let i = choose|i: int| 0 <= i < finder.cards@.len() && finder.cards@[i] == c;
            // its single leads the enumeration and fits the budget
            assert(plays@[i].spec_cards() == seq![c]);
            assert(plays@[i].spec_kind() is Single);
            assert(qual_pred(depth)(plays@[i]));
            plays@.lemma_filter_contains(qual_pred(depth), i);
            assert(picked.contains(plays@[i]));
            let w = choose|w: int| 0 <= w < picked.len() && picked[w] == plays@[i];
            assert(evals@[w].play.eqv(picked[w]));
            assert(evals@[w].play.spec_cards() == seq![c]);
        }
    }
    evals
}

} // verus!
