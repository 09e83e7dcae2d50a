//! The combinatorial engine: given an unordered collection of cards, it
//! enumerates every legally shaped grouping (play) the collection can
//! produce, by category, and infers the unique interpretation of an exact
//! card selection.

use vstd::prelude::*;
use vstd::multiset::Multiset;
use vstd::seq_lib::group_seq_properties;

use crate::card::{card_value_spec, rank_index_spec, suit_index_spec, Card};
use crate::play::{kind_len_spec, Play, PlayKind};
use crate::util::{concat, counter, counter_spec, lemma_counter_entries, lemma_counter_len};

verus! {

broadcast use group_seq_properties;

// ---------------------------------------------------------------------------
// Spec-level vocabulary: orderings, filters, shapes.
// ---------------------------------------------------------------------------

/// The sequence is sorted by the card order (rank first, then suit).
pub open spec fn sorted_by_value(s: Seq<Card>) -> bool {
    forall|i: int, j: int|
        0 <= i < j < s.len() ==> card_value_spec(s[i]) <= card_value_spec(s[j])
}

/// Every card of `sub` is a member of `sup`.
pub open spec fn cards_from(sub: Seq<Card>, sup: Seq<Card>) -> bool {
    forall|i: int| 0 <= i < sub.len() ==> sup.contains(#[trigger] sub[i])
}

/// The cards of `a` and `b` are disjoint: no card appears in both.
pub open spec fn cards_disjoint(a: Seq<Card>, b: Seq<Card>) -> bool {
    forall|i: int| 0 <= i < a.len() ==> !b.contains(#[trigger] a[i])
}

/// Having the rank at position `r` of the climbing order.
pub open spec fn rank_pred(r: int) -> spec_fn(Card) -> bool {
    |c: Card| rank_index_spec(c.rank) == r
}

/// Having the suit at position `t` of the tie-break order.
pub open spec fn suit_pred(t: int) -> spec_fn(Card) -> bool {
    |c: Card| suit_index_spec(c.suit) == t
}

/// The cards of `s` whose rank sits at position `r` of the climbing order,
/// in their order of appearance.
pub open spec fn rank_filter(s: Seq<Card>, r: int) -> Seq<Card> {
    s.filter(rank_pred(r))
}

/// The cards of `s` whose suit sits at position `t` of the tie-break
/// order, in their order of appearance.
pub open spec fn suit_filter(s: Seq<Card>, t: int) -> Seq<Card> {
    s.filter(suit_pred(t))
}

/// How many cards of `s` have the rank at position `r`.
pub open spec fn count_rank(s: Seq<Card>, r: int) -> int {
    rank_filter(s, r).len() as int
}

/// All cards of `s` share one suit.
pub open spec fn all_same_suit(s: Seq<Card>) -> bool {
    forall|i: int, j: int| 0 <= i < s.len() && 0 <= j < s.len() ==> s[i].suit == s[j].suit
}

/// Some card of `s` has the rank at position `r` of the climbing order.
pub open spec fn has_rank(s: Seq<Card>, r: int) -> bool {
    exists|i: int| 0 <= i < s.len() && rank_index_spec(#[trigger] s[i].rank) == r
}

/// `s` covers the five consecutive rank positions starting at `start`
/// (rank positions are taken modulo 13 when generating candidate windows).
pub open spec fn covers_window(s: Seq<Card>, start: int) -> bool {
    &&& has_rank(s, start % 13)
    &&& has_rank(s, (start + 1) % 13)
    &&& has_rank(s, (start + 2) % 13)
    &&& has_rank(s, (start + 3) % 13)
    &&& has_rank(s, (start + 4) % 13)
}

/// Five cards form a strait: they cover some five-long window of
/// consecutive rank positions.
pub open spec fn strait_shape(s: Seq<Card>) -> bool {
    s.len() == 5 && exists|start: int| 0 <= start < 13 && covers_window(s, start)
}

/// Five cards form a flush: all of one suit.
pub open spec fn flush_shape(s: Seq<Card>) -> bool {
    s.len() == 5 && all_same_suit(s)
}

/// Five cards form a strait flush: a strait, all of one suit.
pub open spec fn strait_flush_shape(s: Seq<Card>) -> bool {
    strait_shape(s) && flush_shape(s)
}

/// Five cards form a four of a kind (with its arbitrary fifth card): some
/// rank appears at least four times.
pub open spec fn four_shape(s: Seq<Card>) -> bool {
    s.len() == 5 && exists|r: int| 0 <= r < 13 && count_rank(s, r) >= 4
}

/// Five cards form a full house: one rank appears at least three times
/// and a different rank at least twice.
pub open spec fn house_shape(s: Seq<Card>) -> bool {
    s.len() == 5 && exists|r1: int, r2: int|
        0 <= r1 < 13 && 0 <= r2 < 13 && r1 != r2 && count_rank(s, r1) >= 3 && count_rank(
            s,
            r2,
        ) >= 2
}

/// Five cards match at least one recognized five-card category.
pub open spec fn five_shape(s: Seq<Card>) -> bool {
    ||| strait_flush_shape(s)
    ||| four_shape(s)
    ||| house_shape(s)
    ||| flush_shape(s)
    ||| strait_shape(s)
}

/// The highest-priority five-card category the cards match, in the order
/// the inference uses: strait flush, four of a kind, full house, flush,
/// strait.
pub open spec fn five_kind(s: Seq<Card>) -> PlayKind {
    if strait_flush_shape(s) {
        PlayKind::StraitFlush
    } else if four_shape(s) {
        PlayKind::FourOfAKind
    } else if house_shape(s) {
        PlayKind::FullHouse
    } else if flush_shape(s) {
        PlayKind::Flush
    } else {
        PlayKind::Strait
    }
}

/// The highest card of a non-empty sequence, under the card order.
pub open spec fn max_card_spec(s: Seq<Card>) -> Card
    decreases s.len(),
{
    if s.len() <= 1 {
        s[0]
    } else {
        let m = max_card_spec(s.drop_first());
        if card_value_spec(s[0]) >= card_value_spec(m) {
            s[0]
        } else {
            m
        }
    }
}

/// The ranking card the inference designates for a five-card selection:
/// the highest card overall for strait, flush and strait flush; the
/// highest card of the repeated-rank cluster for four of a kind and full
/// house.
pub open spec fn five_ranking(s: Seq<Card>) -> Card {
    if strait_flush_shape(s) || !four_shape(s) && !house_shape(s) {
        max_card_spec(s)
    } else if four_shape(s) {
        let r = choose|r: int| 0 <= r < 13 && count_rank(s, r) >= 4;
        max_card_spec(rank_filter(s, r))
    } else {
        let r = choose|r: int| 0 <= r < 13 && count_rank(s, r) >= 3;
        max_card_spec(rank_filter(s, r))
    }
}

/// The structural facts that hold of the cards of a play of each kind, as
/// the finder assembles them.
pub open spec fn play_shape(p: Play) -> bool {
    match p.spec_kind() {
        PlayKind::Pass => p.spec_cards().len() == 0,
        PlayKind::Single => p.spec_cards().len() == 1,
        PlayKind::Pair => p.spec_cards().len() == 2 && p.spec_cards()[0].rank == p.spec_cards()[1].rank,
        PlayKind::Strait => strait_shape(p.spec_cards()),
        PlayKind::Flush => flush_shape(p.spec_cards()),
        PlayKind::StraitFlush => strait_flush_shape(p.spec_cards()),
        PlayKind::FourOfAKind => {
            let cs = p.spec_cards();
            &&& cs.len() == 5
            &&& cs[0].rank == cs[1].rank
            &&& cs[1].rank == cs[2].rank
            &&& cs[2].rank == cs[3].rank
            &&& cs[4] != cs[0] && cs[4] != cs[1] && cs[4] != cs[2] && cs[4] != cs[3]
        },
        PlayKind::FullHouse => {
            let cs = p.spec_cards();
            &&& cs.len() == 5
            &&& cs[0].rank == cs[1].rank
            &&& cs[1].rank == cs[2].rank
            &&& cs[3].rank == cs[4].rank
            &&& cs[0].rank != cs[3].rank || cards_disjoint(cs.take(3), cs.skip(3))
        },
    }
}

/// What it means for the finder, run over `hand`, to have produced a play:
/// the play is well formed, every one of its cards is a member of the
/// hand, and its cards have the structure its kind calls for.
pub open spec fn found_play(hand: Seq<Card>, p: Play) -> bool {
    &&& p.wf()
    &&& cards_from(p.spec_cards(), hand)
    &&& play_shape(p)
    &&& !(p.spec_kind() is Pass)
}

// ---------------------------------------------------------------------------
// Subsequences (order-preserving selections), the shape in which the
// combination generator hands out its results.
// ---------------------------------------------------------------------------

/// `s` is an order-preserving selection from `t`.
pub open spec fn is_subseq(s: Seq<Card>, t: Seq<Card>) -> bool
    decreases t.len(),
{
    if s.len() == 0 {
        true
    } else if t.len() == 0 {
        false
    } else {
        (s[0] == t[0] && is_subseq(s.drop_first(), t.drop_first())) || is_subseq(
            s,
            t.drop_first(),
        )
    }
}

/// A subsequence is no longer than the sequence it came from.
pub proof fn lemma_subseq_len(s: Seq<Card>, t: Seq<Card>)
    requires
        is_subseq(s, t),
    ensures
        s.len() <= t.len(),
    decreases t.len(),
{
    if s.len() != 0 && t.len() != 0 {
        if s[0] == t[0] && is_subseq(s.drop_first(), t.drop_first()) {
            lemma_subseq_len(s.drop_first(), t.drop_first());
        } else {
            lemma_subseq_len(s, t.drop_first());
        }
    }
}

/// A subsequence of the same length as its source is the source itself.
pub proof fn lemma_subseq_full(s: Seq<Card>, t: Seq<Card>)
    requires
        is_subseq(s, t),
        s.len() == t.len(),
    ensures
        s == t,
    decreases t.len(),
{
    if s.len() != 0 {
        if s[0] == t[0] && is_subseq(s.drop_first(), t.drop_first()) {
            lemma_subseq_full(s.drop_first(), t.drop_first());
            assert(s =~= t);
        } else {
            lemma_subseq_len(s, t.drop_first());
            assert(false);
        }
    } else {
        assert(s =~= t);
    }
}

/// Every element of a subsequence is an element of its source.
pub proof fn lemma_subseq_membership(s: Seq<Card>, t: Seq<Card>)
    requires
        is_subseq(s, t),
    ensures
        cards_from(s, t),
    decreases t.len(),
{
    if s.len() != 0 && t.len() != 0 {
        if s[0] == t[0] && is_subseq(s.drop_first(), t.drop_first()) {
            lemma_subseq_membership(s.drop_first(), t.drop_first());
            assert forall|i: int| 0 <= i < s.len() implies t.contains(#[trigger] s[i]) by {
                if i == 0 {
                    assert(t[0] == s[0]);
                } else {
                    assert(s.drop_first()[i - 1] == s[i]);
                    assert(t.drop_first().contains(s[i]));
                    let w = choose|w: int| 0 <= w < t.drop_first().len() && t.drop_first()[w] == s[i];
                    assert(t[w + 1] == s[i]);
                }
            }
        } else {
            lemma_subseq_membership(s, t.drop_first());
            assert forall|i: int| 0 <= i < s.len() implies t.contains(#[trigger] s[i]) by {
                assert(t.drop_first().contains(s[i]));
                let w = choose|w: int| 0 <= w < t.drop_first().len() && t.drop_first()[w] == s[i];
                assert(t[w + 1] == s[i]);
            }
        }
    }
}

/// A subsequence of a duplicate-free sequence is duplicate-free, and a
/// subsequence of a sorted sequence is sorted.
pub proof fn lemma_subseq_structure(s: Seq<Card>, t: Seq<Card>)
    requires
        is_subseq(s, t),
    ensures
        t.no_duplicates() ==> s.no_duplicates(),
        sorted_by_value(t) ==> sorted_by_value(s),
    decreases t.len(), s.len(),
{
    if s.len() != 0 && t.len() != 0 {
        if s[0] == t[0] && is_subseq(s.drop_first(), t.drop_first()) {
            lemma_subseq_structure(s.drop_first(), t.drop_first());
            lemma_subseq_membership(s.drop_first(), t.drop_first());
            if t.no_duplicates() {
                assert forall|i: int, j: int| 0 <= i < j < s.len() implies s[i] != s[j] by {
                    if i == 0 {
                        assert(t.drop_first().contains(s[j]));
                        let w = choose|w: int|
                            0 <= w < t.drop_first().len() && t.drop_first()[w] == s[j];
                        assert(t[w + 1] == s[j]);
                        assert(t[0] != t[w + 1]);
                    } else {
                        assert(s.drop_first()[i - 1] == s[i] && s.drop_first()[j - 1] == s[j]);
                    }
                }
            }
            if sorted_by_value(t) {
                assert forall|i: int, j: int| 0 <= i < j < s.len() implies card_value_spec(s[i])
                    <= card_value_spec(s[j]) by {
                    if i == 0 {
                        assert(t.drop_first().contains(s[j]));
                        let w = choose|w: int|
                            0 <= w < t.drop_first().len() && t.drop_first()[w] == s[j];
                        assert(t[w + 1] == s[j]);
                    } else {
                        assert(s.drop_first()[i - 1] == s[i] && s.drop_first()[j - 1] == s[j]);
                        assert(sorted_by_value(s.drop_first()));
                    }
                }
            }
        } else {
            lemma_subseq_structure(s, t.drop_first());
            assert(t.no_duplicates() ==> t.drop_first().no_duplicates());
            assert(sorted_by_value(t) ==> sorted_by_value(t.drop_first()));
        }
    }
}

/// A single element of `t` is a subsequence of `t`.
pub proof fn lemma_subseq_singleton(c: Card, t: Seq<Card>)
    requires
        t.contains(c),
    ensures
        is_subseq(seq![c], t),
    decreases t.len(),
{
    if t[0] == c {
        assert(is_subseq(seq![c].drop_first(), t.drop_first()));
    } else {
        assert(t.drop_first().contains(c)) by {
            let w = choose|w: int| 0 <= w < t.len() && t[w] == c;
            assert(t.drop_first()[w - 1] == c);
        }
        lemma_subseq_singleton(c, t.drop_first());
    }
}

/// Prefixing an element of `t` taken before the tail a subsequence came
/// from keeps it a subsequence: if `s` selects from positions after `i`,
/// then `t[i]` followed by `s` selects from positions at or after `from`.
#[verifier::rlimit(100)]
#[verifier::spinoff_prover]
pub proof fn lemma_subseq_cons(s: Seq<Card>, t: Seq<Card>, from: int, i: int)
    requires
        0 <= from <= i < t.len(),
        is_subseq(s, t.skip(i + 1)),
    ensures
        is_subseq(seq![t[i]] + s, t.skip(from)),
    decreases i - from,
{
    let w = seq![t[i]] + s;
    if from == i {
        assert(t.skip(from).len() > 0);
        assert(w[0] == t.skip(from)[0]);
        assert(w.drop_first() =~= s);
        assert(t.skip(from).drop_first() =~= t.skip(i + 1));
    } else {
        lemma_subseq_cons(s, t, from + 1, i);
        assert(t.skip(from).drop_first() =~= t.skip(from + 1));
    }
}

/// A non-empty subsequence starts at some source position, with its
/// tail selected from what follows.
pub proof fn lemma_subseq_split(s: Seq<Card>, t: Seq<Card>)
    requires
        is_subseq(s, t),
        s.len() > 0,
    ensures
        exists|j: int|
            0 <= j < t.len() && s[0] == t[j] && is_subseq(s.drop_first(), #[trigger] t.skip(j + 1)),
    decreases t.len(),
{
    if s[0] == t[0] && is_subseq(s.drop_first(), t.drop_first()) {
        assert(t.skip(1int) =~= t.drop_first());
        assert(is_subseq(s.drop_first(), t.skip(0int + 1)));
    } else {
        lemma_subseq_split(s, t.drop_first());
        let j = choose|j: int|
            0 <= j < t.drop_first().len() && s[0] == t.drop_first()[j] && is_subseq(
                s.drop_first(),
                #[trigger] t.drop_first().skip(j + 1),
            );
        assert(t.drop_first().skip(j + 1) =~= t.skip(j + 2));
        assert(s[0] == t[j + 1]);
        assert(is_subseq(s.drop_first(), t.skip((j + 1) + 1)));
    }
}

/// One of the first `n` chunks holds exactly the cards `target`.
pub open spec fn rows_contain(rows: Seq<Vec<Card>>, target: Seq<Card>) -> bool {
    exists|k: int| 0 <= k < rows.len() && (#[trigger] rows[k])@ == target
}

/// The row's first card is one of the list elements at a position in
/// `[from, i)`.
pub open spec fn row_starts_before(row: Seq<Card>, list: Seq<Card>, from: int, i: int) -> bool {
    exists|j: int| from <= j < i && row[0] == #[trigger] list[j]
}

/// Widening the position range keeps the fact.
pub proof fn lemma_row_start_widen(row: Seq<Card>, list: Seq<Card>, from: int, i1: int, i2: int)
    requires
        row_starts_before(row, list, from, i1),
        i1 <= i2,
    ensures
        row_starts_before(row, list, from, i2),
{
    let j = choose|j: int| from <= j < i1 && row[0] == #[trigger] list[j];
    assert(from <= j < i2 && row[0] == list[j]);
}

/// A collected row stays collected as more rows are pushed.
pub proof fn lemma_rows_contain_push(rows: Seq<Vec<Card>>, x: Vec<Card>, target: Seq<Card>)
    requires
        rows_contain(rows, target),
    ensures
        rows_contain(rows.push(x), target),
{
    let k = choose|k: int| 0 <= k < rows.len() && (#[trigger] rows[k])@ == target;
    assert(rows.push(x)[k]@ == target);
}

/// A collected row stays collected as other rows are appended on
/// either side.
pub proof fn lemma_rows_contain_cat(a: Seq<Vec<Card>>, b: Seq<Vec<Card>>, target: Seq<Card>)
    requires
        rows_contain(a, target) || rows_contain(b, target),
    ensures
        rows_contain(a + b, target),
{
    if rows_contain(a, target) {
        let k = choose|k: int| 0 <= k < a.len() && (#[trigger] a[k])@ == target;
        assert((a + b)[k]@ == target);
    } else {
        let k = choose|k: int| 0 <= k < b.len() && (#[trigger] b[k])@ == target;
        assert((a + b)[a.len() + k]@ == target);
    }
}

/// A collected play stays collected as other plays are appended on
/// either side.
pub proof fn lemma_play_present_cat(a: Seq<Play>, b: Seq<Play>, target: Seq<Card>)
    requires
        play_cards_present(a, target) || play_cards_present(b, target),
    ensures
        play_cards_present(a + b, target),
{
    if play_cards_present(a, target) {
        let k = choose|k: int| 0 <= k < a.len() && (#[trigger] a[k]).spec_cards() == target;
        assert((a + b)[k].spec_cards() == target);
    } else {
        let k = choose|k: int| 0 <= k < b.len() && (#[trigger] b[k]).spec_cards() == target;
        assert((a + b)[a.len() + k].spec_cards() == target);
    }
}

/// A collected play stays collected as more plays are pushed.
pub proof fn lemma_play_present_push(plays: Seq<Play>, x: Play, target: Seq<Card>)
    requires
        play_cards_present(plays, target),
    ensures
        play_cards_present(plays.push(x), target),
{
    let k = choose|k: int| 0 <= k < plays.len() && (#[trigger] plays[k]).spec_cards() == target;
    assert(plays.push(x)[k].spec_cards() == target);
}

/// A subsequence is reflexive.
pub proof fn lemma_subseq_refl(t: Seq<Card>)
    ensures
        is_subseq(t, t),
    decreases t.len(),
{
    if t.len() != 0 {
        lemma_subseq_refl(t.drop_first());
    }
}

// ---------------------------------------------------------------------------
// Filter helpers.
// ---------------------------------------------------------------------------

/// Pushing one element extends a filtered sequence by that element
/// exactly when the element satisfies the predicate.
pub proof fn lemma_filter_push(s: Seq<Card>, pred: spec_fn(Card) -> bool, x: Card)
    ensures
        s.push(x).filter(pred) == if pred(x) {
            s.filter(pred).push(x)
        } else {
            s.filter(pred)
        },
{
    reveal(Seq::filter);
    assert(s.push(x).drop_last() =~= s);
    assert(s.push(x).last() == x);
}

/// A filtered sequence that kept every position is the whole sequence.
pub proof fn lemma_filter_all(s: Seq<Card>, pred: spec_fn(Card) -> bool)
    requires
        s.filter(pred).len() == s.len(),
    ensures
        s.filter(pred) == s,
        forall|i: int| 0 <= i < s.len() ==> pred(#[trigger] s[i]),
    decreases s.len(),
{
    reveal(Seq::filter);
    if s.len() != 0 {
        s.drop_last().lemma_filter_len(pred);
        if pred(s.last()) {
            lemma_filter_all(s.drop_last(), pred);
            assert(s.drop_last().push(s.last()) =~= s);
            assert forall|i: int| 0 <= i < s.len() implies pred(#[trigger] s[i]) by {
                if i < s.len() - 1 {
                    assert(s.drop_last()[i] == s[i]);
                }
            }
        } else {
            assert(s.filter(pred).len() < s.len());
        }
    }
}

/// A filter of a duplicate-free sequence is duplicate-free.
pub proof fn lemma_filter_no_dup(s: Seq<Card>, pred: spec_fn(Card) -> bool)
    requires
        s.no_duplicates(),
    ensures
        s.filter(pred).no_duplicates(),
{
    lemma_filter_subseq(s, pred);
    lemma_subseq_structure(s.filter(pred), s);
}

/// A filtered sequence is a subsequence of its source.
pub proof fn lemma_filter_subseq(s: Seq<Card>, pred: spec_fn(Card) -> bool)
    ensures
        is_subseq(s.filter(pred), s),
    decreases s.len(),
{
    reveal(Seq::filter);
    if s.len() != 0 {
        lemma_filter_subseq(s.drop_last(), pred);
        let f = s.drop_last().filter(pred);
        assert(s.drop_last().push(s.last()) =~= s);
        if pred(s.last()) {
            lemma_subseq_push_both(f, s.drop_last(), s.last());
        } else {
            lemma_subseq_push_right(f, s.drop_last(), s.last());
        }
    }
}

/// Appending the same element to a subsequence and its source keeps the
/// subsequence relation.
pub proof fn lemma_subseq_push_both(s: Seq<Card>, t: Seq<Card>, x: Card)
    requires
        is_subseq(s, t),
    ensures
        is_subseq(s.push(x), t.push(x)),
    decreases t.len(),
{
    if s.len() == 0 {
        if t.len() == 0 {
            assert(s.push(x) =~= seq![x] && t.push(x) =~= seq![x]);
            assert(is_subseq(seq![x].drop_first(), seq![x].drop_first()));
        } else {
            lemma_subseq_push_both(s, t.drop_first(), x);
            assert(t.push(x).drop_first() =~= t.drop_first().push(x));
        }
    } else {
        if s[0] == t[0] && is_subseq(s.drop_first(), t.drop_first()) {
            lemma_subseq_push_both(s.drop_first(), t.drop_first(), x);
            assert(s.push(x).drop_first() =~= s.drop_first().push(x));
            assert(t.push(x).drop_first() =~= t.drop_first().push(x));
            assert(s.push(x)[0] == t.push(x)[0]);
        } else {
            lemma_subseq_push_both(s, t.drop_first(), x);
            assert(t.push(x).drop_first() =~= t.drop_first().push(x));
            assert(s.push(x)[0] == s[0]);
        }
    }
}

/// Appending an element to only the source keeps the subsequence relation.
pub proof fn lemma_subseq_push_right(s: Seq<Card>, t: Seq<Card>, x: Card)
    requires
        is_subseq(s, t),
    ensures
        is_subseq(s, t.push(x)),
    decreases t.len(),
{
    if s.len() == 0 {
    } else if t.len() == 0 {
    } else {
        if s[0] == t[0] && is_subseq(s.drop_first(), t.drop_first()) {
            lemma_subseq_push_right(s.drop_first(), t.drop_first(), x);
            assert(t.push(x).drop_first() =~= t.drop_first().push(x));
        } else {
            lemma_subseq_push_right(s, t.drop_first(), x);
            assert(t.push(x).drop_first() =~= t.drop_first().push(x));
        }
    }
}

// ---------------------------------------------------------------------------
// Executable helpers.
// ---------------------------------------------------------------------------

/// Whether `v` holds the card `c`.
pub fn contains_card(v: &Vec<Card>, c: Card) -> (r: bool)
    ensures
        r == v@.contains(c),
{
    let mut i: usize = 0;
    while i < v.len()
        invariant
            i <= v@.len(),
            forall|k: int| 0 <= k < i ==> v@[k] != c,
        decreases v@.len() - i,
    {
        if v[i] == c {
            return true;
        }
        i += 1;
    }
    false
}

/// The highest card of a non-empty collection, under the card order.
pub fn max_card(cards: &Vec<Card>) -> (m: Card)
    requires
        cards@.len() >= 1,
    ensures
        m == max_card_spec(cards@),
        cards@.contains(m),
        forall|i: int| 0 <= i < cards@.len() ==> card_value_spec(#[trigger] cards@[i]) <= card_value_spec(m),
{
    let mut m = cards[0];
    let mut i: usize = 1;
    while i < cards.len()
        invariant
            1 <= i <= cards@.len(),
            cards@.take(i as int).contains(m),
            forall|k: int| 0 <= k < i ==> card_value_spec(#[trigger] cards@[k]) <= card_value_spec(m),
        decreases cards@.len() - i,
    {
        if m.numeric_value() < cards[i].numeric_value() {
            m = cards[i];
            proof {
                assert(cards@.take(i as int + 1)[i as int] == cards@[i as int]);
            }
        } else {
            proof {
                let w = choose|w: int| 0 <= w < i && cards@.take(i as int)[w] == m;
                assert(cards@.take(i as int + 1)[w] == m);
            }
        }
        i += 1;
    }
    proof {
        assert(cards@.take(cards@.len() as int) =~= cards@);
        lemma_max_card_unique(cards@, m);
    }
    m
}

/// The highest card of a collection is pinned by its two properties:
/// membership and dominating value. (Two cards of one value are the same
/// card.)
pub proof fn lemma_max_card_unique(s: Seq<Card>, m: Card)
    requires
        s.len() >= 1,
        s.contains(m),
        forall|i: int| 0 <= i < s.len() ==> card_value_spec(#[trigger] s[i]) <= card_value_spec(m),
    ensures
        m == max_card_spec(s),
    decreases s.len(),
{
    lemma_max_card_props(s);
    let spec_m = max_card_spec(s);
    assert(card_value_spec(m) <= card_value_spec(spec_m)) by {
        let w = choose|w: int| 0 <= w < s.len() && s[w] == m;
    }
    let w2 = choose|w2: int| 0 <= w2 < s.len() && s[w2] == spec_m;
    assert(card_value_spec(spec_m) <= card_value_spec(m));
    crate::card::lemma_card_value_injective(m, spec_m);
}

/// The spec-level maximum is a member and dominates every element.
pub proof fn lemma_max_card_props(s: Seq<Card>)
    requires
        s.len() >= 1,
    ensures
        s.contains(max_card_spec(s)),
        forall|i: int|
            0 <= i < s.len() ==> card_value_spec(#[trigger] s[i]) <= card_value_spec(
                max_card_spec(s),
            ),
    decreases s.len(),
{
    if s.len() == 1 {
        assert(s[0] == max_card_spec(s));
    } else {
        lemma_max_card_props(s.drop_first());
        let m = max_card_spec(s);
        let md = max_card_spec(s.drop_first());
        if card_value_spec(s[0]) >= card_value_spec(md) {
            assert(m == s[0]);
        } else {
            let w = choose|w: int| 0 <= w < s.drop_first().len() && s.drop_first()[w] == md;
            assert(s[w + 1] == md);
        }
        assert forall|i: int| 0 <= i < s.len() implies card_value_spec(#[trigger] s[i])
            <= card_value_spec(m) by {
            if i > 0 {
                assert(s.drop_first()[i - 1] == s[i]);
            }
        }
    }
}

/// Whether the two collections share any card.
pub fn do_overlap(cards: &Vec<Card>, other: &Vec<Card>) -> (r: bool)
    ensures
        r == !cards_disjoint(cards@, other@),
{
    let mut i: usize = 0;
    while i < cards.len()
        invariant
            i <= cards@.len(),
            forall|k: int| 0 <= k < i ==> !other@.contains(#[trigger] cards@[k]),
        decreases cards@.len() - i,
    {
        if contains_card(other, cards[i]) {
            return true;
        }
        i += 1;
    }
    false
}

/// Whether all cards of a non-empty collection share one suit.
pub fn are_flush(cards: &Vec<Card>) -> (r: bool)
    requires
        cards@.len() >= 1,
    ensures
        r == all_same_suit(cards@),
{
    let first_suit = cards[0].suit;
    let mut i: usize = 1;
    while i < cards.len()
        invariant
            1 <= i <= cards@.len(),
            first_suit == cards@[0].suit,
            forall|k: int| 0 <= k < i ==> #[trigger] cards@[k].suit == cards@[0].suit,
        decreases cards@.len() - i,
    {
        if cards[i].suit.index() != first_suit.index() {
            proof {
                crate::card::lemma_suit_index_injective(cards@[i as int].suit, cards@[0].suit);
                assert(!all_same_suit(cards@));
            }
            return false;
        }
        proof {
            crate::card::lemma_suit_index_injective(cards@[i as int].suit, cards@[0].suit);
        }
        i += 1;
    }
    true
}

/// Sorts the cards ascending in the card order, keeping exactly the same
/// cards (as a multiset).
pub fn sort_cards(cards: Vec<Card>) -> (out: Vec<Card>)
    ensures
        sorted_by_value(out@),
        out@.to_multiset() == cards@.to_multiset(),
        out@.len() == cards@.len(),
{
    broadcast use vstd::seq_lib::group_to_multiset_ensures;

    let mut out: Vec<Card> = Vec::new();
    let mut i: usize = 0;
    while i < cards.len()
        invariant
            i <= cards@.len(),
            sorted_by_value(out@),
            out@.to_multiset() == cards@.take(i as int).to_multiset(),
            out@.len() == i as int,
        decreases cards@.len() - i,
    {
        let c = cards[i];
        // find the insertion point: the first position whose card exceeds c
        let mut j: usize = 0;
        while j < out.len() && out[j].numeric_value() <= c.numeric_value()
            invariant
                j <= out@.len(),
                forall|k: int| 0 <= k < j ==> card_value_spec(#[trigger] out@[k]) <= card_value_spec(c),
            decreases out@.len() - j,
        {
            j += 1;
        }
        proof {
            assert(cards@.take(i as int + 1).drop_last() =~= cards@.take(i as int));
            assert(cards@.take(i as int + 1).last() == c);
            assert(cards@.take(i as int + 1) == cards@.take(i as int).push(c));
        }
        let ghost old_out = out@;
        out.insert(j, c);
        proof {
            assert(out@ == old_out.insert(j as int, c));
            assert(sorted_by_value(out@)) by {
                assert forall|a: int, b: int| 0 <= a < b < out@.len() implies card_value_spec(
                    out@[a],
                ) <= card_value_spec(out@[b]) by {
                    if a < j && b == j {
                    } else if a == j && b > j {
                        assert(out@[b] == old_out[b - 1]);
                        assert(card_value_spec(c) < card_value_spec(old_out[j as int]));
                        assert(card_value_spec(old_out[j as int]) <= card_value_spec(
                            old_out[b - 1],
                        ));
                    } else if a < j && b > j {
                        assert(out@[a] == old_out[a] && out@[b] == old_out[b - 1]);
                    } else if a > j && b > j {
                        assert(out@[a] == old_out[a - 1] && out@[b] == old_out[b - 1]);
                    }
                }
            }
        }
        i += 1;
    }
    proof {
        assert(cards@.take(cards@.len() as int) =~= cards@);
    }
    out
}

/// Every way to choose `n` cards, in order, from the tail of `list`
/// starting at position `from` — each exactly once as a selection of
/// positions, and every such selection. Choosing as many cards as there
/// are yields exactly the tail itself.
#[verifier::rlimit(80)]
#[verifier::spinoff_prover]
fn permute_from(list: &Vec<Card>, from: usize, n: usize) -> (out: Vec<Vec<Card>>)
    requires
        1 <= n,
        from <= list@.len(),
        n <= list@.len() - from,
    ensures
        out@.len() >= 1,
        forall|k: int|
            0 <= k < out@.len() ==> is_subseq(#[trigger] out@[k]@, list@.skip(from as int))
                && out@[k]@.len() == n as int,
        forall|sub: Seq<Card>|
            sub.len() == n as int && is_subseq(sub, list@.skip(from as int)) ==> rows_contain(
                out@,
                sub,
            ),
        list@.no_duplicates() ==> forall|k1: int, k2: int|
            0 <= k1 < k2 < out@.len() ==> (#[trigger] out@[k1])@ != (#[trigger] out@[k2])@,
        n as int == list@.len() - from ==> out@.len() == 1 && out@[0]@ == list@.skip(from as int),
    decreases list@.len() - from,
{
    let mut out: Vec<Vec<Card>> = Vec::new();
    if list.len() - from == n {
        // the whole tail, as the single choice
        let mut row: Vec<Card> = Vec::new();
        let mut i: usize = from;
        while i < list.len()
            invariant
                from <= i <= list@.len(),
                row@ =~= list@.subrange(from as int, i as int),
            decreases list@.len() - i,
        {
            row.push(list[i]);
            i += 1;
        }
        proof {
            assert(row@ =~= list@.skip(from as int));
            lemma_subseq_refl(row@);
        }
        out.push(row);
        proof {
            assert forall|sub: Seq<Card>|
                sub.len() == n as int && is_subseq(sub, list@.skip(from as int)) implies rows_contain(
                out@,
                sub,
            ) by {
                lemma_subseq_full(sub, list@.skip(from as int));
                assert(out@[0]@ == sub);
            }
        }
    } else if n == 1 {
        let mut i: usize = from;
        while i < list.len()
            invariant
                from <= i <= list@.len(),
                from < list@.len(),
                out@.len() == i - from,
                forall|k: int|
                    0 <= k < out@.len() ==> is_subseq(#[trigger] out@[k]@, list@.skip(from as int))
                        && out@[k]@.len() == 1,
                forall|k: int| 0 <= k < out@.len() ==> (#[trigger] out@[k])@ == seq![list@[from + k]],
                forall|w: int|
                    from <= w < i ==> rows_contain(out@, seq![#[trigger] list@[w]]),
            decreases list@.len() - i,
        {
            let mut row: Vec<Card> = Vec::new();
            row.push(list[i]);
            proof {
                assert(row@ =~= seq![list@[i as int]]);
                assert(list@.skip(from as int).contains(list@[i as int])) by {
                    assert(list@.skip(from as int)[i - from as int] == list@[i as int]);
                }
                lemma_subseq_singleton(list@[i as int], list@.skip(from as int));
            }
            let ghost prior = out@;
            let ghost row_view = row@;
            out.push(row);
            proof {
                assert forall|w: int| from <= w < i + 1 implies rows_contain(
                    out@,
                    seq![#[trigger] list@[w]],
                ) by {
                    if w < i {
                        lemma_rows_contain_push(prior, out@[prior.len() as int], seq![list@[w]]);
                        assert(out@ == prior.push(out@[prior.len() as int]));
                    } else {
                        assert(out@[prior.len() as int]@ == seq![list@[w]]);
                    }
                }
            }
            i += 1;
        }
        proof {
            assert forall|sub: Seq<Card>|
                sub.len() == n as int && is_subseq(sub, list@.skip(from as int)) implies rows_contain(
                out@,
                sub,
            ) by {
                lemma_subseq_membership(sub, list@.skip(from as int));
                assert(list@.skip(from as int).contains(sub[0]));
                let w0 = choose|w0: int|
                    0 <= w0 < list@.skip(from as int).len() && list@.skip(from as int)[w0]
                        == sub[0];
                assert(list@[from as int + w0] == sub[0]);
                assert(sub =~= seq![list@[from as int + w0]]);
            }
            if list@.no_duplicates() {
                assert forall|k1: int, k2: int|
                    0 <= k1 < k2 < out@.len() implies (#[trigger] out@[k1])@
                    != (#[trigger] out@[k2])@ by {
                    assert(out@[k1]@[0] == list@[from + k1]);
                    assert(out@[k2]@[0] == list@[from + k2]);
                }
            }
        }
    } else {
        let mut i: usize = from;
        // i can go up to list.len() - n inclusive
        while i <= list.len() - n
            invariant
                2 <= n,
                n < list@.len() - from,
                from <= i <= list@.len() - n + 1,
                forall|k: int|
                    0 <= k < out@.len() ==> is_subseq(#[trigger] out@[k]@, list@.skip(from as int))
                        && out@[k]@.len() == n as int,
                i > from ==> out@.len() >= 1,
                forall|sub: Seq<Card>|
                    sub.len() == n as int && (exists|j: int|
                        from <= j < i && sub[0] == list@[j] && is_subseq(
                            sub.drop_first(),
                            #[trigger] list@.skip(j + 1),
                        )) ==> rows_contain(out@, sub),
                forall|k: int|
                    0 <= k < out@.len() ==> row_starts_before(
                        (#[trigger] out@[k])@,
                        list@,
                        from as int,
                        i as int,
                    ),
                list@.no_duplicates() ==> forall|k1: int, k2: int|
                    0 <= k1 < k2 < out@.len() ==> (#[trigger] out@[k1])@ != (#[trigger] out@[k2])@,
            decreases list@.len() - i,
        {
            let results = permute_from(list, i + 1, n - 1);
            let ghost pre_len = out@.len();
            let mut ridx: usize = 0;
            while ridx < results.len()
                invariant
                    from <= i <= list@.len() - n,
                    2 <= n,
                    n as int <= list@.len() - i,
                    forall|k: int|
                        0 <= k < results@.len() ==> is_subseq(
                            #[trigger] results@[k]@,
                            list@.skip(i as int + 1),
                        ) && results@[k]@.len() == n as int - 1,
                    ridx <= results@.len(),
                    results@.len() >= 1,
                    forall|k: int|
                        0 <= k < out@.len() ==> is_subseq(
                            #[trigger] out@[k]@,
                            list@.skip(from as int),
                        ) && out@[k]@.len() == n as int,
                    ridx > 0 ==> out@.len() >= 1,
                    forall|sub: Seq<Card>|
                        sub.len() == n as int && (exists|j: int|
                            from <= j < i && sub[0] == list@[j] && is_subseq(
                                sub.drop_first(),
                                #[trigger] list@.skip(j + 1),
                            )) ==> rows_contain(out@, sub),
                    forall|rk: int|
                        0 <= rk < ridx ==> rows_contain(
                            out@,
                            seq![list@[i as int]] + (#[trigger] results@[rk])@,
                        ),
                    out@.len() == pre_len + ridx as int,
                    forall|k: int|
                        0 <= k < pre_len ==> row_starts_before(
                            (#[trigger] out@[k])@,
                            list@,
                            from as int,
                            i as int,
                        ),
                    forall|k: int|
                        pre_len <= k < out@.len() ==> (#[trigger] out@[k])@ == seq![
                            list@[i as int],
                        ] + results@[k - pre_len]@,
                    list@.no_duplicates() ==> forall|k1: int, k2: int|
                        0 <= k1 < k2 < pre_len ==> (#[trigger] out@[k1])@ != (#[trigger] out@[k2])@,
                    list@.no_duplicates() ==> forall|rk1: int, rk2: int|
                        0 <= rk1 < rk2 < results@.len() ==> (#[trigger] results@[rk1])@
                            != (#[trigger] results@[rk2])@,
                decreases results@.len() - ridx,
            {
                let mut row: Vec<Card> = results[ridx].clone();
                proof {
                    assert(row@ == results@[ridx as int]@);
                }
                row.insert(0, list[i]);
                proof {
                    assert(row@ =~= seq![list@[i as int]] + results@[ridx as int]@);
                    lemma_subseq_cons(results@[ridx as int]@, list@, from as int, i as int);
                }
                let ghost prior = out@;
                let ghost row_view = row@;
                out.push(row);
                proof {
                    assert(out@ == prior.push(out@[prior.len() as int]));
                    assert(out@[prior.len() as int]@ == row_view);
                    assert forall|sub: Seq<Card>|
                        sub.len() == n as int && (exists|j: int|
                            from <= j < i && sub[0] == list@[j] && is_subseq(
                                sub.drop_first(),
                                #[trigger] list@.skip(j + 1),
                            )) implies rows_contain(out@, sub) by {
                        lemma_rows_contain_push(prior, out@[prior.len() as int], sub);
                    }
                    assert forall|rk: int| 0 <= rk < ridx + 1 implies rows_contain(
                        out@,
                        seq![list@[i as int]] + (#[trigger] results@[rk])@,
                    ) by {
                        if rk < ridx {
                            lemma_rows_contain_push(
                                prior,
                                out@[prior.len() as int],
                                seq![list@[i as int]] + results@[rk]@,
                            );
                        } else {
                            assert(out@[prior.len() as int]@ == seq![list@[i as int]]
                                + results@[rk]@);
                        }
                    }
                }
                ridx += 1;
            }
            proof {
                if list@.no_duplicates() {
                    assert forall|k1: int, k2: int|
                        0 <= k1 < k2 < out@.len() implies (#[trigger] out@[k1])@
                        != (#[trigger] out@[k2])@ by {
                        if k2 >= pre_len {
                            if k1 < pre_len {
                                // an earlier group starts with an earlier element
                                assert(row_starts_before(out@[k1]@, list@, from as int, i as int));
                                let j = choose|j: int|
                                    from <= j < i && out@[k1]@[0] == #[trigger] list@[j];
                                assert(out@[k2]@[0] == list@[i as int]);
                                assert(out@[k1]@.len() > 0);
                            } else {
                                // same first element, different recursive tails
                                let a = results@[k1 - pre_len]@;
                                let b = results@[k2 - pre_len]@;
                                assert(a != b);
                                if out@[k1]@ == out@[k2]@ {
                                    assert((seq![list@[i as int]] + a).drop_first() =~= a);
                                    assert((seq![list@[i as int]] + b).drop_first() =~= b);
                                }
                            }
                        }
                    }
                }
                assert forall|k: int| 0 <= k < out@.len() implies row_starts_before(
                    (#[trigger] out@[k])@,
                    list@,
                    from as int,
                    i as int + 1,
                ) by {
                    if k >= pre_len {
                        assert(out@[k]@[0] == list@[i as int]);
                        assert(row_starts_before(out@[k]@, list@, from as int, i as int + 1));
                    } else {
                        lemma_row_start_widen(out@[k]@, list@, from as int, i as int, i as int + 1);
                    }
                }
            }
            proof {
                assert forall|sub: Seq<Card>|
                    sub.len() == n as int && (exists|j: int|
                        from <= j < i + 1 && sub[0] == list@[j] && is_subseq(
                            sub.drop_first(),
                            #[trigger] list@.skip(j + 1),
                        )) implies rows_contain(out@, sub) by {
                    let j = choose|j: int|
                        from <= j < i + 1 && sub[0] == list@[j] && is_subseq(
                            sub.drop_first(),
                            #[trigger] list@.skip(j + 1),
                        );
                    if j == i {
                        assert(is_subseq(sub.drop_first(), list@.skip(i as int + 1)));
                        assert(sub.drop_first().len() == n as int - 1);
                        assert(rows_contain(results@, sub.drop_first()));
                        let rk = choose|rk: int|
                            0 <= rk < results@.len() && (#[trigger] results@[rk])@
                                == sub.drop_first();
                        assert(rows_contain(out@, seq![list@[i as int]] + results@[rk]@));
                        assert(sub =~= seq![list@[i as int]] + sub.drop_first());
                    }
                }
            }
            i += 1;
        }
        proof {
            assert forall|sub: Seq<Card>|
                sub.len() == n as int && is_subseq(sub, list@.skip(from as int)) implies rows_contain(
                out@,
                sub,
            ) by {
                lemma_subseq_split(sub, list@.skip(from as int));
                let j0 = choose|j0: int|
                    0 <= j0 < list@.skip(from as int).len() && sub[0] == list@.skip(from as int)[j0]
                        && is_subseq(
                        sub.drop_first(),
                        #[trigger] list@.skip(from as int).skip(j0 + 1),
                    );
                let j = from as int + j0;
                assert(list@.skip(from as int).skip(j0 + 1) =~= list@.skip(j + 1));
                assert(sub[0] == list@[j]);
                assert(is_subseq(sub.drop_first(), list@.skip(j + 1)));
                lemma_subseq_len(sub.drop_first(), list@.skip(j + 1));
                assert(j < list@.len() - n + 1);
            }
        }
    }
    out
}

/// Every way to choose `n` of the given cards, keeping their order.
pub fn permute(list: &Vec<Card>, n: usize) -> (out: Vec<Vec<Card>>)
    requires
        1 <= n,
        n <= list@.len(),
    ensures
        out@.len() >= 1,
        forall|k: int|
            0 <= k < out@.len() ==> is_subseq(#[trigger] out@[k]@, list@) && out@[k]@.len()
                == n as int,
        forall|sub: Seq<Card>|
            sub.len() == n as int && is_subseq(sub, list@) ==> rows_contain(out@, sub),
        list@.no_duplicates() ==> forall|k1: int, k2: int|
            0 <= k1 < k2 < out@.len() ==> (#[trigger] out@[k1])@ != (#[trigger] out@[k2])@,
        n as int == list@.len() ==> out@.len() == 1 && out@[0]@ == list@,
{
    let out = permute_from(list, 0, n);
    proof {
        assert(list@.skip(0) =~= list@);
    }
    out
}


// ---------------------------------------------------------------------------
// What each enumerator hands out, stated strongly enough to recover both
// the structural facts of each play and, on an exact five-card selection,
// the completeness of the search.
// ---------------------------------------------------------------------------

/// A single as the finder builds it: one card of the hand, which is its
/// own ranking card.
pub open spec fn single_entry(hand: Seq<Card>, p: Play) -> bool {
    &&& p.spec_kind() is Single
    &&& p.spec_cards().len() == 1
    &&& hand.contains(p.spec_cards()[0])
    &&& p.spec_ranking() == Some(p.spec_cards()[0])
}

/// A pair as the finder builds it: two cards chosen in order from one
/// rank block; the second (higher) is the ranking card.
pub open spec fn pair_entry(hand: Seq<Card>, p: Play) -> bool {
    &&& p.spec_kind() is Pair
    &&& p.spec_cards().len() == 2
    &&& exists|r: int| 0 <= r < 13 && is_subseq(p.spec_cards(), rank_filter(hand, r))
    &&& p.spec_ranking() == Some(p.spec_cards()[1])
}

/// A flush as the finder builds it: five cards chosen in order from one
/// suit block; the highest is the ranking card.
pub open spec fn flush_entry(hand: Seq<Card>, p: Play) -> bool {
    &&& p.spec_kind() is Flush
    &&& p.spec_cards().len() == 5
    &&& exists|t: int| 0 <= t < 4 && is_subseq(p.spec_cards(), suit_filter(hand, t))
    &&& p.spec_ranking() == Some(max_card_spec(p.spec_cards()))
}

/// The five cards sit one in each of the five rank blocks of the window
/// starting at `s`.
pub open spec fn window_cards(hand: Seq<Card>, cs: Seq<Card>, s: int) -> bool {
    &&& cs.len() == 5
    &&& rank_filter(hand, s % 13).contains(cs[0])
    &&& rank_filter(hand, (s + 1) % 13).contains(cs[1])
    &&& rank_filter(hand, (s + 2) % 13).contains(cs[2])
    &&& rank_filter(hand, (s + 3) % 13).contains(cs[3])
    &&& rank_filter(hand, (s + 4) % 13).contains(cs[4])
}

/// The five cards picked out of the window's blocks by one digit
/// vector: card `u` is entry `x[u]` of the block at rank position
/// `(s + u) % 13`.
pub open spec fn window_pick(hand: Seq<Card>, s: int, x: Seq<usize>) -> Seq<Card> {
    Seq::new(5, |u: int| rank_filter(hand, (s + u) % 13)[x[u] as int])
}

/// A strait as the finder builds it: one card from each rank block of
/// some window; the highest is the ranking card.
pub open spec fn strait_entry(hand: Seq<Card>, p: Play) -> bool {
    &&& p.spec_kind() is Strait
    &&& exists|s: int| 0 <= s < 13 && window_cards(hand, p.spec_cards(), s)
    &&& p.spec_ranking() == Some(max_card_spec(p.spec_cards()))
}

/// A strait flush as the finder builds it: a strait whose five cards
/// share one suit, re-tagged.
pub open spec fn strait_flush_entry(hand: Seq<Card>, p: Play) -> bool {
    &&& p.spec_kind() is StraitFlush
    &&& exists|s: int| 0 <= s < 13 && window_cards(hand, p.spec_cards(), s)
    &&& all_same_suit(p.spec_cards())
    &&& p.spec_ranking() == Some(max_card_spec(p.spec_cards()))
}

/// A four of a kind as the finder builds it: four cards of one rank block
/// followed by any fifth card not among them; the last of the four is the
/// ranking card.
pub open spec fn four_entry(hand: Seq<Card>, p: Play) -> bool {
    &&& p.spec_kind() is FourOfAKind
    &&& p.spec_cards().len() == 5
    &&& exists|r: int| 0 <= r < 13 && is_subseq(p.spec_cards().take(4), rank_filter(hand, r))
    &&& hand.contains(p.spec_cards()[4])
    &&& !p.spec_cards().take(4).contains(p.spec_cards()[4])
    &&& p.spec_ranking() == Some(p.spec_cards()[3])
}

/// A full house as the finder builds it: three cards of one rank block
/// followed by two of another, sharing no card; the last of the three is
/// the ranking card.
pub open spec fn house_entry(hand: Seq<Card>, p: Play) -> bool {
    &&& p.spec_kind() is FullHouse
    &&& p.spec_cards().len() == 5
    &&& exists|r1: int, r2: int|
        0 <= r1 < 13 && 0 <= r2 < 13 && is_subseq(p.spec_cards().take(3), rank_filter(hand, r1))
            && is_subseq(p.spec_cards().skip(3), rank_filter(hand, r2))
    &&& cards_disjoint(p.spec_cards().take(3), p.spec_cards().skip(3))
    &&& p.spec_ranking() == Some(p.spec_cards()[2])
}

/// The position of a category in the enumeration's fixed concatenation
/// order: singles, pairs, strait flushes, fours of a kind, full houses,
/// flushes, straits.
pub open spec fn category_rank(k: PlayKind) -> int {
    match k {
        PlayKind::Single => 0,
        PlayKind::Pair => 1,
        PlayKind::StraitFlush => 2,
        PlayKind::FourOfAKind => 3,
        PlayKind::FullHouse => 4,
        PlayKind::Flush => 5,
        PlayKind::Strait => 6,
        PlayKind::Pass => 7,
    }
}

/// The plays appear grouped by category, in the enumeration order.
pub open spec fn cats_ordered(plays: Seq<Play>) -> bool {
    forall|k1: int, k2: int|
        0 <= k1 < k2 < plays.len() ==> category_rank((#[trigger] plays[k1]).spec_kind())
            <= category_rank((#[trigger] plays[k2]).spec_kind())
}

/// No two plays agree in both category and cards.
pub open spec fn plays_distinct(plays: Seq<Play>) -> bool {
    forall|k1: int, k2: int|
        0 <= k1 < k2 < plays.len() ==> (#[trigger] plays[k1]).spec_kind()
            != (#[trigger] plays[k2]).spec_kind() || plays[k1].spec_cards()
            != plays[k2].spec_cards()
}

/// All plays sit in categories up to the given one.
pub open spec fn cats_at_most(plays: Seq<Play>, kb: PlayKind) -> bool {
    forall|k: int|
        0 <= k < plays.len() ==> category_rank((#[trigger] plays[k]).spec_kind())
            <= category_rank(kb)
}

/// Appending a block of one later category keeps the grouping ordered.
pub proof fn lemma_append_category_order(a: Seq<Play>, b: Seq<Play>, kb: PlayKind)
    requires
        cats_ordered(a),
        forall|k: int|
            0 <= k < a.len() ==> category_rank((#[trigger] a[k]).spec_kind()) <= category_rank(kb),
        forall|j: int| 0 <= j < b.len() ==> (#[trigger] b[j]).spec_kind() == kb,
    ensures
        cats_ordered(a + b),
        cats_at_most(a + b, kb),
{
    assert forall|k1: int, k2: int|
        0 <= k1 < k2 < (a + b).len() implies category_rank((#[trigger] (a + b)[k1]).spec_kind())
        <= category_rank((#[trigger] (a + b)[k2]).spec_kind()) by {
        if k1 < a.len() {
            assert((a + b)[k1] == a[k1]);
        } else {
            assert((a + b)[k1] == b[k1 - a.len()]);
        }
        if k2 < a.len() {
            assert((a + b)[k2] == a[k2]);
        } else {
            assert((a + b)[k2] == b[k2 - a.len()]);
        }
    }
    assert forall|k: int| 0 <= k < (a + b).len() implies category_rank(
        (#[trigger] (a + b)[k]).spec_kind(),
    ) <= category_rank(kb) by {
        if k < a.len() {
            assert((a + b)[k] == a[k]);
        } else {
            assert((a + b)[k] == b[k - a.len()]);
        }
    }
}

/// Appending a block of a strictly later category, itself free of
/// repeated card sets, keeps the whole free of repeated readings.
pub proof fn lemma_append_category_distinct(a: Seq<Play>, b: Seq<Play>, kb: PlayKind)
    requires
        plays_distinct(a),
        forall|k: int|
            0 <= k < a.len() ==> category_rank((#[trigger] a[k]).spec_kind()) < category_rank(kb),
        forall|j: int| 0 <= j < b.len() ==> (#[trigger] b[j]).spec_kind() == kb,
        forall|j1: int, j2: int|
            0 <= j1 < j2 < b.len() ==> (#[trigger] b[j1]).spec_cards()
                != (#[trigger] b[j2]).spec_cards(),
    ensures
        plays_distinct(a + b),
{
    assert forall|k1: int, k2: int|
        0 <= k1 < k2 < (a + b).len() implies (#[trigger] (a + b)[k1]).spec_kind()
        != (#[trigger] (a + b)[k2]).spec_kind() || (a + b)[k1].spec_cards()
        != (a + b)[k2].spec_cards() by {
        if k1 < a.len() {
            assert((a + b)[k1] == a[k1]);
        } else {
            assert((a + b)[k1] == b[k1 - a.len()]);
        }
        if k2 < a.len() {
            assert((a + b)[k2] == a[k2]);
        } else {
            assert((a + b)[k2] == b[k2 - a.len()]);
        }
    }
}

/// A play is one of the seven entries the finder can hand out.
pub open spec fn any_entry(hand: Seq<Card>, p: Play) -> bool {
    ||| single_entry(hand, p)
    ||| pair_entry(hand, p)
    ||| strait_entry(hand, p)
    ||| flush_entry(hand, p)
    ||| house_entry(hand, p)
    ||| four_entry(hand, p)
    ||| strait_flush_entry(hand, p)
}

/// A card of a filtered sequence is a card of the source satisfying the
/// predicate.
pub proof fn lemma_in_filter(s: Seq<Card>, pred: spec_fn(Card) -> bool, c: Card)
    requires
        s.filter(pred).contains(c),
    ensures
        s.contains(c),
        pred(c),
{
    s.lemma_filter_contains_rev(pred, c);
    let f = s.filter(pred);
    let w = choose|w: int| 0 <= w < f.len() && f[w] == c;
    s.lemma_filter_pred(pred, w);
}

/// Every entry the finder hands out is a well-formed play of its kind
/// whose cards all come from the hand; over a duplicate-free hand its
/// cards are also pairwise distinct.
pub proof fn lemma_entry_found(hand: Seq<Card>, p: Play)
    requires
        any_entry(hand, p),
    ensures
        found_play(hand, p),
        hand.no_duplicates() ==> p.spec_cards().no_duplicates(),
{
    broadcast use vstd::seq_lib::group_filter_ensures;

    let cs = p.spec_cards();
    if single_entry(hand, p) {
        assert(cs.contains(cs[0]));
    } else if pair_entry(hand, p) {
        let r = choose|r: int| 0 <= r < 13 && is_subseq(cs, rank_filter(hand, r));
        let f = rank_filter(hand, r);
        lemma_filter_subseq(hand, rank_pred(r));
        lemma_subseq_membership(cs, f);
        lemma_subseq_structure(f, hand);
        lemma_subseq_structure(cs, f);
        assert(f.contains(cs[0]) && f.contains(cs[1]));
        lemma_in_filter(hand, rank_pred(r), cs[0]);
        lemma_in_filter(hand, rank_pred(r), cs[1]);
        assert(cs[0].rank == cs[1].rank) by {
            crate::card::lemma_rank_index_injective(cs[0].rank, cs[1].rank);
        }
        assert(cs.contains(cs[1]));
        assert(cards_from(cs, hand)) by {
            assert forall|i: int| 0 <= i < cs.len() implies hand.contains(#[trigger] cs[i]) by {
                assert(i == 0 || i == 1);
            }
        }
    } else if strait_entry(hand, p) || strait_flush_entry(hand, p) {
        let s = choose|s: int| 0 <= s < 13 && window_cards(hand, cs, s);
        lemma_window_found(hand, cs, s);
        lemma_max_card_props(cs);
    } else if flush_entry(hand, p) {
        let t = choose|t: int| 0 <= t < 4 && is_subseq(cs, suit_filter(hand, t));
        let f = suit_filter(hand, t);
        lemma_filter_subseq(hand, suit_pred(t));
        lemma_subseq_membership(cs, f);
        lemma_subseq_structure(f, hand);
        lemma_subseq_structure(cs, f);
        assert forall|i: int, j: int|
            0 <= i < cs.len() && 0 <= j < cs.len() implies cs[i].suit == cs[j].suit by {
            assert(f.contains(cs[i]) && f.contains(cs[j]));
            lemma_in_filter(hand, suit_pred(t), cs[i]);
            lemma_in_filter(hand, suit_pred(t), cs[j]);
            crate::card::lemma_suit_index_injective(cs[i].suit, cs[j].suit);
        }
        lemma_max_card_props(cs);
        assert(cards_from(cs, hand)) by {
            assert forall|i: int| 0 <= i < cs.len() implies hand.contains(#[trigger] cs[i]) by {
                assert(f.contains(cs[i]));
                lemma_in_filter(hand, suit_pred(t), cs[i]);
            }
        }
    } else if four_entry(hand, p) {
        let r = choose|r: int| 0 <= r < 13 && is_subseq(cs.take(4), rank_filter(hand, r));
        let f = rank_filter(hand, r);
        let quad = cs.take(4);
        lemma_filter_subseq(hand, rank_pred(r));
        lemma_subseq_membership(quad, f);
        lemma_subseq_structure(f, hand);
        lemma_subseq_structure(quad, f);
        assert forall|i: int| 0 <= i < 4 implies f.contains(#[trigger] cs[i]) by {
            assert(quad[i] == cs[i]);
        }
        assert forall|i: int, j: int| 0 <= i < 4 && 0 <= j < 4 implies cs[i].rank == cs[j].rank by {
            lemma_in_filter(hand, rank_pred(r), cs[i]);
            lemma_in_filter(hand, rank_pred(r), cs[j]);
            crate::card::lemma_rank_index_injective(cs[i].rank, cs[j].rank);
        }
        assert forall|i: int| 0 <= i < cs.len() implies hand.contains(#[trigger] cs[i]) by {
            if i < 4 {
                assert(f.contains(cs[i]));
                lemma_in_filter(hand, rank_pred(r), cs[i]);
            }
        }
        assert forall|i: int| 0 <= i < 4 implies cs[4] != #[trigger] cs[i] by {
            assert(quad[i] == cs[i]);
            if cs[4] == cs[i] {
                assert(quad.contains(cs[4]));
            }
        }
        assert(cs.contains(cs[3]));
        if hand.no_duplicates() {
            assert forall|i: int, j: int| 0 <= i < j < cs.len() implies cs[i] != cs[j] by {
                if j < 4 {
                    assert(quad[i] == cs[i] && quad[j] == cs[j]);
                } else {
                    assert(quad[i] == cs[i]);
                    if cs[i] == cs[4] {
                        assert(quad.contains(cs[4]));
                    }
                }
            }
        }
    } else {
        // full house
        let (r1, r2) = choose|r1: int, r2: int|
            0 <= r1 < 13 && 0 <= r2 < 13 && is_subseq(cs.take(3), rank_filter(hand, r1))
                && is_subseq(cs.skip(3), rank_filter(hand, r2));
        let f1 = rank_filter(hand, r1);
        let f2 = rank_filter(hand, r2);
        let triple = cs.take(3);
        let pair = cs.skip(3);
        lemma_filter_subseq(hand, rank_pred(r1));
        lemma_filter_subseq(hand, rank_pred(r2));
        lemma_subseq_membership(triple, f1);
        lemma_subseq_membership(pair, f2);
        lemma_subseq_structure(f1, hand);
        lemma_subseq_structure(f2, hand);
        lemma_subseq_structure(triple, f1);
        lemma_subseq_structure(pair, f2);
        assert forall|i: int| 0 <= i < 3 implies f1.contains(#[trigger] cs[i]) by {
            assert(triple[i] == cs[i]);
        }
        assert forall|i: int| 3 <= i < 5 implies f2.contains(#[trigger] cs[i]) by {
            assert(pair[i - 3] == cs[i]);
        }
        assert forall|i: int, j: int| 0 <= i < 3 && 0 <= j < 3 implies cs[i].rank == cs[j].rank by {
            lemma_in_filter(hand, rank_pred(r1), cs[i]);
            lemma_in_filter(hand, rank_pred(r1), cs[j]);
            crate::card::lemma_rank_index_injective(cs[i].rank, cs[j].rank);
        }
        assert(cs[3].rank == cs[4].rank) by {
            lemma_in_filter(hand, rank_pred(r2), cs[3]);
            lemma_in_filter(hand, rank_pred(r2), cs[4]);
            crate::card::lemma_rank_index_injective(cs[3].rank, cs[4].rank);
        }
        assert forall|i: int| 0 <= i < cs.len() implies hand.contains(#[trigger] cs[i]) by {
            if i < 3 {
                assert(f1.contains(cs[i]));
                lemma_in_filter(hand, rank_pred(r1), cs[i]);
            } else {
                assert(f2.contains(cs[i]));
                lemma_in_filter(hand, rank_pred(r2), cs[i]);
            }
        }
        assert(cs.contains(cs[2]));
        if hand.no_duplicates() {
            assert forall|i: int, j: int| 0 <= i < j < cs.len() implies cs[i] != cs[j] by {
                if j < 3 {
                    assert(triple[i] == cs[i] && triple[j] == cs[j]);
                } else if i >= 3 {
                    assert(pair[i - 3] == cs[i] && pair[j - 3] == cs[j]);
                } else {
                    assert(triple[i] == cs[i] && pair[j - 3] == cs[j]);
                    assert(!pair.contains(cs[i]));
                    if cs[i] == cs[j] {
                        assert(pair.contains(cs[i]));
                    }
                }
            }
        }
    }
}

/// One card in each block of a window makes the five cards a strait over
/// members of the hand.
pub proof fn lemma_window_found(hand: Seq<Card>, cs: Seq<Card>, s: int)
    requires
        0 <= s < 13,
        window_cards(hand, cs, s),
    ensures
        strait_shape(cs),
        cards_from(cs, hand),
        hand.no_duplicates() ==> cs.no_duplicates(),
        covers_window(hand, s),
{
    broadcast use vstd::seq_lib::group_filter_ensures;

    assert forall|i: int| 0 <= i < cs.len() implies hand.contains(#[trigger] cs[i]) by {
        assert(rank_filter(hand, (s + i) % 13).contains(cs[i]));
        lemma_in_filter(hand, rank_pred((s + i) % 13), cs[i]);
    }
    assert forall|j: int| 0 <= j < 5 implies rank_index_spec(#[trigger] cs[j].rank) == (s + j)
        % 13 by {
        assert(rank_filter(hand, (s + j) % 13).contains(cs[j]));
        lemma_in_filter(hand, rank_pred((s + j) % 13), cs[j]);
    }
    assert(covers_window(cs, s)) by {
        assert(rank_index_spec(cs[0].rank) == s % 13);
        assert(rank_index_spec(cs[1].rank) == (s + 1) % 13);
        assert(rank_index_spec(cs[2].rank) == (s + 2) % 13);
        assert(rank_index_spec(cs[3].rank) == (s + 3) % 13);
        assert(rank_index_spec(cs[4].rank) == (s + 4) % 13);
    }
    assert(covers_window(hand, s)) by {
        assert(hand.contains(cs[0]) && hand.contains(cs[1]) && hand.contains(cs[2])
            && hand.contains(cs[3]) && hand.contains(cs[4]));
        let w0 = choose|w: int| 0 <= w < hand.len() && hand[w] == cs[0];
        let w1 = choose|w: int| 0 <= w < hand.len() && hand[w] == cs[1];
        let w2 = choose|w: int| 0 <= w < hand.len() && hand[w] == cs[2];
        let w3 = choose|w: int| 0 <= w < hand.len() && hand[w] == cs[3];
        let w4 = choose|w: int| 0 <= w < hand.len() && hand[w] == cs[4];
        assert(rank_index_spec(hand[w0].rank) == s % 13);
        assert(rank_index_spec(hand[w1].rank) == (s + 1) % 13);
        assert(rank_index_spec(hand[w2].rank) == (s + 2) % 13);
        assert(rank_index_spec(hand[w3].rank) == (s + 3) % 13);
        assert(rank_index_spec(hand[w4].rank) == (s + 4) % 13);
    }
    assert forall|i: int, j: int| 0 <= i < j < cs.len() implies cs[i] != cs[j] by {
        assert((s + i) % 13 != (s + j) % 13);
    }
}


// ---------------------------------------------------------------------------
// The finder itself.
// ---------------------------------------------------------------------------

/// Every rank block of the five-long window starting at `s` holds a card.
pub open spec fn window_nonempty(hand: Seq<Card>, s: int) -> bool {
    &&& rank_filter(hand, s % 13).len() >= 1
    &&& rank_filter(hand, (s + 1) % 13).len() >= 1
    &&& rank_filter(hand, (s + 2) % 13).len() >= 1
    &&& rank_filter(hand, (s + 3) % 13).len() >= 1
    &&& rank_filter(hand, (s + 4) % 13).len() >= 1
}

/// Groups the cards by rank: block `r` holds, in order, exactly the cards
/// whose rank sits at position `r` of the climbing order.
fn rank_blocks_of(cards: &Vec<Card>) -> (blocks: Vec<Vec<Card>>)
    ensures
        blocks@.len() == 13,
        forall|r: int| 0 <= r < 13 ==> (#[trigger] blocks@[r])@ == rank_filter(cards@, r),
{
    let mut blocks: Vec<Vec<Card>> = Vec::new();
    let mut r: usize = 0;
    while r < 13
        invariant
            r <= 13,
            blocks@.len() == r as int,
            forall|q: int| 0 <= q < r ==> (#[trigger] blocks@[q])@ == rank_filter(cards@, q),
        decreases 13 - r,
    {
        let mut block: Vec<Card> = Vec::new();
        let mut i: usize = 0;
        proof {
            assert(cards@.take(0).filter(rank_pred(r as int)) =~= Seq::<Card>::empty()) by {
                reveal(Seq::filter);
            }
        }
        while i < cards.len()
            invariant
                i <= cards@.len(),
                r < 13,
                block@ == rank_filter(cards@.take(i as int), r as int),
            decreases cards@.len() - i,
        {
            proof {
                assert(cards@.take(i as int + 1) =~= cards@.take(i as int).push(cards@[i as int]));
                lemma_filter_push(cards@.take(i as int), rank_pred(r as int), cards@[i as int]);
            }
            if cards[i].rank.index() as usize == r {
                block.push(cards[i]);
            }
            i += 1;
        }
        proof {
            assert(cards@.take(cards@.len() as int) =~= cards@);
        }
        blocks.push(block);
        r += 1;
    }
    blocks
}

/// Enumerates every flush the cards can produce: group by suit, and for
/// each suit holding at least five cards take every five-card choice.
fn flushes_of(cards: &Vec<Card>) -> (out: Vec<Play>)
    ensures
        forall|k: int| 0 <= k < out@.len() ==> flush_entry(cards@, #[trigger] out@[k]),
        forall|t: int|
            0 <= t < 4 && suit_filter(cards@, t).len() >= 5 ==> out@.len() >= 1,
        forall|sub: Seq<Card>, t: int|
            0 <= t < 4 && sub.len() == 5 && is_subseq(sub, suit_filter(cards@, t))
                ==> play_cards_present(out@, sub),
        cards@.no_duplicates() ==> forall|k1: int, k2: int|
            0 <= k1 < k2 < out@.len() ==> (#[trigger] out@[k1]).spec_cards()
                != (#[trigger] out@[k2]).spec_cards(),
{
    let mut out: Vec<Play> = Vec::new();
    let mut t: usize = 0;
    while t < 4
        invariant
            t <= 4,
            forall|k: int| 0 <= k < out@.len() ==> flush_entry(cards@, #[trigger] out@[k]),
            forall|q: int| 0 <= q < t && suit_filter(cards@, q).len() >= 5 ==> out@.len() >= 1,
            forall|sub: Seq<Card>, q: int|
                0 <= q < t && sub.len() == 5 && is_subseq(sub, suit_filter(cards@, q))
                    ==> play_cards_present(out@, sub),
            forall|k: int| 0 <= k < out@.len() ==> flush_suit_before(#[trigger] out@[k], cards@, t as int),
            cards@.no_duplicates() ==> forall|k1: int, k2: int|
                0 <= k1 < k2 < out@.len() ==> (#[trigger] out@[k1]).spec_cards()
                    != (#[trigger] out@[k2]).spec_cards(),
        decreases 4 - t,
    {
        let mut block: Vec<Card> = Vec::new();
        let mut i: usize = 0;
        proof {
            assert(cards@.take(0).filter(suit_pred(t as int)) =~= Seq::<Card>::empty()) by {
                reveal(Seq::filter);
            }
        }
        while i < cards.len()
            invariant
                i <= cards@.len(),
                t < 4,
                block@ == suit_filter(cards@.take(i as int), t as int),
            decreases cards@.len() - i,
        {
            proof {
                assert(cards@.take(i as int + 1) =~= cards@.take(i as int).push(cards@[i as int]));
                lemma_filter_push(cards@.take(i as int), suit_pred(t as int), cards@[i as int]);
            }
            if cards[i].suit.index() as usize == t {
                block.push(cards[i]);
            }
            i += 1;
        }
        proof {
            assert(cards@.take(cards@.len() as int) =~= cards@);
        }
        if block.len() >= 5 {
            let chunks = permute(&block, 5);
            proof {
                if cards@.no_duplicates() {
                    lemma_filter_no_dup(cards@, suit_pred(t as int));
                }
            }
            let ghost pre_len = out@.len();
            let mut k: usize = 0;
            while k < chunks.len()
                invariant
                    t < 4,
                    block@ == suit_filter(cards@, t as int),
                    forall|q: int|
                        0 <= q < chunks@.len() ==> is_subseq(#[trigger] chunks@[q]@, block@)
                            && chunks@[q]@.len() == 5,
                    k <= chunks@.len(),
                    chunks@.len() >= 1,
                    forall|q: int| 0 <= q < out@.len() ==> flush_entry(cards@, #[trigger] out@[q]),
                    k > 0 ==> out@.len() >= 1,
                    forall|sub: Seq<Card>, q: int|
                        0 <= q < t && sub.len() == 5 && is_subseq(sub, suit_filter(cards@, q))
                            ==> play_cards_present(out@, sub),
                    forall|ck: int|
                        0 <= ck < k ==> play_cards_present(out@, (#[trigger] chunks@[ck])@),
                    out@.len() == pre_len + k as int,
                    forall|q: int|
                        0 <= q < pre_len ==> flush_suit_before(#[trigger] out@[q], cards@, t as int),
                    forall|q: int|
                        pre_len <= q < out@.len() ==> (#[trigger] out@[q]).spec_cards()
                            == chunks@[q - pre_len]@,
                    cards@.no_duplicates() ==> forall|k1: int, k2: int|
                        0 <= k1 < k2 < chunks@.len() ==> (#[trigger] chunks@[k1])@
                            != (#[trigger] chunks@[k2])@,
                    cards@.no_duplicates() ==> forall|k1: int, k2: int|
                        0 <= k1 < k2 < pre_len ==> (#[trigger] out@[k1]).spec_cards()
                            != (#[trigger] out@[k2]).spec_cards(),
                decreases chunks@.len() - k,
            {
                let cs = chunks[k].clone();
                proof {
                    assert(cs@ == chunks@[k as int]@);
                }
                let m = max_card(&cs);
                let p = Play::new(PlayKind::Flush, m, cs);
                let ghost prior = out@;
                out.push(p);
                proof {
                    assert(out@ == prior.push(out@[prior.len() as int]));
                    assert(out@[prior.len() as int].spec_cards() == chunks@[k as int]@);
                    assert forall|q: int|
                        pre_len <= q < out@.len() implies (#[trigger] out@[q]).spec_cards()
                        == chunks@[q - pre_len]@ by {
                        if q < prior.len() {
                            assert(out@[q] == prior[q]);
                        }
                    }
                    assert forall|sub: Seq<Card>, q: int|
                        0 <= q < t && sub.len() == 5 && is_subseq(sub, suit_filter(cards@, q))
                            implies play_cards_present(out@, sub) by {
                        lemma_play_present_push(prior, out@[prior.len() as int], sub);
                    }
                    assert forall|ck: int| 0 <= ck < k + 1 implies play_cards_present(
                        out@,
                        (#[trigger] chunks@[ck])@,
                    ) by {
                        if ck < k {
                            lemma_play_present_push(
                                prior,
                                out@[prior.len() as int],
                                chunks@[ck]@,
                            );
                        }
                    }
                }
                k += 1;
            }
            proof {
                assert forall|sub: Seq<Card>, q: int|
                    0 <= q < t + 1 && sub.len() == 5 && is_subseq(sub, suit_filter(cards@, q))
                        implies play_cards_present(out@, sub) by {
                    if q == t {
                        assert(rows_contain(chunks@, sub));
                        let ck = choose|ck: int|
                            0 <= ck < chunks@.len() && (#[trigger] chunks@[ck])@ == sub;
                        assert(play_cards_present(out@, chunks@[ck]@));
                    }
                }
                assert forall|k: int| 0 <= k < out@.len() implies flush_suit_before(
                    #[trigger] out@[k],
                    cards@,
                    t as int + 1,
                ) by {
                    if k < pre_len {
                        lemma_flush_suit_widen(out@[k], cards@, t as int, t as int + 1);
                    } else {
                        assert(out@[k].spec_cards() == chunks@[k - pre_len]@);
                        assert(is_subseq(out@[k].spec_cards(), suit_filter(cards@, t as int)));
                    }
                }
                if cards@.no_duplicates() {
                    assert forall|k1: int, k2: int|
                        0 <= k1 < k2 < out@.len() implies (#[trigger] out@[k1]).spec_cards()
                        != (#[trigger] out@[k2]).spec_cards() by {
                        if k1 < pre_len && k2 >= pre_len {
                            // older plays draw from an earlier suit
                            assert(flush_suit_before(out@[k1], cards@, t as int));
                            let q = choose|q: int|
                                0 <= q < t && is_subseq(
                                    out@[k1].spec_cards(),
                                    suit_filter(cards@, q),
                                );
                            lemma_subseq_membership(out@[k1].spec_cards(), suit_filter(cards@, q));
                            assert(suit_filter(cards@, q).contains(out@[k1].spec_cards()[0]));
                            lemma_in_filter(cards@, suit_pred(q), out@[k1].spec_cards()[0]);
                            assert(out@[k2].spec_cards() == chunks@[k2 - pre_len]@);
                            lemma_subseq_membership(
                                out@[k2].spec_cards(),
                                suit_filter(cards@, t as int),
                            );
                            assert(suit_filter(cards@, t as int).contains(
                                out@[k2].spec_cards()[0],
                            ));
                            lemma_in_filter(cards@, suit_pred(t as int), out@[k2].spec_cards()[0]);
                            assert(out@[k1].spec_cards()[0] != out@[k2].spec_cards()[0]);
                            assert(out@[k1].spec_cards().len() == 5);
                        } else if k1 >= pre_len {
                            assert(out@[k1].spec_cards() == chunks@[k1 - pre_len]@);
                            assert(out@[k2].spec_cards() == chunks@[k2 - pre_len]@);
                        }
                    }
                }
            }
        } else {
            proof {
                assert forall|sub: Seq<Card>, q: int|
                    0 <= q < t + 1 && sub.len() == 5 && is_subseq(sub, suit_filter(cards@, q))
                        implies play_cards_present(out@, sub) by {
                    if q == t {
                        lemma_subseq_len(sub, suit_filter(cards@, q));
                        assert(false);
                    }
                }
                assert forall|k: int| 0 <= k < out@.len() implies flush_suit_before(
                    #[trigger] out@[k],
                    cards@,
                    t as int + 1,
                ) by {
                    lemma_flush_suit_widen(out@[k], cards@, t as int, t as int + 1);
                }
            }
        }
        t += 1;
    }
    out
}

/// `cs` is `n` cards taken in order from one rank block of `hand`.
pub open spec fn n_chunk(hand: Seq<Card>, cs: Seq<Card>, n: int) -> bool {
    exists|r: int| 0 <= r < 13 && is_subseq(cs, rank_filter(hand, r)) && cs.len() == n
}

/// `cs` is `n` cards taken in order from a rank block at a position
/// below `r`.
pub open spec fn chunk_from_earlier(hand: Seq<Card>, cs: Seq<Card>, n: int, r: int) -> bool {
    exists|q: int| 0 <= q < r && is_subseq(cs, rank_filter(hand, q)) && cs.len() == n
}

/// Widening the rank bound keeps the fact.
pub proof fn lemma_chunk_earlier_widen(hand: Seq<Card>, cs: Seq<Card>, n: int, r1: int, r2: int)
    requires
        chunk_from_earlier(hand, cs, n, r1),
        r1 <= r2,
    ensures
        chunk_from_earlier(hand, cs, n, r2),
{
    let q = choose|q: int| 0 <= q < r1 && is_subseq(cs, rank_filter(hand, q)) && cs.len() == n;
    assert(0 <= q < r2 && is_subseq(cs, rank_filter(hand, q)) && cs.len() == n);
}

/// The play's first four cards are one of the first `qk` quads.
pub open spec fn quad_from_earlier(p: Play, quads: Seq<Vec<Card>>, qk: int) -> bool {
    exists|w: int| 0 <= w < qk && p.spec_cards().take(4) == (#[trigger] quads[w])@
}

/// Widening the quad bound keeps the fact.
pub proof fn lemma_quad_earlier_widen(p: Play, quads: Seq<Vec<Card>>, q1: int, q2: int)
    requires
        quad_from_earlier(p, quads, q1),
        q1 <= q2,
    ensures
        quad_from_earlier(p, quads, q2),
{
    let w = choose|w: int| 0 <= w < q1 && p.spec_cards().take(4) == (#[trigger] quads[w])@;
    assert(0 <= w < q2 && p.spec_cards().take(4) == quads[w]@);
}

/// The play's first three cards are one of the first `ti` triples.
pub open spec fn triple_head_from(p: Play, triples: Seq<Vec<Card>>, ti: int) -> bool {
    exists|w: int| 0 <= w < ti && p.spec_cards().take(3) == (#[trigger] triples[w])@
}

/// The play's last two cards are one of the first `pi` pair chunks.
pub open spec fn pair_tail_from(p: Play, chunks: Seq<Vec<Card>>, pi: int) -> bool {
    exists|w: int| 0 <= w < pi && p.spec_cards().skip(3) == (#[trigger] chunks[w])@
}

/// Widening either bound keeps the fact.
pub proof fn lemma_house_parts_widen(p: Play, rows: Seq<Vec<Card>>, b1: int, b2: int)
    requires
        b1 <= b2,
        triple_head_from(p, rows, b1) || pair_tail_from(p, rows, b1),
    ensures
        triple_head_from(p, rows, b1) ==> triple_head_from(p, rows, b2),
        pair_tail_from(p, rows, b1) ==> pair_tail_from(p, rows, b2),
{
    if triple_head_from(p, rows, b1) {
        let w = choose|w: int| 0 <= w < b1 && p.spec_cards().take(3) == (#[trigger] rows[w])@;
        assert(0 <= w < b2 && p.spec_cards().take(3) == rows[w]@);
    }
    if pair_tail_from(p, rows, b1) {
        let w = choose|w: int| 0 <= w < b1 && p.spec_cards().skip(3) == (#[trigger] rows[w])@;
        assert(0 <= w < b2 && p.spec_cards().skip(3) == rows[w]@);
    }
}

/// The play's cards come from a suit block at a position below `t`.
pub open spec fn flush_suit_before(p: Play, hand: Seq<Card>, t: int) -> bool {
    exists|q: int| 0 <= q < t && is_subseq(p.spec_cards(), suit_filter(hand, q))
}

/// Widening the suit bound keeps the fact.
pub proof fn lemma_flush_suit_widen(p: Play, hand: Seq<Card>, t1: int, t2: int)
    requires
        flush_suit_before(p, hand, t1),
        t1 <= t2,
    ensures
        flush_suit_before(p, hand, t2),
{
    let q = choose|q: int| 0 <= q < t1 && is_subseq(p.spec_cards(), suit_filter(hand, q));
    assert(0 <= q < t2 && is_subseq(p.spec_cards(), suit_filter(hand, q)));
}

/// The play's cards are those of one of the first `i` source plays.
pub open spec fn play_source_before(p: Play, source: Seq<Play>, i: int) -> bool {
    exists|w: int| 0 <= w < i && p.spec_cards() == (#[trigger] source[w]).spec_cards()
}

/// Widening the source bound keeps the fact.
pub proof fn lemma_play_source_widen(p: Play, source: Seq<Play>, i1: int, i2: int)
    requires
        play_source_before(p, source, i1),
        i1 <= i2,
    ensures
        play_source_before(p, source, i2),
{
    let w = choose|w: int| 0 <= w < i1 && p.spec_cards() == (#[trigger] source[w]).spec_cards();
    assert(0 <= w < i2 && p.spec_cards() == source[w].spec_cards());
}

/// One of the first `n` chunks is exactly `target`.
pub open spec fn chunk_present_upto(chunks: Seq<Vec<Card>>, target: Seq<Card>, n: int) -> bool {
    exists|k: int| 0 <= k < n && (#[trigger] chunks[k])@ == target
}

/// One of the plays has exactly the cards `target`.
pub open spec fn play_cards_present(plays: Seq<Play>, target: Seq<Card>) -> bool {
    exists|k: int| 0 <= k < plays.len() && (#[trigger] plays[k]).spec_cards() == target
}

/// The combinatorial engine over one collection of cards. It keeps the
/// cards sorted, the cards grouped by rank, and the precomputed flushes
/// (the suit grouping is of no other use).
pub struct Finder {
    pub cards: Vec<Card>,
    pub rank_blocks: Vec<Vec<Card>>,
    pub flushes: Vec<Play>,
}

impl Finder {
    /// The finder's internal consistency: the cards are sorted, block `r`
    /// holds exactly the cards of rank position `r` in order, and the
    /// stored flushes are exactly what the flush enumeration yields.
    pub open spec fn wf(self) -> bool {
        &&& sorted_by_value(self.cards@)
        &&& self.rank_blocks@.len() == 13
        &&& forall|r: int|
            0 <= r < 13 ==> (#[trigger] self.rank_blocks@[r])@ == rank_filter(self.cards@, r)
        &&& forall|k: int|
            0 <= k < self.flushes@.len() ==> flush_entry(self.cards@, #[trigger] self.flushes@[k])
        &&& forall|t: int|
            0 <= t < 4 && suit_filter(self.cards@, t).len() >= 5 ==> self.flushes@.len() >= 1
        &&& forall|sub: Seq<Card>, t: int|
            0 <= t < 4 && sub.len() == 5 && is_subseq(sub, suit_filter(self.cards@, t))
                ==> play_cards_present(self.flushes@, sub)
        &&& (self.cards@.no_duplicates() ==> forall|k1: int, k2: int|
            0 <= k1 < k2 < self.flushes@.len() ==> (#[trigger] self.flushes@[k1]).spec_cards()
                != (#[trigger] self.flushes@[k2]).spec_cards())
    }

    /// Builds the finder over the given cards: sorts them and groups them.
    /// The finder holds exactly the cards it was given.
    pub fn new(cards: Vec<Card>) -> (f: Finder)
        ensures
            f.wf(),
            f.cards@.to_multiset() == cards@.to_multiset(),
            f.cards@.len() == cards@.len(),
    {
        let sorted = sort_cards(cards);
        let rank_blocks = rank_blocks_of(&sorted);
        let flushes = flushes_of(&sorted);
        Finder { cards: sorted, rank_blocks, flushes }
    }

    /// One single per card, each card its own ranking card.
    pub fn singles(&self) -> (out: Vec<Play>)
        ensures
            out@.len() == self.cards@.len(),
            forall|k: int| 0 <= k < out@.len() ==> single_entry(self.cards@, #[trigger] out@[k]),
            forall|k: int|
                0 <= k < out@.len() ==> (#[trigger] out@[k]).spec_cards() == seq![self.cards@[k]],
    {
        let mut out: Vec<Play> = Vec::new();
        let mut i: usize = 0;
        while i < self.cards.len()
            invariant
                i <= self.cards@.len(),
                out@.len() == i as int,
                forall|k: int|
                    0 <= k < out@.len() ==> single_entry(self.cards@, #[trigger] out@[k]),
                forall|k: int|
                    0 <= k < out@.len() ==> (#[trigger] out@[k]).spec_cards() == seq![
                        self.cards@[k],
                    ],
            decreases self.cards@.len() - i,
        {
            let c = self.cards[i];
            let mut cs: Vec<Card> = Vec::new();
            cs.push(c);
            proof {
                assert(cs@ =~= seq![self.cards@[i as int]]);
                assert(self.cards@.contains(self.cards@[i as int]));
            }
            out.push(Play::new(PlayKind::Single, c, cs));
            i += 1;
        }
        out
    }

    /// Every way to take `n` cards of one rank, for each rank block large
    /// enough; a block of exactly `n` cards contributes itself whole.
    pub fn n_of_a_kinds(&self, n: usize) -> (out: Vec<Vec<Card>>)
        requires
            self.wf(),
            1 <= n,
        ensures
            forall|k: int|
                0 <= k < out@.len() ==> n_chunk(self.cards@, (#[trigger] out@[k])@, n as int),
            forall|r: int|
                0 <= r < 13 && rank_filter(self.cards@, r).len() == n as int
                    ==> chunk_present_upto(out@, rank_filter(self.cards@, r), out@.len() as int),
            forall|sub: Seq<Card>, r: int|
                0 <= r < 13 && sub.len() == n as int && is_subseq(
                    sub,
                    rank_filter(self.cards@, r),
                ) ==> rows_contain(out@, sub),
            self.cards@.no_duplicates() ==> forall|k1: int, k2: int|
                0 <= k1 < k2 < out@.len() ==> (#[trigger] out@[k1])@ != (#[trigger] out@[k2])@,
    {
        let mut out: Vec<Vec<Card>> = Vec::new();
        let mut r: usize = 0;
        while r < 13
            invariant
                self.wf(),
                1 <= n,
                r <= 13,
                forall|k: int|
                    0 <= k < out@.len() ==> n_chunk(self.cards@, (#[trigger] out@[k])@, n as int),
                forall|q: int|
                    0 <= q < r && rank_filter(self.cards@, q).len() == n as int
                        ==> chunk_present_upto(out@, rank_filter(self.cards@, q), out@.len() as int),
                forall|sub: Seq<Card>, q: int|
                    0 <= q < r && sub.len() == n as int && is_subseq(
                        sub,
                        rank_filter(self.cards@, q),
                    ) ==> rows_contain(out@, sub),
                forall|k: int|
                    0 <= k < out@.len() ==> chunk_from_earlier(
                        self.cards@,
                        (#[trigger] out@[k])@,
                        n as int,
                        r as int,
                    ),
                self.cards@.no_duplicates() ==> forall|k1: int, k2: int|
                    0 <= k1 < k2 < out@.len() ==> (#[trigger] out@[k1])@ != (#[trigger] out@[k2])@,
            decreases 13 - r,
        {
            let ghost prior = out@;
            let block = &self.rank_blocks[r];
            if block.len() >= n {
                let mut chunk = permute(block, n);
                let ghost chunk_view = chunk@;
                out.append(&mut chunk);
                proof {
                    assert(out@ == prior + chunk_view);
                    assert forall|k: int| 0 <= k < out@.len() implies n_chunk(
                        self.cards@,
                        (#[trigger] out@[k])@,
                        n as int,
                    ) by {
                        if k < prior.len() {
                            assert(out@[k] == prior[k]);
                        } else {
                            assert(out@[k] == chunk_view[k - prior.len()]);
                            assert(is_subseq(out@[k]@, rank_filter(self.cards@, r as int)));
                        }
                    }
                    assert forall|sub: Seq<Card>, q: int|
                        0 <= q < r + 1 && sub.len() == n as int && is_subseq(
                            sub,
                            rank_filter(self.cards@, q),
                        ) implies rows_contain(out@, sub) by {
                        if q < r {
                            lemma_rows_contain_cat(prior, chunk_view, sub);
                        } else {
                            assert(rows_contain(chunk_view, sub));
                            lemma_rows_contain_cat(prior, chunk_view, sub);
                        }
                    }
                    assert forall|q: int|
                        0 <= q < r + 1 && rank_filter(self.cards@, q).len() == n as int implies chunk_present_upto(
                        out@,
                        rank_filter(self.cards@, q),
                        out@.len() as int,
                    ) by {
                        if q < r {
                            let w = choose|w: int|
                                0 <= w < prior.len() && (#[trigger] prior[w])@ == rank_filter(
                                    self.cards@,
                                    q,
                                );
                            assert(out@[w] == prior[w]);
                        } else {
                            assert(chunk_view[0]@ == rank_filter(self.cards@, r as int));
                            assert(out@[prior.len() as int] == chunk_view[0]);
                        }
                    }
                    assert forall|k: int| 0 <= k < out@.len() implies chunk_from_earlier(
                        self.cards@,
                        (#[trigger] out@[k])@,
                        n as int,
                        r as int + 1,
                    ) by {
                        if k < prior.len() {
                            assert(out@[k] == prior[k]);
                            lemma_chunk_earlier_widen(
                                self.cards@,
                                prior[k]@,
                                n as int,
                                r as int,
                                r as int + 1,
                            );
                        } else {
                            assert(out@[k] == chunk_view[k - prior.len()]);
                            assert(is_subseq(out@[k]@, rank_filter(self.cards@, r as int)));
                        }
                    }
                    if self.cards@.no_duplicates() {
                        lemma_filter_no_dup(self.cards@, rank_pred(r as int));
                        assert forall|k1: int, k2: int|
                            0 <= k1 < k2 < out@.len() implies (#[trigger] out@[k1])@
                            != (#[trigger] out@[k2])@ by {
                            if k1 < prior.len() && k2 >= prior.len() {
                                // rows from earlier blocks start with an earlier rank
                                assert(out@[k1] == prior[k1]);
                                assert(chunk_from_earlier(
                                    self.cards@,
                                    prior[k1]@,
                                    n as int,
                                    r as int,
                                ));
                                let q = choose|q: int|
                                    0 <= q < r && is_subseq(
                                        prior[k1]@,
                                        rank_filter(self.cards@, q),
                                    ) && prior[k1]@.len() == n as int;
                                lemma_subseq_membership(prior[k1]@, rank_filter(self.cards@, q));
                                assert(rank_filter(self.cards@, q).contains(prior[k1]@[0]));
                                lemma_in_filter(self.cards@, rank_pred(q), prior[k1]@[0]);
                                assert(out@[k2] == chunk_view[k2 - prior.len()]);
                                lemma_subseq_membership(
                                    chunk_view[k2 - prior.len()]@,
                                    rank_filter(self.cards@, r as int),
                                );
                                assert(rank_filter(self.cards@, r as int).contains(
                                    chunk_view[k2 - prior.len()]@[0],
                                ));
                                lemma_in_filter(
                                    self.cards@,
                                    rank_pred(r as int),
                                    chunk_view[k2 - prior.len()]@[0],
                                );
                                assert(out@[k1]@[0] != out@[k2]@[0]);
                            } else if k1 >= prior.len() {
                                assert(out@[k1] == chunk_view[k1 - prior.len()]);
                                assert(out@[k2] == chunk_view[k2 - prior.len()]);
                            } else {
                                assert(out@[k1] == prior[k1] && out@[k2] == prior[k2]);
                            }
                        }
                    }
                }
            } else {
                proof {
                    assert forall|q: int|
                        0 <= q < r + 1 && rank_filter(self.cards@, q).len() == n as int implies chunk_present_upto(
                        out@,
                        rank_filter(self.cards@, q),
                        out@.len() as int,
                    ) by {
                        if q < r {
                            let w = choose|w: int|
                                0 <= w < prior.len() && (#[trigger] prior[w])@ == rank_filter(
                                    self.cards@,
                                    q,
                                );
                        } else {
                            assert(false);
                        }
                    }
                    assert forall|sub: Seq<Card>, q: int|
                        0 <= q < r + 1 && sub.len() == n as int && is_subseq(
                            sub,
                            rank_filter(self.cards@, q),
                        ) implies rows_contain(out@, sub) by {
                        if q == r {
                            lemma_subseq_len(sub, rank_filter(self.cards@, q));
                            assert(false);
                        }
                    }
                    assert forall|k: int| 0 <= k < out@.len() implies chunk_from_earlier(
                        self.cards@,
                        (#[trigger] out@[k])@,
                        n as int,
                        r as int + 1,
                    ) by {
                        lemma_chunk_earlier_widen(
                            self.cards@,
                            out@[k]@,
                            n as int,
                            r as int,
                            r as int + 1,
                        );
                    }
                }
            }
            r += 1;
        }
        out
    }

    /// Every pair: two cards of one rank, the higher the ranking card.
    pub fn pairs(&self) -> (out: Vec<Play>)
        requires
            self.wf(),
        ensures
            forall|k: int| 0 <= k < out@.len() ==> pair_entry(self.cards@, #[trigger] out@[k]),
            forall|r: int|
                0 <= r < 13 && rank_filter(self.cards@, r).len() == 2 ==> play_cards_present(
                    out@,
                    rank_filter(self.cards@, r),
                ),
            forall|sub: Seq<Card>, r: int|
                0 <= r < 13 && sub.len() == 2 && is_subseq(sub, rank_filter(self.cards@, r))
                    ==> play_cards_present(out@, sub),
            self.cards@.no_duplicates() ==> forall|k1: int, k2: int|
                0 <= k1 < k2 < out@.len() ==> (#[trigger] out@[k1]).spec_cards()
                    != (#[trigger] out@[k2]).spec_cards(),
    {
        let chunks = self.n_of_a_kinds(2);
        let mut out: Vec<Play> = Vec::new();
        let mut k: usize = 0;
        while k < chunks.len()
            invariant
                self.wf(),
                k <= chunks@.len(),
                out@.len() == k as int,
                forall|q: int|
                    0 <= q < chunks@.len() ==> n_chunk(self.cards@, (#[trigger] chunks@[q])@, 2),
                forall|q: int| 0 <= q < out@.len() ==> pair_entry(self.cards@, #[trigger] out@[q]),
                forall|q: int|
                    0 <= q < out@.len() ==> (#[trigger] out@[q]).spec_cards() == chunks@[q]@,
            decreases chunks@.len() - k,
        {
            let cs = chunks[k].clone();
            proof {
                assert(cs@ == chunks@[k as int]@);
            }
            let ranking = cs[1];
            let p = Play::new(PlayKind::Pair, ranking, cs);
            proof {
                assert(pair_entry(self.cards@, p)) by {
                    let r = choose|r: int|
                        0 <= r < 13 && is_subseq(chunks@[k as int]@, rank_filter(self.cards@, r))
                            && chunks@[k as int]@.len() == 2;
                    assert(is_subseq(p.spec_cards(), rank_filter(self.cards@, r)));
                }
            }
            out.push(p);
            k += 1;
        }
        proof {
            assert forall|r: int|
                0 <= r < 13 && rank_filter(self.cards@, r).len() == 2 implies play_cards_present(
                out@,
                rank_filter(self.cards@, r),
            ) by {
                assert(chunk_present_upto(chunks@, rank_filter(self.cards@, r), chunks@.len() as int));
                let w = choose|w: int|
                    0 <= w < chunks@.len() && (#[trigger] chunks@[w])@ == rank_filter(
                        self.cards@,
                        r,
                    );
                assert(out@[w].spec_cards() == rank_filter(self.cards@, r));
            }
            assert forall|sub: Seq<Card>, r: int|
                0 <= r < 13 && sub.len() == 2 && is_subseq(sub, rank_filter(self.cards@, r))
                    implies play_cards_present(out@, sub) by {
                assert(rows_contain(chunks@, sub));
                let w = choose|w: int| 0 <= w < chunks@.len() && (#[trigger] chunks@[w])@ == sub;
                assert(out@[w].spec_cards() == sub);
            }
            if self.cards@.no_duplicates() {
                assert forall|k1: int, k2: int|
                    0 <= k1 < k2 < out@.len() implies (#[trigger] out@[k1]).spec_cards()
                    != (#[trigger] out@[k2]).spec_cards() by {
                    assert(out@[k1].spec_cards() == chunks@[k1]@);
                    assert(out@[k2].spec_cards() == chunks@[k2]@);
                }
            }
        }
        out
    }

    /// Every four of a kind: four cards of one rank plus every possible
    /// fifth card not among them; the top of the four is the ranking card.
    pub fn four_of_a_kinds(&self) -> (out: Vec<Play>)
        requires
            self.wf(),
        ensures
            forall|k: int| 0 <= k < out@.len() ==> four_entry(self.cards@, #[trigger] out@[k]),
            forall|r: int|
                0 <= r < 13 && rank_filter(self.cards@, r).len() == 4 && (exists|j: int|
                    0 <= j < self.cards@.len() && !rank_filter(self.cards@, r).contains(
                        #[trigger] self.cards@[j],
                    )) ==> out@.len() >= 1,
            forall|sub: Seq<Card>, c: Card, r: int|
                0 <= r < 13 && sub.len() == 4 && is_subseq(sub, rank_filter(self.cards@, r))
                    && self.cards@.contains(c) && !sub.contains(c) ==> play_cards_present(
                    out@,
                    sub.push(c),
                ),
            self.cards@.no_duplicates() ==> forall|k1: int, k2: int|
                0 <= k1 < k2 < out@.len() ==> (#[trigger] out@[k1]).spec_cards()
                    != (#[trigger] out@[k2]).spec_cards(),
    {
        let quads = self.n_of_a_kinds(4);
        let mut out: Vec<Play> = Vec::new();
        let mut qk: usize = 0;
        while qk < quads.len()
            invariant
                self.wf(),
                qk <= quads@.len(),
                forall|q: int|
                    0 <= q < quads@.len() ==> n_chunk(self.cards@, (#[trigger] quads@[q])@, 4),
                forall|r: int|
                    0 <= r < 13 && rank_filter(self.cards@, r).len() == 4 ==> chunk_present_upto(
                        quads@,
                        rank_filter(self.cards@, r),
                        quads@.len() as int,
                    ),
                forall|q: int| 0 <= q < out@.len() ==> four_entry(self.cards@, #[trigger] out@[q]),
                forall|r: int|
                    0 <= r < 13 && rank_filter(self.cards@, r).len() == 4 && (exists|j: int|
                        0 <= j < self.cards@.len() && !rank_filter(self.cards@, r).contains(
                            #[trigger] self.cards@[j],
                        )) && chunk_present_upto(quads@, rank_filter(self.cards@, r), qk as int)
                        ==> out@.len() >= 1,
                forall|sub: Seq<Card>, r: int|
                    0 <= r < 13 && sub.len() == 4 && is_subseq(sub, rank_filter(self.cards@, r))
                        ==> rows_contain(quads@, sub),
                forall|sub: Seq<Card>, c: Card|
                    (exists|w: int| 0 <= w < qk && (#[trigger] quads@[w])@ == sub)
                        && self.cards@.contains(c) && !sub.contains(c) ==> play_cards_present(
                        out@,
                        sub.push(c),
                    ),
                self.cards@.no_duplicates() ==> forall|w1: int, w2: int|
                    0 <= w1 < w2 < quads@.len() ==> (#[trigger] quads@[w1])@
                        != (#[trigger] quads@[w2])@,
                forall|k: int|
                    0 <= k < out@.len() ==> quad_from_earlier(#[trigger] out@[k], quads@, qk as int),
                self.cards@.no_duplicates() ==> forall|k1: int, k2: int|
                    0 <= k1 < k2 < out@.len() ==> (#[trigger] out@[k1]).spec_cards()
                        != (#[trigger] out@[k2]).spec_cards(),
            decreases quads@.len() - qk,
        {
            let quad = &quads[qk];
            let ghost pre_len = out@.len();
            let mut ci: usize = 0;
            while ci < self.cards.len()
                invariant
                    self.wf(),
                    qk < quads@.len(),
                    ci <= self.cards@.len(),
                    n_chunk(self.cards@, quads@[qk as int]@, 4),
                    quad@ == quads@[qk as int]@,
                    out@.len() >= pre_len,
                    forall|q: int|
                        0 <= q < out@.len() ==> four_entry(self.cards@, #[trigger] out@[q]),
                    (exists|j: int|
                        0 <= j < ci && !quads@[qk as int]@.contains(#[trigger] self.cards@[j]))
                        ==> out@.len() >= 1,
                    forall|sub: Seq<Card>, c: Card|
                        (exists|w: int| 0 <= w < qk && (#[trigger] quads@[w])@ == sub)
                            && self.cards@.contains(c) && !sub.contains(c) ==> play_cards_present(
                            out@,
                            sub.push(c),
                        ),
                    forall|c: Card|
                        (exists|ji: int| 0 <= ji < ci && self.cards@[ji] == c)
                            && !quads@[qk as int]@.contains(c) ==> play_cards_present(
                            out@,
                            quads@[qk as int]@.push(c),
                        ),
                    self.cards@.no_duplicates() ==> forall|w1: int, w2: int|
                        0 <= w1 < w2 < quads@.len() ==> (#[trigger] quads@[w1])@
                            != (#[trigger] quads@[w2])@,
                    forall|k: int|
                        0 <= k < pre_len ==> quad_from_earlier(
                            #[trigger] out@[k],
                            quads@,
                            qk as int,
                        ),
                    forall|k: int|
                        pre_len <= k < out@.len() ==> (#[trigger] out@[k]).spec_cards().take(4)
                            == quads@[qk as int]@ && out@[k].spec_cards().len() == 5
                            && self.cards@.take(ci as int).contains(out@[k].spec_cards()[4]),
                    self.cards@.no_duplicates() ==> forall|k1: int, k2: int|
                        0 <= k1 < k2 < out@.len() ==> (#[trigger] out@[k1]).spec_cards()
                            != (#[trigger] out@[k2]).spec_cards(),
                decreases self.cards@.len() - ci,
            {
                let c = self.cards[ci];
                if !contains_card(quad, c) {
                    let mut collection = quad.clone();
                    proof {
                        assert(collection@ == quads@[qk as int]@);
                    }
                    let ranking = collection[3];
                    collection.push(c);
                    let p = Play::new(PlayKind::FourOfAKind, ranking, collection);
                    proof {
                        assert(p.spec_cards().take(4) =~= quads@[qk as int]@);
                        assert(p.spec_cards()[4] == c);
                        assert(self.cards@[ci as int] == c);
                        assert(self.cards@.contains(c));
                        assert(four_entry(self.cards@, p)) by {
                            let r = choose|r: int|
                                0 <= r < 13 && is_subseq(
                                    quads@[qk as int]@,
                                    rank_filter(self.cards@, r),
                                ) && quads@[qk as int]@.len() == 4;
                            assert(is_subseq(p.spec_cards().take(4), rank_filter(self.cards@, r)));
                        }
                    }
                    let ghost prior = out@;
                    out.push(p);
                    proof {
                        assert(out@ == prior.push(out@[prior.len() as int]));
                        assert(out@[prior.len() as int].spec_cards() == quads@[qk as int]@.push(
                            c,
                        ));
                        assert forall|sub: Seq<Card>, cc: Card|
                            (exists|w: int| 0 <= w < qk && (#[trigger] quads@[w])@ == sub)
                                && self.cards@.contains(cc) && !sub.contains(cc) implies play_cards_present(
                            out@,
                            sub.push(cc),
                        ) by {
                            lemma_play_present_push(prior, out@[prior.len() as int], sub.push(cc));
                        }
                        assert forall|cc: Card|
                            (exists|ji: int| 0 <= ji < ci + 1 && self.cards@[ji] == cc)
                                && !quads@[qk as int]@.contains(cc) implies play_cards_present(
                            out@,
                            quads@[qk as int]@.push(cc),
                        ) by {
                            if cc == c {
                                assert(out@[prior.len() as int].spec_cards() == quads@[qk as int]@.push(cc));
                            } else {
                                let ji = choose|ji: int|
                                    0 <= ji < ci + 1 && self.cards@[ji] == cc;
                                assert(ji < ci);
                                lemma_play_present_push(
                                    prior,
                                    out@[prior.len() as int],
                                    quads@[qk as int]@.push(cc),
                                );
                            }
                        }
                        let new_cards = out@[prior.len() as int].spec_cards();
                        assert(new_cards.take(4) =~= quads@[qk as int]@);
                        assert(new_cards[4] == c);
                        assert(self.cards@.take(ci as int + 1).contains(c)) by {
                            assert(self.cards@.take(ci as int + 1)[ci as int] == c);
                        }
                        assert forall|k: int|
                            pre_len <= k < out@.len() implies (#[trigger] out@[k]).spec_cards().take(
                            4,
                        ) == quads@[qk as int]@ && out@[k].spec_cards().len() == 5
                            && self.cards@.take(ci as int + 1).contains(out@[k].spec_cards()[4]) by {
                            if k < prior.len() {
                                assert(out@[k] == prior[k]);
                                let kick = prior[k].spec_cards()[4];
                                assert(self.cards@.take(ci as int).contains(kick));
                                let w = choose|w: int|
                                    0 <= w < ci && self.cards@.take(ci as int)[w] == kick;
                                assert(self.cards@.take(ci as int + 1)[w] == kick);
                            }
                        }
                        if self.cards@.no_duplicates() {
                            assert forall|k1: int, k2: int|
                                0 <= k1 < k2 < out@.len() implies (#[trigger] out@[k1]).spec_cards()
                                != (#[trigger] out@[k2]).spec_cards() by {
                                if k2 == prior.len() {
                                    if k1 < pre_len {
                                        // an earlier quad heads the older play
                                        assert(quad_from_earlier(prior[k1], quads@, qk as int));
                                        let w = choose|w: int|
                                            0 <= w < qk && prior[k1].spec_cards().take(4)
                                                == (#[trigger] quads@[w])@;
                                        if out@[k1].spec_cards() == new_cards {
                                            assert(prior[k1].spec_cards().take(4)
                                                =~= new_cards.take(4));
                                        }
                                    } else {
                                        // same quad, and this kicker is new
                                        let kick = prior[k1].spec_cards()[4];
                                        assert(self.cards@.take(ci as int).contains(kick));
                                        let w = choose|w: int|
                                            0 <= w < ci && self.cards@.take(ci as int)[w] == kick;
                                        if out@[k1].spec_cards() == new_cards {
                                            assert(kick == c);
                                            assert(self.cards@[w] == self.cards@[ci as int]);
                                        }
                                    }
                                } else {
                                    assert(out@[k1] == prior[k1] && out@[k2] == prior[k2]);
                                }
                            }
                        }
                    }
                } else {
                    proof {
                        assert(quads@[qk as int]@.contains(self.cards@[ci as int]));
                    }
                }
                ci += 1;
            }
            qk += 1;
            proof {
                assert forall|k: int| 0 <= k < out@.len() implies quad_from_earlier(
                    #[trigger] out@[k],
                    quads@,
                    qk as int,
                ) by {
                    if k < pre_len {
                        lemma_quad_earlier_widen(out@[k], quads@, qk as int - 1, qk as int);
                    } else {
                        assert(out@[k].spec_cards().take(4) == quads@[qk - 1]@);
                    }
                }
                assert forall|sub: Seq<Card>, c: Card|
                    (exists|w: int| 0 <= w < qk && (#[trigger] quads@[w])@ == sub)
                        && self.cards@.contains(c) && !sub.contains(c) implies play_cards_present(
                    out@,
                    sub.push(c),
                ) by {
                    let w = choose|w: int| 0 <= w < qk && (#[trigger] quads@[w])@ == sub;
                    if w == qk - 1 {
                        let ji = choose|ji: int|
                            0 <= ji < self.cards@.len() && self.cards@[ji] == c;
                        assert(play_cards_present(out@, quads@[qk - 1]@.push(c)));
                    }
                }
                assert forall|r: int|
                    0 <= r < 13 && rank_filter(self.cards@, r).len() == 4 && (exists|j: int|
                        0 <= j < self.cards@.len() && !rank_filter(self.cards@, r).contains(
                            #[trigger] self.cards@[j],
                        )) && chunk_present_upto(quads@, rank_filter(self.cards@, r), qk as int)
                        implies out@.len() >= 1 by {
                    let w = choose|w: int|
                        0 <= w < qk && (#[trigger] quads@[w])@ == rank_filter(self.cards@, r);
                    if w < qk - 1 {
                        assert(chunk_present_upto(quads@, rank_filter(self.cards@, r), qk - 1));
                    } else {
                        let j = choose|j: int|
                            0 <= j < self.cards@.len() && !rank_filter(self.cards@, r).contains(
                                #[trigger] self.cards@[j],
                            );
                        assert(!quads@[qk - 1]@.contains(self.cards@[j]));
                    }
                }
            }
        }
        proof {
            assert forall|r: int|
                0 <= r < 13 && rank_filter(self.cards@, r).len() == 4 && (exists|j: int|
                    0 <= j < self.cards@.len() && !rank_filter(self.cards@, r).contains(
                        #[trigger] self.cards@[j],
                    )) implies out@.len() >= 1 by {
                assert(chunk_present_upto(quads@, rank_filter(self.cards@, r), quads@.len() as int));
            }
            assert forall|sub: Seq<Card>, c: Card, r: int|
                0 <= r < 13 && sub.len() == 4 && is_subseq(sub, rank_filter(self.cards@, r))
                    && self.cards@.contains(c) && !sub.contains(c) implies play_cards_present(
                out@,
                sub.push(c),
            ) by {
                assert(rows_contain(quads@, sub));
            }
        }
        out
    }

    /// Every full house: three of one rank with two of another sharing no
    /// card; the top of the three is the ranking card.
    pub fn full_houses(&self) -> (out: Vec<Play>)
        requires
            self.wf(),
        ensures
            forall|k: int| 0 <= k < out@.len() ==> house_entry(self.cards@, #[trigger] out@[k]),
            forall|r1: int, r2: int|
                0 <= r1 < 13 && 0 <= r2 < 13 && r1 != r2 && rank_filter(self.cards@, r1).len() == 3
                    && rank_filter(self.cards@, r2).len() == 2 ==> out@.len() >= 1,
            forall|trip: Seq<Card>, pr: Seq<Card>, r1: int, r2: int|
                0 <= r1 < 13 && 0 <= r2 < 13 && trip.len() == 3 && pr.len() == 2 && is_subseq(
                    trip,
                    rank_filter(self.cards@, r1),
                ) && is_subseq(pr, rank_filter(self.cards@, r2)) && cards_disjoint(trip, pr)
                    ==> play_cards_present(out@, trip + pr),
            self.cards@.no_duplicates() ==> forall|k1: int, k2: int|
                0 <= k1 < k2 < out@.len() ==> (#[trigger] out@[k1]).spec_cards()
                    != (#[trigger] out@[k2]).spec_cards(),
    {
        let triples = self.n_of_a_kinds(3);
        let pair_chunks = self.n_of_a_kinds(2);
        let mut out: Vec<Play> = Vec::new();
        let mut ti: usize = 0;
        while ti < triples.len()
            invariant
                self.wf(),
                ti <= triples@.len(),
                forall|q: int|
                    0 <= q < triples@.len() ==> n_chunk(self.cards@, (#[trigger] triples@[q])@, 3),
                forall|q: int|
                    0 <= q < pair_chunks@.len() ==> n_chunk(
                        self.cards@,
                        (#[trigger] pair_chunks@[q])@,
                        2,
                    ),
                forall|r: int|
                    0 <= r < 13 && rank_filter(self.cards@, r).len() == 3 ==> chunk_present_upto(
                        triples@,
                        rank_filter(self.cards@, r),
                        triples@.len() as int,
                    ),
                forall|r: int|
                    0 <= r < 13 && rank_filter(self.cards@, r).len() == 2 ==> chunk_present_upto(
                        pair_chunks@,
                        rank_filter(self.cards@, r),
                        pair_chunks@.len() as int,
                    ),
                forall|q: int| 0 <= q < out@.len() ==> house_entry(self.cards@, #[trigger] out@[q]),
                forall|r1: int, r2: int|
                    0 <= r1 < 13 && 0 <= r2 < 13 && r1 != r2 && rank_filter(self.cards@, r1).len()
                        == 3 && rank_filter(self.cards@, r2).len() == 2 && chunk_present_upto(
                        triples@,
                        rank_filter(self.cards@, r1),
                        ti as int,
                    ) ==> out@.len() >= 1,
                forall|sub: Seq<Card>, r: int|
                    0 <= r < 13 && sub.len() == 3 && is_subseq(sub, rank_filter(self.cards@, r))
                        ==> rows_contain(triples@, sub),
                forall|sub: Seq<Card>, r: int|
                    0 <= r < 13 && sub.len() == 2 && is_subseq(sub, rank_filter(self.cards@, r))
                        ==> rows_contain(pair_chunks@, sub),
                forall|trip: Seq<Card>, pr: Seq<Card>|
                    (exists|w: int| 0 <= w < ti && (#[trigger] triples@[w])@ == trip)
                        && rows_contain(pair_chunks@, pr) && cards_disjoint(trip, pr)
                        ==> play_cards_present(out@, trip + pr),
                self.cards@.no_duplicates() ==> forall|w1: int, w2: int|
                    0 <= w1 < w2 < triples@.len() ==> (#[trigger] triples@[w1])@
                        != (#[trigger] triples@[w2])@,
                self.cards@.no_duplicates() ==> forall|w1: int, w2: int|
                    0 <= w1 < w2 < pair_chunks@.len() ==> (#[trigger] pair_chunks@[w1])@
                        != (#[trigger] pair_chunks@[w2])@,
                forall|k: int|
                    0 <= k < out@.len() ==> triple_head_from(
                        #[trigger] out@[k],
                        triples@,
                        ti as int,
                    ),
                self.cards@.no_duplicates() ==> forall|k1: int, k2: int|
                    0 <= k1 < k2 < out@.len() ==> (#[trigger] out@[k1]).spec_cards()
                        != (#[trigger] out@[k2]).spec_cards(),
            decreases triples@.len() - ti,
        {
            let triple = &triples[ti];
            let ghost pre_len = out@.len();
            let mut pi: usize = 0;
            while pi < pair_chunks.len()
                invariant
                    self.wf(),
                    ti < triples@.len(),
                    pi <= pair_chunks@.len(),
                    out@.len() >= pre_len,
                    triple@ == triples@[ti as int]@,
                    n_chunk(self.cards@, triples@[ti as int]@, 3),
                    forall|q: int|
                        0 <= q < pair_chunks@.len() ==> n_chunk(
                            self.cards@,
                            (#[trigger] pair_chunks@[q])@,
                            2,
                        ),
                    forall|q: int|
                        0 <= q < out@.len() ==> house_entry(self.cards@, #[trigger] out@[q]),
                    forall|r1: int, r2: int|
                        0 <= r1 < 13 && 0 <= r2 < 13 && r1 != r2 && rank_filter(
                            self.cards@,
                            r1,
                        ).len() == 3 && rank_filter(self.cards@, r2).len() == 2
                            && triples@[ti as int]@ == rank_filter(self.cards@, r1)
                            && chunk_present_upto(pair_chunks@, rank_filter(self.cards@, r2), pi as int)
                            ==> out@.len() >= 1,
                    forall|trip: Seq<Card>, pr: Seq<Card>|
                        (exists|w: int| 0 <= w < ti && (#[trigger] triples@[w])@ == trip)
                            && rows_contain(pair_chunks@, pr) && cards_disjoint(trip, pr)
                            ==> play_cards_present(out@, trip + pr),
                    forall|pr: Seq<Card>|
                        (exists|w: int| 0 <= w < pi && (#[trigger] pair_chunks@[w])@ == pr)
                            && cards_disjoint(triples@[ti as int]@, pr) ==> play_cards_present(
                            out@,
                            triples@[ti as int]@ + pr,
                        ),
                    self.cards@.no_duplicates() ==> forall|w1: int, w2: int|
                        0 <= w1 < w2 < triples@.len() ==> (#[trigger] triples@[w1])@
                            != (#[trigger] triples@[w2])@,
                    self.cards@.no_duplicates() ==> forall|w1: int, w2: int|
                        0 <= w1 < w2 < pair_chunks@.len() ==> (#[trigger] pair_chunks@[w1])@
                            != (#[trigger] pair_chunks@[w2])@,
                    forall|k: int|
                        0 <= k < pre_len ==> triple_head_from(
                            #[trigger] out@[k],
                            triples@,
                            ti as int,
                        ),
                    forall|k: int|
                        pre_len <= k < out@.len() ==> (#[trigger] out@[k]).spec_cards().take(3)
                            == triples@[ti as int]@ && out@[k].spec_cards().len() == 5
                            && pair_tail_from(out@[k], pair_chunks@, pi as int),
                    self.cards@.no_duplicates() ==> forall|k1: int, k2: int|
                        0 <= k1 < k2 < out@.len() ==> (#[trigger] out@[k1]).spec_cards()
                            != (#[trigger] out@[k2]).spec_cards(),
                decreases pair_chunks@.len() - pi,
            {
                let pair = &pair_chunks[pi];
                if !do_overlap(triple, pair) {
                    let collection = concat(triple.clone(), pair.clone());
                    let ranking = collection[2];
                    let p = Play::new(PlayKind::FullHouse, ranking, collection);
                    proof {
                        assert(p.spec_cards() == triples@[ti as int]@ + pair_chunks@[pi as int]@);
                        assert(p.spec_cards().take(3) =~= triples@[ti as int]@);
                        assert(p.spec_cards().skip(3) =~= pair_chunks@[pi as int]@);
                        assert(house_entry(self.cards@, p)) by {
                            let r1 = choose|r: int|
                                0 <= r < 13 && is_subseq(
                                    triples@[ti as int]@,
                                    rank_filter(self.cards@, r),
                                ) && triples@[ti as int]@.len() == 3;
                            let r2 = choose|r: int|
                                0 <= r < 13 && is_subseq(
                                    pair_chunks@[pi as int]@,
                                    rank_filter(self.cards@, r),
                                ) && pair_chunks@[pi as int]@.len() == 2;
                            assert(is_subseq(p.spec_cards().take(3), rank_filter(self.cards@, r1)));
                            assert(is_subseq(p.spec_cards().skip(3), rank_filter(self.cards@, r2)));
                        }
                    }
                    let ghost prior = out@;
                    out.push(p);
                    proof {
                        assert(out@.len() >= 1);
                        assert(out@ == prior.push(out@[prior.len() as int]));
                        assert(out@[prior.len() as int].spec_cards() == triples@[ti as int]@
                            + pair_chunks@[pi as int]@);
                        let new_cards = out@[prior.len() as int].spec_cards();
                        assert(new_cards.take(3) =~= triples@[ti as int]@);
                        assert(new_cards.skip(3) =~= pair_chunks@[pi as int]@);
                        assert(pair_tail_from(out@[prior.len() as int], pair_chunks@, pi as int + 1));
                        assert forall|k: int|
                            pre_len <= k < out@.len() implies (#[trigger] out@[k]).spec_cards().take(
                            3,
                        ) == triples@[ti as int]@ && out@[k].spec_cards().len() == 5
                            && pair_tail_from(out@[k], pair_chunks@, pi as int + 1) by {
                            if k < prior.len() {
                                assert(out@[k] == prior[k]);
                                lemma_house_parts_widen(
                                    prior[k],
                                    pair_chunks@,
                                    pi as int,
                                    pi as int + 1,
                                );
                            }
                        }
                        if self.cards@.no_duplicates() {
                            assert forall|k1: int, k2: int|
                                0 <= k1 < k2 < out@.len() implies (#[trigger] out@[k1]).spec_cards()
                                != (#[trigger] out@[k2]).spec_cards() by {
                                if k2 == prior.len() {
                                    if k1 < pre_len {
                                        // an earlier triple heads the older play
                                        assert(triple_head_from(prior[k1], triples@, ti as int));
                                        let w = choose|w: int|
                                            0 <= w < ti && prior[k1].spec_cards().take(3)
                                                == (#[trigger] triples@[w])@;
                                        if out@[k1].spec_cards() == new_cards {
                                            assert(prior[k1].spec_cards().take(3)
                                                =~= new_cards.take(3));
                                        }
                                    } else {
                                        // same triple, and this pair is new
                                        assert(pair_tail_from(prior[k1], pair_chunks@, pi as int));
                                        let w = choose|w: int|
                                            0 <= w < pi && prior[k1].spec_cards().skip(3)
                                                == (#[trigger] pair_chunks@[w])@;
                                        if out@[k1].spec_cards() == new_cards {
                                            assert(prior[k1].spec_cards().skip(3)
                                                =~= new_cards.skip(3));
                                        }
                                    }
                                } else {
                                    assert(out@[k1] == prior[k1] && out@[k2] == prior[k2]);
                                }
                            }
                        }
                        assert forall|trip: Seq<Card>, pr: Seq<Card>|
                            (exists|w: int| 0 <= w < ti && (#[trigger] triples@[w])@ == trip)
                                && rows_contain(pair_chunks@, pr) && cards_disjoint(trip, pr)
                                implies play_cards_present(out@, trip + pr) by {
                            lemma_play_present_push(prior, out@[prior.len() as int], trip + pr);
                        }
                        assert forall|pr: Seq<Card>|
                            (exists|w: int| 0 <= w < pi + 1 && (#[trigger] pair_chunks@[w])@ == pr)
                                && cards_disjoint(triples@[ti as int]@, pr) implies play_cards_present(
                            out@,
                            triples@[ti as int]@ + pr,
                        ) by {
                            let w = choose|w: int|
                                0 <= w < pi + 1 && (#[trigger] pair_chunks@[w])@ == pr;
                            if w < pi {
                                lemma_play_present_push(
                                    prior,
                                    out@[prior.len() as int],
                                    triples@[ti as int]@ + pr,
                                );
                            }
                        }
                    }
                } else {
                    proof {
                        assert forall|pr: Seq<Card>|
                            (exists|w: int| 0 <= w < pi + 1 && (#[trigger] pair_chunks@[w])@ == pr)
                                && cards_disjoint(triples@[ti as int]@, pr) implies play_cards_present(
                            out@,
                            triples@[ti as int]@ + pr,
                        ) by {
                            let w = choose|w: int|
                                0 <= w < pi + 1 && (#[trigger] pair_chunks@[w])@ == pr;
                            if w == pi {
                                let shared = choose|i: int|
                                    0 <= i < triple@.len() && pair_chunks@[pi as int]@.contains(
                                        #[trigger] triple@[i],
                                    );
                                assert(!cards_disjoint(triples@[ti as int]@, pr));
                            }
                        }
                        assert forall|r1: int, r2: int|
                            0 <= r1 < 13 && 0 <= r2 < 13 && r1 != r2 && triples@[ti as int]@
                                == rank_filter(self.cards@, r1) && pair_chunks@[pi as int]@
                                == rank_filter(self.cards@, r2) implies false by {
                            let shared = choose|i: int|
                                0 <= i < triple@.len() && pair_chunks@[pi as int]@.contains(
                                    #[trigger] triple@[i],
                                );
                            lemma_in_filter(self.cards@, rank_pred(r1), triple@[shared]);
                            lemma_in_filter(self.cards@, rank_pred(r2), triple@[shared]);
                        }
                    }
                }
                pi += 1;
                proof {
                    assert forall|k: int|
                        pre_len <= k < out@.len() implies (#[trigger] out@[k]).spec_cards().take(3)
                            == triples@[ti as int]@ && out@[k].spec_cards().len() == 5
                            && pair_tail_from(out@[k], pair_chunks@, pi as int) by {
                        if !pair_tail_from(out@[k], pair_chunks@, pi as int - 1) {
                        } else {
                            lemma_house_parts_widen(
                                out@[k],
                                pair_chunks@,
                                pi as int - 1,
                                pi as int,
                            );
                        }
                    }
                    assert forall|r1: int, r2: int|
                        0 <= r1 < 13 && 0 <= r2 < 13 && r1 != r2 && rank_filter(
                            self.cards@,
                            r1,
                        ).len() == 3 && rank_filter(self.cards@, r2).len() == 2
                            && triples@[ti as int]@ == rank_filter(self.cards@, r1)
                            && chunk_present_upto(pair_chunks@, rank_filter(self.cards@, r2), pi as int)
                            implies out@.len() >= 1 by {
                        let w = choose|w: int|
                            0 <= w < pi && (#[trigger] pair_chunks@[w])@ == rank_filter(
                                self.cards@,
                                r2,
                            );
                        if w < pi - 1 {
                            assert(chunk_present_upto(
                                pair_chunks@,
                                rank_filter(self.cards@, r2),
                                pi - 1,
                            ));
                        }
                    }
                }
            }
            ti += 1;
            proof {
                assert forall|k: int| 0 <= k < out@.len() implies triple_head_from(
                    #[trigger] out@[k],
                    triples@,
                    ti as int,
                ) by {
                    if k < pre_len {
                        assert(triple_head_from(out@[k], triples@, ti as int - 1));
                        let w = choose|w: int|
                            0 <= w < ti - 1 && out@[k].spec_cards().take(3) == (#[trigger] triples@[w])@;
                        assert(0 <= w < ti && out@[k].spec_cards().take(3) == triples@[w]@);
                    } else {
                        assert(out@[k].spec_cards().take(3) == triples@[ti - 1]@);
                    }
                }
                assert forall|trip: Seq<Card>, pr: Seq<Card>|
                    (exists|w: int| 0 <= w < ti && (#[trigger] triples@[w])@ == trip)
                        && rows_contain(pair_chunks@, pr) && cards_disjoint(trip, pr)
                        implies play_cards_present(out@, trip + pr) by {
                    let w = choose|w: int| 0 <= w < ti && (#[trigger] triples@[w])@ == trip;
                    if w == ti - 1 {
                        let pw = choose|pw: int|
                            0 <= pw < pair_chunks@.len() && (#[trigger] pair_chunks@[pw])@ == pr;
                        assert(play_cards_present(out@, triples@[ti - 1]@ + pr));
                    }
                }
                assert forall|r1: int, r2: int|
                    0 <= r1 < 13 && 0 <= r2 < 13 && r1 != r2 && rank_filter(self.cards@, r1).len()
                        == 3 && rank_filter(self.cards@, r2).len() == 2 && chunk_present_upto(
                        triples@,
                        rank_filter(self.cards@, r1),
                        ti as int,
                    ) implies out@.len() >= 1 by {
                    let w = choose|w: int|
                        0 <= w < ti && (#[trigger] triples@[w])@ == rank_filter(self.cards@, r1);
                    if w < ti - 1 {
                        assert(chunk_present_upto(triples@, rank_filter(self.cards@, r1), ti - 1));
                    } else {
                        assert(chunk_present_upto(
                            pair_chunks@,
                            rank_filter(self.cards@, r2),
                            pair_chunks@.len() as int,
                        ));
                    }
                }
            }
        }
        proof {
            assert forall|r1: int, r2: int|
                0 <= r1 < 13 && 0 <= r2 < 13 && r1 != r2 && rank_filter(self.cards@, r1).len() == 3
                    && rank_filter(self.cards@, r2).len() == 2 implies out@.len() >= 1 by {
                assert(chunk_present_upto(
                    triples@,
                    rank_filter(self.cards@, r1),
                    triples@.len() as int,
                ));
            }
            assert forall|trip: Seq<Card>, pr: Seq<Card>, r1: int, r2: int|
                0 <= r1 < 13 && 0 <= r2 < 13 && trip.len() == 3 && pr.len() == 2 && is_subseq(
                    trip,
                    rank_filter(self.cards@, r1),
                ) && is_subseq(pr, rank_filter(self.cards@, r2)) && cards_disjoint(trip, pr)
                    implies play_cards_present(out@, trip + pr) by {
                assert(rows_contain(triples@, trip));
                assert(rows_contain(pair_chunks@, pr));
            }
        }
        out
    }

    /// The flushes, as precomputed when the finder was built: every
    /// five-card choice from every suit with at least five cards.
    pub fn flushes(&self) -> (out: Vec<Play>)
        requires
            self.wf(),
        ensures
            out@.len() == self.flushes@.len(),
            forall|k: int| 0 <= k < out@.len() ==> flush_entry(self.cards@, #[trigger] out@[k]),
            forall|sub: Seq<Card>, t: int|
                0 <= t < 4 && sub.len() == 5 && is_subseq(sub, suit_filter(self.cards@, t))
                    ==> play_cards_present(out@, sub),
            self.cards@.no_duplicates() ==> forall|k1: int, k2: int|
                0 <= k1 < k2 < out@.len() ==> (#[trigger] out@[k1]).spec_cards()
                    != (#[trigger] out@[k2]).spec_cards(),
    {
        let out = self.flushes.clone();
        proof {
            assert forall|k: int| 0 <= k < out@.len() implies flush_entry(
                self.cards@,
                #[trigger] out@[k],
            ) by {
                assert(cloned::<Play>(self.flushes@[k], out@[k]));
                assert(out@[k].eqv(self.flushes@[k]) || out@[k] == self.flushes@[k]);
            }
            assert forall|sub: Seq<Card>, t: int|
                0 <= t < 4 && sub.len() == 5 && is_subseq(sub, suit_filter(self.cards@, t))
                    implies play_cards_present(out@, sub) by {
                let k = choose|k: int|
                    0 <= k < self.flushes@.len() && (#[trigger] self.flushes@[k]).spec_cards()
                        == sub;
                assert(cloned::<Play>(self.flushes@[k], out@[k]));
                assert(out@[k].spec_cards() == sub);
            }
            if self.cards@.no_duplicates() {
                assert forall|k1: int, k2: int|
                    0 <= k1 < k2 < out@.len() implies (#[trigger] out@[k1]).spec_cards()
                    != (#[trigger] out@[k2]).spec_cards() by {
                    assert(cloned::<Play>(self.flushes@[k1], out@[k1]));
                    assert(cloned::<Play>(self.flushes@[k2], out@[k2]));
                    assert(out@[k1].spec_cards() == self.flushes@[k1].spec_cards());
                    assert(out@[k2].spec_cards() == self.flushes@[k2].spec_cards());
                }
            }
        }
        out
    }

    /// Every strait: for each of the 13 window starts, one card from each
    /// of the five consecutive rank blocks, in every combination; the
    /// highest card is the ranking card.
    #[verifier::rlimit(100)]
    #[verifier::spinoff_prover]
    pub fn straits(&self) -> (out: Vec<Play>)
        requires
            self.wf(),
        ensures
            forall|k: int| 0 <= k < out@.len() ==> strait_entry(self.cards@, #[trigger] out@[k]),
            forall|s: int| 0 <= s < 13 && window_nonempty(self.cards@, s) ==> out@.len() >= 1,
            forall|cs: Seq<Card>, s: int|
                0 <= s < 13 && window_cards(self.cards@, cs, s) ==> play_cards_present(out@, cs),
            self.cards@.no_duplicates() ==> forall|k1: int, k2: int|
                0 <= k1 < k2 < out@.len() ==> (#[trigger] out@[k1]).spec_cards()
                    != (#[trigger] out@[k2]).spec_cards(),
    {
        let mut out: Vec<Play> = Vec::new();
        let mut s: usize = 0;
        while s < 13
            invariant
                self.wf(),
                s <= 13,
                forall|k: int|
                    0 <= k < out@.len() ==> strait_entry(self.cards@, #[trigger] out@[k]),
                forall|q: int|
                    0 <= q < s && window_nonempty(self.cards@, q) ==> out@.len() >= 1,
                forall|cs: Seq<Card>, q: int|
                    0 <= q < s && window_cards(self.cards@, cs, q) ==> play_cards_present(
                        out@,
                        cs,
                    ),
                forall|k: int|
                    0 <= k < out@.len() ==> (#[trigger] out@[k]).spec_cards().len() == 5
                        && rank_index_spec(out@[k].spec_cards()[0].rank) < s as int,
                self.cards@.no_duplicates() ==> forall|k1: int, k2: int|
                    0 <= k1 < k2 < out@.len() ==> (#[trigger] out@[k1]).spec_cards()
                        != (#[trigger] out@[k2]).spec_cards(),
            decreases 13 - s,
        {
            let mut base: Vec<usize> = Vec::new();
            let mut j: usize = 0;
            while j < 5
                invariant
                    self.wf(),
                    s < 13,
                    j <= 5,
                    base@.len() == j as int,
                    forall|u: int|
                        0 <= u < j ==> #[trigger] base@[u] == rank_filter(
                            self.cards@,
                            ((s + u) % 13) as int,
                        ).len(),
                decreases 5 - j,
            {
                base.push(self.rank_blocks[(s + j) % 13].len());
                j += 1;
            }
            let digit_vecs = counter(&base);
            proof {
                lemma_counter_len(base@);
                lemma_counter_entries(base@);
                crate::util::lemma_counter_distinct(base@);
                if window_nonempty(self.cards@, s as int) {
                    assert forall|u: int| 0 <= u < base@.len() implies #[trigger] base@[u]
                        >= 1 by {
                        assert((s as int + u) % 13 == ((s + u) % 13) as int);
                    }
                    crate::util::lemma_radix_product_positive(base@);
                }
            }
            let ghost pre_len = out@.len();
            let mut xk: usize = 0;
            while xk < digit_vecs.len()
                invariant
                    self.wf(),
                    s < 13,
                    out@.len() >= pre_len,
                    base@.len() == 5,
                    forall|u: int|
                        0 <= u < 5 ==> #[trigger] base@[u] == rank_filter(
                            self.cards@,
                            ((s + u) % 13) as int,
                        ).len(),
                    digit_vecs.deep_view() == counter_spec(base@),
                    forall|k: int|
                        0 <= k < counter_spec(base@).len() ==> (#[trigger] counter_spec(base@)[k]).len()
                            == 5 && forall|u: int|
                            0 <= u < 5 ==> #[trigger] counter_spec(base@)[k][u] < base@[u],
                    xk <= digit_vecs@.len(),
                    forall|k: int|
                        0 <= k < out@.len() ==> strait_entry(self.cards@, #[trigger] out@[k]),
                    xk > 0 ==> out@.len() >= 1,
                    forall|cs: Seq<Card>, q: int|
                        0 <= q < s && window_cards(self.cards@, cs, q) ==> play_cards_present(
                            out@,
                            cs,
                        ),
                    forall|kp: int|
                        0 <= kp < xk ==> play_cards_present(
                            out@,
                            window_pick(self.cards@, s as int, #[trigger] counter_spec(base@)[kp]),
                        ),
                    out@.len() == pre_len + xk as int,
                    forall|k: int|
                        0 <= k < pre_len ==> (#[trigger] out@[k]).spec_cards().len() == 5
                            && rank_index_spec(out@[k].spec_cards()[0].rank) < s as int,
                    forall|k: int|
                        pre_len <= k < out@.len() ==> (#[trigger] out@[k]).spec_cards()
                            == window_pick(
                            self.cards@,
                            s as int,
                            counter_spec(base@)[k - pre_len],
                        ),
                    forall|k1: int, k2: int|
                        0 <= k1 < k2 < counter_spec(base@).len() ==> #[trigger] counter_spec(
                            base@,
                        )[k1] != #[trigger] counter_spec(base@)[k2],
                    self.cards@.no_duplicates() ==> forall|k1: int, k2: int|
                        0 <= k1 < k2 < pre_len ==> (#[trigger] out@[k1]).spec_cards()
                            != (#[trigger] out@[k2]).spec_cards(),
                decreases digit_vecs@.len() - xk,
            {
                let x = &digit_vecs[xk];
                proof {
                    assert(x@ == digit_vecs.deep_view()[xk as int]);
                    assert(x@.len() == 5);
                }
                let mut entry: Vec<Card> = Vec::new();
                let mut u: usize = 0;
                while u < 5
                    invariant
                        self.wf(),
                        s < 13,
                        u <= 5,
                        x@.len() == 5,
                        forall|w: int|
                            0 <= w < 5 ==> #[trigger] x@[w] < rank_filter(
                                self.cards@,
                                ((s + w) % 13) as int,
                            ).len(),
                        entry@.len() == u as int,
                        forall|w: int|
                            0 <= w < u ==> #[trigger] entry@[w] == rank_filter(
                                self.cards@,
                                ((s + w) % 13) as int,
                            )[x@[w] as int],
                        forall|w: int|
                            0 <= w < u ==> rank_filter(self.cards@, ((s + w) % 13) as int).contains(
                                #[trigger] entry@[w],
                            ),
                    decreases 5 - u,
                {
                    let block = &self.rank_blocks[(s + u) % 13];
                    entry.push(block[x[u]]);
                    u += 1;
                }
                let m = max_card(&entry);
                let p = Play::new(PlayKind::Strait, m, entry);
                proof {
                    assert forall|w: int| 0 <= w < 5 implies rank_filter(
                        self.cards@,
                        (s as int + w) % 13,
                    ).contains(#[trigger] p.spec_cards()[w]) by {
                        assert((s as int + w) % 13 == ((s + w) % 13) as int);
                    }
                    assert(window_cards(self.cards@, p.spec_cards(), s as int));
                    assert(strait_entry(self.cards@, p));
                }
                let ghost prior = out@;
                out.push(p);
                proof {
                    assert(out@ == prior.push(out@[prior.len() as int]));
                    assert forall|cs: Seq<Card>, q: int|
                        0 <= q < s && window_cards(self.cards@, cs, q) implies play_cards_present(
                        out@,
                        cs,
                    ) by {
                        lemma_play_present_push(prior, out@[prior.len() as int], cs);
                    }
                    assert forall|kp: int| 0 <= kp < xk + 1 implies play_cards_present(
                        out@,
                        window_pick(self.cards@, s as int, #[trigger] counter_spec(base@)[kp]),
                    ) by {
                        if kp < xk {
                            lemma_play_present_push(
                                prior,
                                out@[prior.len() as int],
                                window_pick(self.cards@, s as int, counter_spec(base@)[kp]),
                            );
                        } else {
                            assert(x@ == counter_spec(base@)[kp]);
                            assert forall|u: int|
                                0 <= u < 5 implies #[trigger] out@[prior.len() as int].spec_cards()[u]
                                == window_pick(self.cards@, s as int, x@)[u] by {
                                assert((s as int + u) % 13 == ((s + u) % 13) as int);
                                assert(out@[prior.len() as int].spec_cards()[u] == rank_filter(
                                    self.cards@,
                                    ((s + u) % 13) as int,
                                )[x@[u] as int]);
                            }
                            assert(out@[prior.len() as int].spec_cards() =~= window_pick(
                                self.cards@,
                                s as int,
                                x@,
                            ));
                        }
                    }
                    assert forall|k: int|
                        pre_len <= k < out@.len() implies (#[trigger] out@[k]).spec_cards()
                        == window_pick(
                        self.cards@,
                        s as int,
                        counter_spec(base@)[k - pre_len],
                    ) by {
                        if k < prior.len() {
                            assert(out@[k] == prior[k]);
                        } else {
                            assert(x@ == counter_spec(base@)[k - pre_len]);
                        }
                    }
                }
                xk += 1;
            }
            proof {
                assert(digit_vecs@.len() == digit_vecs.deep_view().len());
                if window_nonempty(self.cards@, s as int) {
                    assert(counter_spec(base@).len() >= 1);
                    assert(out@.len() >= 1);
                }
                let h = self.cards@;
                assert forall|k: int| 0 <= k < out@.len() implies (#[trigger] out@[k]).spec_cards().len()
                    == 5 && rank_index_spec(out@[k].spec_cards()[0].rank) < s as int + 1 by {
                    if k >= pre_len {
                        let e = counter_spec(base@)[k - pre_len];
                        assert(out@[k].spec_cards() == window_pick(h, s as int, e));
                        assert(out@[k].spec_cards()[0] == rank_filter(h, (s as int + 0) % 13)[e[0] as int]);
                        assert(0 <= (e[0] as int) < rank_filter(h, (s as int) % 13).len());
                        assert(rank_filter(h, (s as int) % 13).contains(
                            rank_filter(h, (s as int) % 13)[e[0] as int],
                        ));
                        lemma_in_filter(h, rank_pred((s as int) % 13), out@[k].spec_cards()[0]);
                        assert((s as int) % 13 == s as int);
                    }
                }
                if h.no_duplicates() {
                    assert forall|k1: int, k2: int|
                        0 <= k1 < k2 < out@.len() implies (#[trigger] out@[k1]).spec_cards()
                        != (#[trigger] out@[k2]).spec_cards() by {
                        if k1 < pre_len && k2 >= pre_len {
                            // earlier windows start at an earlier rank
                            assert(rank_index_spec(out@[k1].spec_cards()[0].rank) < s as int);
                            assert(rank_index_spec(out@[k2].spec_cards()[0].rank) == s as int);
                        } else if k1 >= pre_len {
                            // distinct digit vectors pick distinct cards somewhere
                            let e1 = counter_spec(base@)[k1 - pre_len];
                            let e2 = counter_spec(base@)[k2 - pre_len];
                            assert(e1 != e2);
                            assert(e1.len() == 5 && e2.len() == 5);
                            if out@[k1].spec_cards() == out@[k2].spec_cards() {
                                assert forall|u: int| 0 <= u < 5 implies #[trigger] e1[u]
                                    == e2[u] by {
                                    let f = rank_filter(h, (s as int + u) % 13);
                                    lemma_filter_no_dup(h, rank_pred((s as int + u) % 13));
                                    assert(out@[k1].spec_cards()[u] == f[e1[u] as int]);
                                    assert(out@[k2].spec_cards()[u] == f[e2[u] as int]);
                                    assert((s as int + u) % 13 == ((s + u) % 13) as int);
                                    assert(0 <= (e1[u] as int) < f.len());
                                    assert(0 <= (e2[u] as int) < f.len());
                                    if e1[u] != e2[u] {
                                        assert(f[e1[u] as int] != f[e2[u] as int]);
                                    }
                                }
                                assert(e1 =~= e2);
                            }
                        }
                    }
                }
                assert forall|cs: Seq<Card>, q: int|
                    0 <= q < s + 1 && window_cards(h, cs, q) implies play_cards_present(
                    out@,
                    cs,
                ) by {
                    if q == s as int {
                        let f0 = rank_filter(h, (q + 0) % 13);
                        let f1 = rank_filter(h, (q + 1) % 13);
                        let f2 = rank_filter(h, (q + 2) % 13);
                        let f3 = rank_filter(h, (q + 3) % 13);
                        let f4 = rank_filter(h, (q + 4) % 13);
                        let i0 = choose|i: int| 0 <= i < f0.len() && f0[i] == cs[0];
                        let i1 = choose|i: int| 0 <= i < f1.len() && f1[i] == cs[1];
                        let i2 = choose|i: int| 0 <= i < f2.len() && f2[i] == cs[2];
                        let i3 = choose|i: int| 0 <= i < f3.len() && f3[i] == cs[3];
                        let i4 = choose|i: int| 0 <= i < f4.len() && f4[i] == cs[4];
                        let digits = seq![
                            i0 as usize,
                            i1 as usize,
                            i2 as usize,
                            i3 as usize,
                            i4 as usize,
                        ];
                        assert forall|u: int| 0 <= u < 5 implies digits[u] < #[trigger] base@[u] by {
                            assert((s as int + u) % 13 == ((s + u) % 13) as int);
                            if u == 0 {
                                assert(base@[0] == f0.len());
                            } else if u == 1 {
                                assert(base@[1] == f1.len());
                            } else if u == 2 {
                                assert(base@[2] == f2.len());
                            } else if u == 3 {
                                assert(base@[3] == f3.len());
                            } else {
                                assert(base@[4] == f4.len());
                            }
                        }
                        crate::util::lemma_counter_complete(base@, digits);
                        let kc = choose|kc: int|
                            0 <= kc < counter_spec(base@).len() && #[trigger] counter_spec(
                                base@,
                            )[kc] == digits;
                        assert(play_cards_present(
                            out@,
                            window_pick(h, s as int, counter_spec(base@)[kc]),
                        ));
                        assert(window_pick(h, s as int, digits) =~= cs) by {
                            assert forall|u: int|
                                0 <= u < 5 implies window_pick(h, s as int, digits)[u] == cs[u] by {
                                assert((s as int + u) % 13 == ((s + u) % 13) as int);
                            }
                        }
                    }
                }
            }
            s += 1;
        }
        out
    }

    /// Every strait flush: the straits whose five cards share one suit,
    /// re-tagged.
    #[verifier::rlimit(60)]
    #[verifier::spinoff_prover]
    pub fn strait_flushes(&self) -> (out: Vec<Play>)
        requires
            self.wf(),
        ensures
            forall|k: int|
                0 <= k < out@.len() ==> strait_flush_entry(self.cards@, #[trigger] out@[k]),
            forall|s: int|
                0 <= s < 13 && window_nonempty(self.cards@, s) && all_same_suit(self.cards@)
                    ==> out@.len() >= 1,
            forall|cs: Seq<Card>, s: int|
                0 <= s < 13 && window_cards(self.cards@, cs, s) && all_same_suit(cs)
                    ==> play_cards_present(out@, cs),
            self.cards@.no_duplicates() ==> forall|k1: int, k2: int|
                0 <= k1 < k2 < out@.len() ==> (#[trigger] out@[k1]).spec_cards()
                    != (#[trigger] out@[k2]).spec_cards(),
    {
        let sts = self.straits();
        let mut out: Vec<Play> = Vec::new();
        let mut i: usize = 0;
        while i < sts.len()
            invariant
                self.wf(),
                i <= sts@.len(),
                forall|k: int|
                    0 <= k < sts@.len() ==> strait_entry(self.cards@, #[trigger] sts@[k]),
                forall|k: int|
                    0 <= k < out@.len() ==> strait_flush_entry(self.cards@, #[trigger] out@[k]),
                i > 0 && all_same_suit(self.cards@) ==> out@.len() >= 1,
                forall|k: int|
                    0 <= k < i && all_same_suit((#[trigger] sts@[k]).spec_cards())
                        ==> play_cards_present(out@, sts@[k].spec_cards()),
                forall|k: int|
                    0 <= k < out@.len() ==> play_source_before(#[trigger] out@[k], sts@, i as int),
                self.cards@.no_duplicates() ==> forall|k1: int, k2: int|
                    0 <= k1 < k2 < sts@.len() ==> (#[trigger] sts@[k1]).spec_cards()
                        != (#[trigger] sts@[k2]).spec_cards(),
                self.cards@.no_duplicates() ==> forall|k1: int, k2: int|
                    0 <= k1 < k2 < out@.len() ==> (#[trigger] out@[k1]).spec_cards()
                        != (#[trigger] out@[k2]).spec_cards(),
            decreases sts@.len() - i,
        {
            let mut p = sts[i].clone();
            proof {
                assert(p.eqv(sts@[i as int]));
                assert(strait_entry(self.cards@, p));
            }
            p.replace_kind(PlayKind::StraitFlush);
            proof {
                let s = choose|s: int| 0 <= s < 13 && window_cards(self.cards@, p.spec_cards(), s);
                lemma_window_found(self.cards@, p.spec_cards(), s);
                if all_same_suit(self.cards@) {
                    assert forall|a: int, b: int|
                        0 <= a < p.spec_cards().len() && 0 <= b < p.spec_cards().len() implies p.spec_cards()[a].suit
                            == p.spec_cards()[b].suit by {
                        let cs = p.spec_cards();
                        let wa = choose|w: int| 0 <= w < self.cards@.len() && self.cards@[w] == cs[a];
                        let wb = choose|w: int| 0 <= w < self.cards@.len() && self.cards@[w] == cs[b];
                    }
                }
            }
            if are_flush(p.cards()) {
                let ghost prior = out@;
                out.push(p);
                proof {
                    assert(out@ == prior.push(out@[prior.len() as int]));
                    assert(out@[prior.len() as int].spec_cards() == sts@[i as int].spec_cards());
                    assert forall|k: int|
                        0 <= k < i + 1 && all_same_suit(
                            (#[trigger] sts@[k]).spec_cards(),
                        ) implies play_cards_present(out@, sts@[k].spec_cards()) by {
                        if k < i {
                            lemma_play_present_push(
                                prior,
                                out@[prior.len() as int],
                                sts@[k].spec_cards(),
                            );
                        }
                    }
                    assert forall|k: int| 0 <= k < out@.len() implies play_source_before(
                        #[trigger] out@[k],
                        sts@,
                        i as int + 1,
                    ) by {
                        if k < prior.len() {
                            lemma_play_source_widen(out@[k], sts@, i as int, i as int + 1);
                        } else {
                            assert(out@[k].spec_cards() == sts@[i as int].spec_cards());
                        }
                    }
                    if self.cards@.no_duplicates() {
                        assert forall|k1: int, k2: int|
                            0 <= k1 < k2 < out@.len() implies (#[trigger] out@[k1]).spec_cards()
                            != (#[trigger] out@[k2]).spec_cards() by {
                            if k2 == prior.len() {
                                assert(play_source_before(prior[k1], sts@, i as int));
                                let w = choose|w: int|
                                    0 <= w < i && prior[k1].spec_cards()
                                        == (#[trigger] sts@[w]).spec_cards();
                                assert(sts@[w].spec_cards() != sts@[i as int].spec_cards());
                            }
                        }
                    }
                }
            } else {
                proof {
                    assert forall|k: int| 0 <= k < out@.len() implies play_source_before(
                        #[trigger] out@[k],
                        sts@,
                        i as int + 1,
                    ) by {
                        lemma_play_source_widen(out@[k], sts@, i as int, i as int + 1);
                    }
                }
            }
            i += 1;
        }
        proof {
            assert forall|cs: Seq<Card>, s: int|
                0 <= s < 13 && window_cards(self.cards@, cs, s) && all_same_suit(cs)
                    implies play_cards_present(out@, cs) by {
                assert(play_cards_present(sts@, cs));
                let k = choose|k: int|
                    0 <= k < sts@.len() && (#[trigger] sts@[k]).spec_cards() == cs;
            }
        }
        out
    }

    /// Every play the cards can produce, by category: singles first, then
    /// pairs, then the five-card groupings. One single per card leads the
    /// list; and every legally shaped selection of the cards — every
    /// single, every two of one rank, every one-per-block window pick,
    /// every five of one suit, every four of one rank with any fifth
    /// card, every three and two of different cards — appears.
    pub fn all_plays(&self) -> (out: Vec<Play>)
        requires
            self.wf(),
        ensures
            forall|k: int| 0 <= k < out@.len() ==> any_entry(self.cards@, #[trigger] out@[k]),
            out@.len() >= self.cards@.len(),
            forall|i: int|
                0 <= i < self.cards@.len() ==> {
                    let p = #[trigger] out@[i];
                    &&& p.spec_kind() is Single
                    &&& p.spec_cards() == seq![self.cards@[i]]
                    &&& p.spec_ranking() == Some(self.cards@[i])
                },
            forall|sub: Seq<Card>, r: int|
                0 <= r < 13 && sub.len() == 2 && is_subseq(sub, rank_filter(self.cards@, r))
                    ==> play_cards_present(out@, sub),
            forall|cs: Seq<Card>, s: int|
                0 <= s < 13 && window_cards(self.cards@, cs, s) ==> play_cards_present(out@, cs),
            forall|sub: Seq<Card>, t: int|
                0 <= t < 4 && sub.len() == 5 && is_subseq(sub, suit_filter(self.cards@, t))
                    ==> play_cards_present(out@, sub),
            forall|sub: Seq<Card>, c: Card, r: int|
                0 <= r < 13 && sub.len() == 4 && is_subseq(sub, rank_filter(self.cards@, r))
                    && self.cards@.contains(c) && !sub.contains(c) ==> play_cards_present(
                    out@,
                    sub.push(c),
                ),
            forall|trip: Seq<Card>, pr: Seq<Card>, r1: int, r2: int|
                0 <= r1 < 13 && 0 <= r2 < 13 && trip.len() == 3 && pr.len() == 2 && is_subseq(
                    trip,
                    rank_filter(self.cards@, r1),
                ) && is_subseq(pr, rank_filter(self.cards@, r2)) && cards_disjoint(trip, pr)
                    ==> play_cards_present(out@, trip + pr),
            cats_ordered(out@),
            self.cards@.no_duplicates() ==> plays_distinct(out@),
    {
        let mut out: Vec<Play> = Vec::new();
        let mut part = self.singles();
        let ghost g0 = out@;
        let ghost p0 = part@;
        out.append(&mut part);
        proof {
            assert(out@ == g0 + p0);
            assert forall|j: int| 0 <= j < p0.len() implies (#[trigger] p0[j]).spec_kind()
                == PlayKind::Single by {
                assert((p0[j]).spec_kind() is Single);
            }
            lemma_append_category_order(g0, p0, PlayKind::Single);
            if self.cards@.no_duplicates() {
                assert forall|j1: int, j2: int|
                    0 <= j1 < j2 < p0.len() implies (#[trigger] p0[j1]).spec_cards()
                    != (#[trigger] p0[j2]).spec_cards() by {
                    assert(p0[j1].spec_cards() == seq![self.cards@[j1]]);
                    assert(p0[j2].spec_cards() == seq![self.cards@[j2]]);
                }
                lemma_append_category_distinct(g0, p0, PlayKind::Single);
            }
        }
        let mut part = self.pairs();
        let ghost g1 = out@;
        let ghost p1 = part@;
        out.append(&mut part);
        proof {
            assert(out@ == g1 + p1);
            assert forall|j: int| 0 <= j < p1.len() implies (#[trigger] p1[j]).spec_kind()
                == PlayKind::Pair by {
                
            }
            lemma_append_category_order(g1, p1, PlayKind::Pair);
            if self.cards@.no_duplicates() {
                assert forall|j1: int, j2: int|
                    0 <= j1 < j2 < p1.len() implies (#[trigger] p1[j1]).spec_cards()
                    != (#[trigger] p1[j2]).spec_cards() by {
                    
                }
                lemma_append_category_distinct(g1, p1, PlayKind::Pair);
            }
        }
        let mut part = self.strait_flushes();
        let ghost g2 = out@;
        let ghost p2 = part@;
        out.append(&mut part);
        proof {
            assert(out@ == g2 + p2);
            assert forall|j: int| 0 <= j < p2.len() implies (#[trigger] p2[j]).spec_kind()
                == PlayKind::StraitFlush by {
                
            }
            lemma_append_category_order(g2, p2, PlayKind::StraitFlush);
            if self.cards@.no_duplicates() {
                assert forall|j1: int, j2: int|
                    0 <= j1 < j2 < p2.len() implies (#[trigger] p2[j1]).spec_cards()
                    != (#[trigger] p2[j2]).spec_cards() by {
                    
                }
                lemma_append_category_distinct(g2, p2, PlayKind::StraitFlush);
            }
        }
        let mut part = self.four_of_a_kinds();
        let ghost g3 = out@;
        let ghost p3 = part@;
        out.append(&mut part);
        proof {
            assert(out@ == g3 + p3);
            assert forall|j: int| 0 <= j < p3.len() implies (#[trigger] p3[j]).spec_kind()
                == PlayKind::FourOfAKind by {
                
            }
            lemma_append_category_order(g3, p3, PlayKind::FourOfAKind);
            if self.cards@.no_duplicates() {
                assert forall|j1: int, j2: int|
                    0 <= j1 < j2 < p3.len() implies (#[trigger] p3[j1]).spec_cards()
                    != (#[trigger] p3[j2]).spec_cards() by {
                    
                }
                lemma_append_category_distinct(g3, p3, PlayKind::FourOfAKind);
            }
        }
        let mut part = self.full_houses();
        let ghost g4 = out@;
        let ghost p4 = part@;
        out.append(&mut part);
        proof {
            assert(out@ == g4 + p4);
            assert forall|j: int| 0 <= j < p4.len() implies (#[trigger] p4[j]).spec_kind()
                == PlayKind::FullHouse by {
                
            }
            lemma_append_category_order(g4, p4, PlayKind::FullHouse);
            if self.cards@.no_duplicates() {
                assert forall|j1: int, j2: int|
                    0 <= j1 < j2 < p4.len() implies (#[trigger] p4[j1]).spec_cards()
                    != (#[trigger] p4[j2]).spec_cards() by {
                    
                }
                lemma_append_category_distinct(g4, p4, PlayKind::FullHouse);
            }
        }
        let mut part = self.flushes();
        let ghost g5 = out@;
        let ghost p5 = part@;
        out.append(&mut part);
        proof {
            assert(out@ == g5 + p5);
            assert forall|j: int| 0 <= j < p5.len() implies (#[trigger] p5[j]).spec_kind()
                == PlayKind::Flush by {
                
            }
            lemma_append_category_order(g5, p5, PlayKind::Flush);
            if self.cards@.no_duplicates() {
                assert forall|j1: int, j2: int|
                    0 <= j1 < j2 < p5.len() implies (#[trigger] p5[j1]).spec_cards()
                    != (#[trigger] p5[j2]).spec_cards() by {
                    
                }
                lemma_append_category_distinct(g5, p5, PlayKind::Flush);
            }
        }
        let mut part = self.straits();
        let ghost g6 = out@;
        let ghost p6 = part@;
        out.append(&mut part);
        proof {
            assert(out@ == g6 + p6);
            assert forall|j: int| 0 <= j < p6.len() implies (#[trigger] p6[j]).spec_kind()
                == PlayKind::Strait by {
                
            }
            lemma_append_category_order(g6, p6, PlayKind::Strait);
            if self.cards@.no_duplicates() {
                assert forall|j1: int, j2: int|
                    0 <= j1 < j2 < p6.len() implies (#[trigger] p6[j1]).spec_cards()
                    != (#[trigger] p6[j2]).spec_cards() by {
                    
                }
                lemma_append_category_distinct(g6, p6, PlayKind::Strait);
            }
            let h = self.cards@;
            assert forall|sub: Seq<Card>, r: int|
                0 <= r < 13 && sub.len() == 2 && is_subseq(sub, rank_filter(h, r))
                    implies play_cards_present(out@, sub) by {
                assert(play_cards_present(p1, sub));
                lemma_play_present_cat(g1, p1, sub);
                lemma_play_present_cat(g2, p2, sub);
                lemma_play_present_cat(g3, p3, sub);
                lemma_play_present_cat(g4, p4, sub);
                lemma_play_present_cat(g5, p5, sub);
                lemma_play_present_cat(g6, p6, sub);
            }
            assert forall|cs: Seq<Card>, s: int|
                0 <= s < 13 && window_cards(h, cs, s) implies play_cards_present(out@, cs) by {
                assert(play_cards_present(p6, cs));
                lemma_play_present_cat(g6, p6, cs);
            }
            assert forall|sub: Seq<Card>, t: int|
                0 <= t < 4 && sub.len() == 5 && is_subseq(sub, suit_filter(h, t))
                    implies play_cards_present(out@, sub) by {
                assert(play_cards_present(p5, sub));
                lemma_play_present_cat(g5, p5, sub);
                lemma_play_present_cat(g6, p6, sub);
            }
            assert forall|sub: Seq<Card>, c: Card, r: int|
                0 <= r < 13 && sub.len() == 4 && is_subseq(sub, rank_filter(h, r)) && h.contains(c)
                    && !sub.contains(c) implies play_cards_present(out@, sub.push(c)) by {
                assert(play_cards_present(p3, sub.push(c)));
                lemma_play_present_cat(g3, p3, sub.push(c));
                lemma_play_present_cat(g4, p4, sub.push(c));
                lemma_play_present_cat(g5, p5, sub.push(c));
                lemma_play_present_cat(g6, p6, sub.push(c));
            }
            assert forall|trip: Seq<Card>, pr: Seq<Card>, r1: int, r2: int|
                0 <= r1 < 13 && 0 <= r2 < 13 && trip.len() == 3 && pr.len() == 2 && is_subseq(
                    trip,
                    rank_filter(h, r1),
                ) && is_subseq(pr, rank_filter(h, r2)) && cards_disjoint(trip, pr)
                    implies play_cards_present(out@, trip + pr) by {
                assert(play_cards_present(p4, trip + pr));
                lemma_play_present_cat(g4, p4, trip + pr);
                lemma_play_present_cat(g5, p5, trip + pr);
                lemma_play_present_cat(g6, p6, trip + pr);
            }
        }
        out
    }
}


// ---------------------------------------------------------------------------
// Support for the five-card inference.
// ---------------------------------------------------------------------------

/// A filter that keeps every position yields the whole sequence.
pub proof fn lemma_filter_all_conv(s: Seq<Card>, pred: spec_fn(Card) -> bool)
    requires
        forall|i: int| 0 <= i < s.len() ==> pred(#[trigger] s[i]),
    ensures
        s.filter(pred) == s,
    decreases s.len(),
{
    reveal(Seq::filter);
    if s.len() != 0 {
        assert forall|i: int| 0 <= i < s.drop_last().len() implies pred(
            #[trigger] s.drop_last()[i],
        ) by {
            assert(s.drop_last()[i] == s[i]);
        }
        lemma_filter_all_conv(s.drop_last(), pred);
        assert(s.filter(pred) =~= s);
    }
}

/// A filter over plays that keeps every position yields the whole
/// sequence.
pub proof fn lemma_filter_all_conv_play(s: Seq<Play>, pred: spec_fn(Play) -> bool)
    requires
        forall|i: int| 0 <= i < s.len() ==> pred(#[trigger] s[i]),
    ensures
        s.filter(pred) == s,
    decreases s.len(),
{
    reveal(Seq::filter);
    if s.len() != 0 {
        assert forall|i: int| 0 <= i < s.drop_last().len() implies pred(
            #[trigger] s.drop_last()[i],
        ) by {
            assert(s.drop_last()[i] == s[i]);
        }
        lemma_filter_all_conv_play(s.drop_last(), pred);
        assert(s.filter(pred) =~= s);
    }
}

/// A filter that dropped something dropped a position that fails the
/// predicate.
pub proof fn lemma_filter_missing(s: Seq<Card>, pred: spec_fn(Card) -> bool)
    requires
        s.filter(pred).len() != s.len(),
    ensures
        exists|i: int| 0 <= i < s.len() && !pred(#[trigger] s[i]),
{
    if forall|i: int| 0 <= i < s.len() ==> pred(#[trigger] s[i]) {
        lemma_filter_all_conv(s, pred);
    }
}

/// Two filters with incompatible predicates keep disjoint positions, so
/// their lengths sum to at most the whole.
pub proof fn lemma_filter_disjoint_sum(s: Seq<Card>, p1: spec_fn(Card) -> bool, p2: spec_fn(Card) -> bool)
    requires
        forall|c: Card| !(#[trigger] p1(c) && #[trigger] p2(c)),
    ensures
        s.filter(p1).len() + s.filter(p2).len() <= s.len(),
    decreases s.len(),
{
    reveal(Seq::filter);
    if s.len() != 0 {
        lemma_filter_disjoint_sum(s.drop_last(), p1, p2);
        assert(!(p1(s.last()) && p2(s.last())));
    }
}

/// Five cards inside five cards: a duplicate-free selection of the same
/// length as its duplicate-free source covers all of it.
pub proof fn lemma_cover(sub: Seq<Card>, sup: Seq<Card>)
    requires
        sub.no_duplicates(),
        sup.no_duplicates(),
        cards_from(sub, sup),
        sub.len() == sup.len(),
    ensures
        cards_from(sup, sub),
{
    broadcast use vstd::set::group_set_axioms;

    sub.unique_seq_to_set();
    sup.unique_seq_to_set();
    assert(sub.to_set().subset_of(sup.to_set())) by {
        assert forall|c: Card| sub.to_set().contains(c) implies sup.to_set().contains(c) by {
            assert(sub.contains(c));
            let w = choose|w: int| 0 <= w < sub.len() && sub[w] == c;
            assert(sup.contains(sub[w]));
        }
    }
    vstd::set_lib::lemma_subset_equality(sub.to_set(), sup.to_set());
    assert forall|i: int| 0 <= i < sup.len() implies sub.contains(#[trigger] sup[i]) by {
        assert(sup.to_set().contains(sup[i]));
        assert(sub.to_set().contains(sup[i]));
    }
}

/// Two collections of the same cards have the same highest card.
pub proof fn lemma_max_same_set(a: Seq<Card>, b: Seq<Card>)
    requires
        a.len() >= 1,
        b.len() >= 1,
        cards_from(a, b),
        cards_from(b, a),
    ensures
        max_card_spec(a) == max_card_spec(b),
{
    lemma_max_card_props(a);
    lemma_max_card_props(b);
    let ma = max_card_spec(a);
    let mb = max_card_spec(b);
    let wa = choose|w: int| 0 <= w < a.len() && a[w] == ma;
    assert(b.contains(ma));
    let va = choose|w: int| 0 <= w < b.len() && b[w] == ma;
    assert(card_value_spec(ma) <= card_value_spec(mb));
    let wb = choose|w: int| 0 <= w < b.len() && b[w] == mb;
    assert(a.contains(mb));
    let vb = choose|w: int| 0 <= w < a.len() && a[w] == mb;
    assert(card_value_spec(mb) <= card_value_spec(ma));
    crate::card::lemma_card_value_injective(ma, mb);
}

/// The highest card of a sorted collection is its last.
pub proof fn lemma_max_sorted(s: Seq<Card>)
    requires
        s.len() >= 1,
        sorted_by_value(s),
    ensures
        max_card_spec(s) == s.last(),
{
    assert(s.contains(s.last()));
    lemma_max_card_unique(s, s.last());
}

/// Five pairwise-distinct cards cannot all share one rank: there are
/// only four suits.
pub proof fn lemma_no_five_of_one_rank(s: Seq<Card>)
    requires
        s.len() == 5,
        s.no_duplicates(),
    ensures
        exists|i: int, j: int|
            0 <= i < 5 && 0 <= j < 5 && #[trigger] s[i].rank != #[trigger] s[j].rank,
{
    if forall|i: int, j: int| 0 <= i < 5 && 0 <= j < 5 ==> #[trigger] s[i].rank == #[trigger] s[j].rank {
        assert forall|i: int, j: int| 0 <= i < j < 5 implies suit_index_spec(s[i].suit)
            != suit_index_spec(s[j].suit) by {
            assert(s[i].rank == s[j].rank);
            assert(s[i] != s[j]);
            crate::card::lemma_suit_index_injective(s[i].suit, s[j].suit);
        }
        assert(0 <= suit_index_spec(s[0].suit) <= 3);
        assert(0 <= suit_index_spec(s[1].suit) <= 3);
        assert(0 <= suit_index_spec(s[2].suit) <= 3);
        assert(0 <= suit_index_spec(s[3].suit) <= 3);
        assert(0 <= suit_index_spec(s[4].suit) <= 3);
        assert(false);
    }
}


/// A rank present among the cards makes that rank's block non-empty.
pub proof fn lemma_has_rank_filter(h: Seq<Card>, r: int)
    requires
        has_rank(h, r),
    ensures
        rank_filter(h, r).len() >= 1,
{
    broadcast use vstd::seq_lib::group_filter_ensures;

    let i = choose|i: int| 0 <= i < h.len() && rank_index_spec(#[trigger] h[i].rank) == r;
    assert(rank_pred(r)(h[i]));
    assert(rank_filter(h, r).contains(h[i]));
    let w = choose|w: int| 0 <= w < rank_filter(h, r).len() && rank_filter(h, r)[w] == h[i];
}

/// A strait among the cards leaves every block of some window non-empty.
pub proof fn lemma_strait_window(h: Seq<Card>)
    requires
        strait_shape(h),
    ensures
        exists|s: int| 0 <= s < 13 && window_nonempty(h, s),
{
    let start = choose|start: int| 0 <= start < 13 && covers_window(h, start);
    lemma_has_rank_filter(h, start % 13);
    lemma_has_rank_filter(h, (start + 1) % 13);
    lemma_has_rank_filter(h, (start + 2) % 13);
    lemma_has_rank_filter(h, (start + 3) % 13);
    lemma_has_rank_filter(h, (start + 4) % 13);
    assert(window_nonempty(h, start));
}

/// Five cards of one suit fill that suit's block.
pub proof fn lemma_flush_block(h: Seq<Card>)
    requires
        flush_shape(h),
    ensures
        exists|t: int| 0 <= t < 4 && suit_filter(h, t).len() >= 5,
{
    let t = suit_index_spec(h[0].suit);
    assert forall|i: int| 0 <= i < h.len() implies suit_pred(t)(#[trigger] h[i]) by {
        assert(h[i].suit == h[0].suit);
    }
    lemma_filter_all_conv(h, suit_pred(t));
    assert(suit_filter(h, t).len() >= 5);
}

/// Over five pairwise-distinct cards, a rank that appears four times
/// appears exactly four times, and some card sits outside its block.
pub proof fn lemma_four_block(h: Seq<Card>)
    requires
        h.len() == 5,
        h.no_duplicates(),
        four_shape(h),
    ensures
        exists|r: int|
            0 <= r < 13 && rank_filter(h, r).len() == 4 && (exists|j: int|
                0 <= j < h.len() && !rank_filter(h, r).contains(#[trigger] h[j])),
{
    broadcast use vstd::seq_lib::group_filter_ensures;

    let r = choose|r: int| 0 <= r < 13 && count_rank(h, r) >= 4;
    lemma_rank_block_at_most_four(h, r);
    assert(rank_filter(h, r).len() == 4);
    lemma_filter_missing(h, rank_pred(r));
    let j = choose|j: int| 0 <= j < h.len() && !rank_pred(r)(#[trigger] h[j]);
    assert(!rank_filter(h, r).contains(h[j])) by {
        if rank_filter(h, r).contains(h[j]) {
            lemma_in_filter(h, rank_pred(r), h[j]);
        }
    }
}

/// Over five pairwise-distinct cards no rank fills all five slots: a
/// rank's block holds at most four of them.
pub proof fn lemma_rank_block_at_most_four(h: Seq<Card>, r: int)
    requires
        h.len() == 5,
        h.no_duplicates(),
    ensures
        count_rank(h, r) <= 4,
{
    broadcast use vstd::seq_lib::group_filter_ensures;

    if count_rank(h, r) >= 5 {
        assert(rank_filter(h, r).len() == 5);
        lemma_filter_all(h, rank_pred(r));
        assert forall|i: int, j: int| 0 <= i < 5 && 0 <= j < 5 implies h[i].rank == h[j].rank by {
            assert(rank_pred(r)(h[i]) && rank_pred(r)(h[j]));
            crate::card::lemma_rank_index_injective(h[i].rank, h[j].rank);
        }
        lemma_no_five_of_one_rank(h);
    }
}

/// Over five pairwise-distinct cards with no four of a kind, a full house
/// splits them into a block of exactly three and one of exactly two.
pub proof fn lemma_house_blocks(h: Seq<Card>)
    requires
        h.len() == 5,
        h.no_duplicates(),
        house_shape(h),
        !four_shape(h),
    ensures
        exists|r1: int, r2: int|
            0 <= r1 < 13 && 0 <= r2 < 13 && r1 != r2 && rank_filter(h, r1).len() == 3
                && rank_filter(h, r2).len() == 2,
{
    let (r1, r2) = choose|r1: int, r2: int|
        0 <= r1 < 13 && 0 <= r2 < 13 && r1 != r2 && count_rank(h, r1) >= 3 && count_rank(h, r2)
            >= 2;
    assert(count_rank(h, r1) <= 3) by {
        if count_rank(h, r1) >= 4 {
            assert(four_shape(h));
        }
    }
    lemma_rank_preds_disjoint(r1, r2);
    lemma_filter_disjoint_sum(h, rank_pred(r1), rank_pred(r2));
    assert(rank_filter(h, r1).len() == 3 && rank_filter(h, r2).len() == 2);
}

/// Distinct rank positions pick out disjoint sets of cards.
pub proof fn lemma_rank_preds_disjoint(r1: int, r2: int)
    requires
        r1 != r2,
    ensures
        forall|c: Card| !(#[trigger] rank_pred(r1)(c) && #[trigger] rank_pred(r2)(c)),
{
}

/// A strait flush read off five pairwise-distinct cards: the cards as a
/// whole have the strait flush shape, and the designated ranking card is
/// the highest of them.
pub proof fn lemma_sf_reading(h: Seq<Card>, p: Play)
    requires
        h.len() == 5,
        h.no_duplicates(),
        strait_flush_entry(h, p),
    ensures
        strait_flush_shape(h),
        p.spec_ranking() == Some(five_ranking(h)),
        cards_from(p.spec_cards(), h),
        cards_from(h, p.spec_cards()),
        p.spec_cards().no_duplicates(),
        p.spec_cards().len() == 5,
{
    let cs = p.spec_cards();
    let s = choose|s: int| 0 <= s < 13 && window_cards(h, cs, s);
    lemma_window_found(h, cs, s);
    lemma_cover(cs, h);
    assert(all_same_suit(h)) by {
        assert forall|i: int, j: int|
            0 <= i < h.len() && 0 <= j < h.len() implies h[i].suit == h[j].suit by {
            assert(cs.contains(h[i]) && cs.contains(h[j]));
            let wi = choose|w: int| 0 <= w < cs.len() && cs[w] == h[i];
            let wj = choose|w: int| 0 <= w < cs.len() && cs[w] == h[j];
        }
    }
    assert(strait_shape(h));
    lemma_max_same_set(cs, h);
}

/// A four of a kind read off five pairwise-distinct cards that form no
/// strait flush: the shape, the priority and the ranking card all match
/// the inference's designation.
pub proof fn lemma_four_reading(h: Seq<Card>, p: Play)
    requires
        h.len() == 5,
        h.no_duplicates(),
        sorted_by_value(h),
        four_entry(h, p),
        !strait_flush_shape(h),
    ensures
        four_shape(h),
        p.spec_kind() == five_kind(h),
        p.spec_ranking() == Some(five_ranking(h)),
        cards_from(p.spec_cards(), h),
        cards_from(h, p.spec_cards()),
        p.spec_cards().no_duplicates(),
        p.spec_cards().len() == 5,
{
    broadcast use vstd::seq_lib::group_filter_ensures;

    lemma_entry_found(h, p);
    let cs = p.spec_cards();
    let r = choose|r: int| 0 <= r < 13 && is_subseq(cs.take(4), rank_filter(h, r));
    let f = rank_filter(h, r);
    lemma_subseq_len(cs.take(4), f);
    assert(count_rank(h, r) >= 4);
    assert(four_shape(h));
    lemma_rank_block_at_most_four(h, r);
    assert(f.len() == 4);
    lemma_subseq_full(cs.take(4), f);
    lemma_filter_subseq(h, rank_pred(r));
    lemma_subseq_structure(f, h);
    lemma_max_sorted(f);
    assert(cs[3] == cs.take(4)[3]);
    assert(p.spec_ranking() == Some(f[3]));
    assert(f[3] == f.last());
    let rr = choose|rr: int| 0 <= rr < 13 && count_rank(h, rr) >= 4;
    assert(rr == r) by {
        if rr != r {
            lemma_rank_preds_disjoint(r, rr);
            lemma_filter_disjoint_sum(h, rank_pred(r), rank_pred(rr));
        }
    }
    lemma_cover(cs, h);
}

/// A full house read off five pairwise-distinct cards that form neither
/// strait flush nor four of a kind.
pub proof fn lemma_house_reading(h: Seq<Card>, p: Play)
    requires
        h.len() == 5,
        h.no_duplicates(),
        sorted_by_value(h),
        house_entry(h, p),
        !strait_flush_shape(h),
        !four_shape(h),
    ensures
        house_shape(h),
        p.spec_kind() == five_kind(h),
        p.spec_ranking() == Some(five_ranking(h)),
        cards_from(p.spec_cards(), h),
        cards_from(h, p.spec_cards()),
        p.spec_cards().no_duplicates(),
        p.spec_cards().len() == 5,
{
    broadcast use vstd::seq_lib::group_filter_ensures;

    lemma_entry_found(h, p);
    let cs = p.spec_cards();
    let (r1, r2) = choose|r1: int, r2: int|
        0 <= r1 < 13 && 0 <= r2 < 13 && is_subseq(cs.take(3), rank_filter(h, r1)) && is_subseq(
            cs.skip(3),
            rank_filter(h, r2),
        );
    let f1 = rank_filter(h, r1);
    let f2 = rank_filter(h, r2);
    lemma_subseq_len(cs.take(3), f1);
    lemma_subseq_len(cs.skip(3), f2);
    assert(count_rank(h, r1) <= 3) by {
        if count_rank(h, r1) >= 4 {
            assert(four_shape(h));
        }
    }
    assert(r1 != r2) by {
        if r1 == r2 {
            lemma_subseq_membership(cs.take(3), f1);
            lemma_subseq_membership(cs.skip(3), f2);
            assert forall|i: int, j: int| 0 <= i < 5 && 0 <= j < 5 implies cs[i].rank
                == cs[j].rank by {
                assert forall|w: int| 0 <= w < 5 implies rank_index_spec(#[trigger] cs[w].rank)
                    == r1 by {
                    if w < 3 {
                        assert(cs.take(3)[w] == cs[w]);
                        assert(f1.contains(cs[w]));
                        lemma_in_filter(h, rank_pred(r1), cs[w]);
                    } else {
                        assert(cs.skip(3)[w - 3] == cs[w]);
                        assert(f2.contains(cs[w]));
                        lemma_in_filter(h, rank_pred(r2), cs[w]);
                    }
                }
                crate::card::lemma_rank_index_injective(cs[i].rank, cs[j].rank);
            }
            lemma_no_five_of_one_rank(cs);
        }
    }
    assert(house_shape(h)) by {
        assert(0 <= r1 < 13 && 0 <= r2 < 13 && r1 != r2 && count_rank(h, r1) >= 3 && count_rank(
            h,
            r2,
        ) >= 2);
    }
    lemma_subseq_full(cs.take(3), f1);
    lemma_filter_subseq(h, rank_pred(r1));
    lemma_subseq_structure(f1, h);
    lemma_max_sorted(f1);
    assert(cs[2] == cs.take(3)[2]);
    assert(p.spec_ranking() == Some(f1[2]));
    assert(f1[2] == f1.last());
    let rr = choose|rr: int| 0 <= rr < 13 && count_rank(h, rr) >= 3;
    assert(rr == r1) by {
        if rr != r1 {
            lemma_rank_preds_disjoint(r1, rr);
            lemma_filter_disjoint_sum(h, rank_pred(r1), rank_pred(rr));
        }
    }
    lemma_cover(cs, h);
}

/// A flush read off five pairwise-distinct cards that match none of the
/// higher-priority categories.
pub proof fn lemma_flush_reading(h: Seq<Card>, p: Play)
    requires
        h.len() == 5,
        h.no_duplicates(),
        flush_entry(h, p),
        !strait_flush_shape(h),
        !four_shape(h),
        !house_shape(h),
    ensures
        flush_shape(h),
        p.spec_kind() == five_kind(h),
        p.spec_ranking() == Some(five_ranking(h)),
        cards_from(p.spec_cards(), h),
        cards_from(h, p.spec_cards()),
        p.spec_cards().no_duplicates(),
        p.spec_cards().len() == 5,
{
    broadcast use vstd::seq_lib::group_filter_ensures;

    lemma_entry_found(h, p);
    let cs = p.spec_cards();
    let t = choose|t: int| 0 <= t < 4 && is_subseq(cs, suit_filter(h, t));
    let f = suit_filter(h, t);
    lemma_subseq_len(cs, f);
    assert(f.len() == 5);
    lemma_filter_all(h, suit_pred(t));
    assert(all_same_suit(h)) by {
        assert forall|i: int, j: int|
            0 <= i < h.len() && 0 <= j < h.len() implies h[i].suit == h[j].suit by {
            assert(suit_pred(t)(h[i]) && suit_pred(t)(h[j]));
            crate::card::lemma_suit_index_injective(h[i].suit, h[j].suit);
        }
    }
    lemma_cover(cs, h);
    lemma_max_same_set(cs, h);
}

/// A strait read off five pairwise-distinct cards that match none of the
/// higher-priority categories.
pub proof fn lemma_strait_reading(h: Seq<Card>, p: Play)
    requires
        h.len() == 5,
        h.no_duplicates(),
        strait_entry(h, p),
        !strait_flush_shape(h),
        !four_shape(h),
        !house_shape(h),
        !flush_shape(h),
    ensures
        strait_shape(h),
        p.spec_kind() == five_kind(h),
        p.spec_ranking() == Some(five_ranking(h)),
        cards_from(p.spec_cards(), h),
        cards_from(h, p.spec_cards()),
        p.spec_cards().no_duplicates(),
        p.spec_cards().len() == 5,
{
    let cs = p.spec_cards();
    let s = choose|s: int| 0 <= s < 13 && window_cards(h, cs, s);
    lemma_window_found(h, cs, s);
    assert(strait_shape(h));
    lemma_cover(cs, h);
    lemma_max_same_set(cs, h);
}

/// Picks one of the plays with the greatest (kind, ranking card) key,
/// as the inference's tie-break does.
fn best_of(plays: &Vec<Play>) -> (best: Play)
    requires
        plays@.len() >= 1,
        forall|k: int| 0 <= k < plays@.len() ==> (#[trigger] plays@[k]).spec_ranking() is Some,
    ensures
        exists|k: int| 0 <= k < plays@.len() && best.eqv(#[trigger] plays@[k]),
{
    let mut best = plays[0].clone();
    proof {
        assert(best.eqv(plays@[0]));
    }
    let mut i: usize = 1;
    while i < plays.len()
        invariant
            1 <= i <= plays@.len(),
            forall|k: int| 0 <= k < plays@.len() ==> (#[trigger] plays@[k]).spec_ranking() is Some,
            exists|k: int| 0 <= k < plays@.len() && best.eqv(#[trigger] plays@[k]),
        decreases plays@.len() - i,
    {
        let contender = &plays[i];
        let ck = contender.kind().index();
        let bk = best.kind().index();
        let better = if ck != bk {
            ck > bk
        } else {
            let cv = contender.ranking_card().unwrap().numeric_value();
            let bv = best.ranking_card().unwrap().numeric_value();
            cv >= bv
        };
        if better {
            best = contender.clone();
            proof {
                assert(best.eqv(plays@[i as int]));
            }
        }
        i += 1;
    }
    best
}

impl Finder {
    /// The single interpretation of an exact five-card selection: the
    /// highest-priority category that matches, with the greatest key
    /// among that category's readings. Over five pairwise-distinct cards
    /// (every selection from a real deal is) it returns a play exactly
    /// when the cards match some five-card category, tagged with the
    /// highest-priority matching kind and the ranking card that kind
    /// designates.
    pub fn max_five_of_a_kind(&self) -> (r: Option<Play>)
        requires
            self.wf(),
        ensures
            r matches Some(p) ==> any_entry(self.cards@, p) && kind_len_spec(p.spec_kind()) == 5,
            self.cards@.len() == 5 && self.cards@.no_duplicates() ==> {
                &&& (r is Some <==> five_shape(self.cards@))
                &&& (r matches Some(p) ==> {
                    &&& p.spec_kind() == five_kind(self.cards@)
                    &&& p.spec_ranking() == Some(five_ranking(self.cards@))
                    &&& cards_from(p.spec_cards(), self.cards@)
                    &&& cards_from(self.cards@, p.spec_cards())
                    &&& p.spec_cards().no_duplicates()
                    &&& p.spec_cards().len() == 5
                })
            },
    {
        let ghost h = self.cards@;
        let ghost exact = h.len() == 5 && h.no_duplicates();

        let strait_flushes = self.strait_flushes();
        if strait_flushes.len() > 0 {
            let p = best_of(&strait_flushes);
            proof {
                let k = choose|k: int|
                    0 <= k < strait_flushes@.len() && p.eqv(#[trigger] strait_flushes@[k]);
                assert(strait_flush_entry(h, p));
                lemma_entry_found(h, p);
                if exact {
                    lemma_sf_reading(self.cards@, p);
                }
            }
            return Some(p);
        }
        let fours = self.four_of_a_kinds();
        if fours.len() > 0 {
            let p = best_of(&fours);
            proof {
                let k = choose|k: int| 0 <= k < fours@.len() && p.eqv(#[trigger] fours@[k]);
                assert(four_entry(h, p));
                lemma_entry_found(h, p);
                if exact {
                    assert(!strait_flush_shape(h)) by {
                        if strait_flush_shape(h) {
                            lemma_strait_window(h);
                        }
                    }
                    lemma_four_reading(self.cards@, p);
                }
            }
            return Some(p);
        }
        let houses = self.full_houses();
        if houses.len() > 0 {
            let p = best_of(&houses);
            proof {
                let k = choose|k: int| 0 <= k < houses@.len() && p.eqv(#[trigger] houses@[k]);
                assert(house_entry(h, p));
                lemma_entry_found(h, p);
                if exact {
                    assert(!strait_flush_shape(h)) by {
                        if strait_flush_shape(h) {
                            lemma_strait_window(h);
                        }
                    }
                    assert(!four_shape(h)) by {
                        if four_shape(h) {
                            lemma_four_block(h);
                        }
                    }
                    lemma_house_reading(self.cards@, p);
                }
            }
            return Some(p);
        }
        let flushes = self.flushes();
        if flushes.len() > 0 {
            let p = best_of(&flushes);
            proof {
                let k = choose|k: int| 0 <= k < flushes@.len() && p.eqv(#[trigger] flushes@[k]);
                assert(flush_entry(h, p));
                lemma_entry_found(h, p);
                if exact {
                    assert(!strait_flush_shape(h)) by {
                        if strait_flush_shape(h) {
                            lemma_strait_window(h);
                        }
                    }
                    assert(!four_shape(h)) by {
                        if four_shape(h) {
                            lemma_four_block(h);
                        }
                    }
                    assert(!house_shape(h)) by {
                        if house_shape(h) {
                            lemma_house_blocks(h);
                        }
                    }
                    lemma_flush_reading(self.cards@, p);
                }
            }
            return Some(p);
        }
        let straits = self.straits();
        if straits.len() > 0 {
            let p = best_of(&straits);
            proof {
                let k = choose|k: int| 0 <= k < straits@.len() && p.eqv(#[trigger] straits@[k]);
                assert(strait_entry(h, p));
                lemma_entry_found(h, p);
                if exact {
                    assert(!strait_flush_shape(h)) by {
                        if strait_flush_shape(h) {
                            lemma_strait_window(h);
                        }
                    }
                    assert(!four_shape(h)) by {
                        if four_shape(h) {
                            lemma_four_block(h);
                        }
                    }
                    assert(!house_shape(h)) by {
                        if house_shape(h) {
                            lemma_house_blocks(h);
                        }
                    }
                    assert(!flush_shape(h)) by {
                        if flush_shape(h) {
                            lemma_flush_block(h);
                        }
                    }
                    lemma_strait_reading(self.cards@, p);
                }
            }
            return Some(p);
        }
        proof {
            if exact {
                assert(!strait_flush_shape(h)) by {
                    if strait_flush_shape(h) {
                        lemma_strait_window(h);
                    }
                }
                assert(!four_shape(h)) by {
                    if four_shape(h) {
                        lemma_four_block(h);
                    }
                }
                assert(!house_shape(h)) by {
                    if house_shape(h) {
                        lemma_house_blocks(h);
                    }
                }
                assert(!flush_shape(h)) by {
                    if flush_shape(h) {
                        lemma_flush_block(h);
                    }
                }
                assert(!strait_shape(h)) by {
                    if strait_shape(h) {
                        lemma_strait_window(h);
                    }
                }
            }
        }
        None
    }
}


/// An exact card selection that reads as a play: nothing, one card, two
/// of one rank, or five cards matching a five-card category.
pub open spec fn inferable(s: Seq<Card>) -> bool {
    ||| s.len() == 0
    ||| s.len() == 1
    ||| (s.len() == 2 && s[0].rank == s[1].rank)
    ||| (s.len() == 5 && five_shape(s))
}

/// Filtering commutes with forgetting the order.
pub proof fn lemma_filter_ms(s: Seq<Card>, pred: spec_fn(Card) -> bool)
    ensures
        s.filter(pred).to_multiset() == s.to_multiset().filter(pred),
    decreases s.len(),
{
    broadcast use vstd::seq_lib::group_to_multiset_ensures;
    broadcast use vstd::multiset::group_multiset_axioms;

    reveal(Seq::filter);
    if s.len() == 0 {
        assert(s.filter(pred).to_multiset() =~= s.to_multiset().filter(pred));
    } else {
        let d = s.drop_last();
        let x = s.last();
        lemma_filter_ms(d, pred);
        assert(d.push(x) =~= s);
        assert(s.to_multiset() == d.to_multiset().insert(x));
        if pred(x) {
            assert(s.filter(pred) == d.filter(pred).push(x));
            assert(s.filter(pred).to_multiset() == d.filter(pred).to_multiset().insert(x));
        }
        assert(s.filter(pred).to_multiset() =~= s.to_multiset().filter(pred));
    }
}

/// Two arrangements of the same cards filter to the same number of each
/// rank.
pub proof fn lemma_count_rank_perm(s: Seq<Card>, t: Seq<Card>, r: int)
    requires
        s.to_multiset() == t.to_multiset(),
    ensures
        count_rank(s, r) == count_rank(t, r),
        rank_filter(s, r).to_multiset() == rank_filter(t, r).to_multiset(),
{
    broadcast use vstd::seq_lib::group_to_multiset_ensures;

    lemma_filter_ms(s, rank_pred(r));
    lemma_filter_ms(t, rank_pred(r));
    assert(rank_filter(s, r).len() == rank_filter(s, r).to_multiset().len());
    assert(rank_filter(t, r).len() == rank_filter(t, r).to_multiset().len());
}

/// A rank occurs among the cards exactly when its block is non-empty.
pub proof fn lemma_has_rank_count(s: Seq<Card>, r: int)
    ensures
        has_rank(s, r) <==> count_rank(s, r) >= 1,
{
    broadcast use vstd::seq_lib::group_filter_ensures;

    if has_rank(s, r) {
        lemma_has_rank_filter(s, r);
    }
    if count_rank(s, r) >= 1 {
        let f = rank_filter(s, r);
        assert(f.contains(f[0]));
        lemma_in_filter(s, rank_pred(r), f[0]);
        let w = choose|w: int| 0 <= w < s.len() && s[w] == f[0];
        assert(rank_index_spec(s[w].rank) == r);
    }
}

/// The five-card shapes, the category priority and the designated
/// ranking card depend only on which cards are picked, not on their
/// arrangement.
pub proof fn lemma_shapes_perm(s: Seq<Card>, t: Seq<Card>)
    requires
        s.to_multiset() == t.to_multiset(),
    ensures
        s.len() == t.len(),
        all_same_suit(s) == all_same_suit(t),
        strait_shape(s) == strait_shape(t),
        flush_shape(s) == flush_shape(t),
        strait_flush_shape(s) == strait_flush_shape(t),
        four_shape(s) == four_shape(t),
        house_shape(s) == house_shape(t),
        five_shape(s) == five_shape(t),
        five_kind(s) == five_kind(t),
        s.len() == 5 && five_shape(s) ==> five_ranking(s) == five_ranking(t),
        s.len() >= 1 ==> max_card_spec(s) == max_card_spec(t),
{
    broadcast use vstd::seq_lib::group_to_multiset_ensures;

    assert(s.len() == s.to_multiset().len());
    assert(t.len() == t.to_multiset().len());
    assert forall|c: Card| s.contains(c) <==> t.contains(c) by {
        assert(s.contains(c) <==> s.to_multiset().count(c) > 0);
        assert(t.contains(c) <==> t.to_multiset().count(c) > 0);
    }
    assert(all_same_suit(s) == all_same_suit(t)) by {
        if all_same_suit(s) {
            assert forall|i: int, j: int|
                0 <= i < t.len() && 0 <= j < t.len() implies t[i].suit == t[j].suit by {
                assert(t.contains(t[i]) && t.contains(t[j]));
                assert(s.contains(t[i]) && s.contains(t[j]));
                let wi = choose|w: int| 0 <= w < s.len() && s[w] == t[i];
                let wj = choose|w: int| 0 <= w < s.len() && s[w] == t[j];
            }
        }
        if all_same_suit(t) {
            assert forall|i: int, j: int|
                0 <= i < s.len() && 0 <= j < s.len() implies s[i].suit == s[j].suit by {
                assert(t.contains(s[i]) && t.contains(s[j]));
                let wi = choose|w: int| 0 <= w < t.len() && t[w] == s[i];
                let wj = choose|w: int| 0 <= w < t.len() && t[w] == s[j];
            }
        }
    }
    assert forall|r: int| count_rank(s, r) == count_rank(t, r) by {
        lemma_count_rank_perm(s, t, r);
    }
    assert forall|r: int| has_rank(s, r) == has_rank(t, r) by {
        lemma_has_rank_count(s, r);
        lemma_has_rank_count(t, r);
    }
    assert(strait_shape(s) == strait_shape(t)) by {
        assert forall|start: int| covers_window(s, start) == covers_window(t, start) by {
            assert(has_rank(s, start % 13) == has_rank(t, start % 13));
            assert(has_rank(s, (start + 1) % 13) == has_rank(t, (start + 1) % 13));
            assert(has_rank(s, (start + 2) % 13) == has_rank(t, (start + 2) % 13));
            assert(has_rank(s, (start + 3) % 13) == has_rank(t, (start + 3) % 13));
            assert(has_rank(s, (start + 4) % 13) == has_rank(t, (start + 4) % 13));
        }
    }
    if s.len() >= 1 {
        lemma_max_same_set(s, t);
    }
    if s.len() == 5 && five_shape(s) {
        assert(five_ranking(s) == five_ranking(t)) by {
            if strait_flush_shape(s) || !four_shape(s) && !house_shape(s) {
            } else if four_shape(s) {
                let rs = choose|r: int| 0 <= r < 13 && count_rank(s, r) >= 4;
                let rt = choose|r: int| 0 <= r < 13 && count_rank(t, r) >= 4;
                assert(rs == rt) by {
                    if rs != rt {
                        lemma_rank_preds_disjoint(rs, rt);
                        lemma_filter_disjoint_sum(s, rank_pred(rs), rank_pred(rt));
                        assert(count_rank(s, rt) >= 4);
                    }
                }
                lemma_count_rank_perm(s, t, rs);
                lemma_rank_filter_max_perm(s, t, rs);
            } else {
                let rs = choose|r: int| 0 <= r < 13 && count_rank(s, r) >= 3;
                let rt = choose|r: int| 0 <= r < 13 && count_rank(t, r) >= 3;
                assert(rs == rt) by {
                    if rs != rt {
                        lemma_rank_preds_disjoint(rs, rt);
                        lemma_filter_disjoint_sum(s, rank_pred(rs), rank_pred(rt));
                        assert(count_rank(s, rt) >= 3);
                    }
                }
                lemma_count_rank_perm(s, t, rs);
                lemma_rank_filter_max_perm(s, t, rs);
            }
        }
    }
}

/// Two arrangements of the same cards agree on the highest card of any
/// non-empty rank block.
pub proof fn lemma_rank_filter_max_perm(s: Seq<Card>, t: Seq<Card>, r: int)
    requires
        s.to_multiset() == t.to_multiset(),
        count_rank(s, r) >= 1,
    ensures
        max_card_spec(rank_filter(s, r)) == max_card_spec(rank_filter(t, r)),
{
    broadcast use vstd::seq_lib::group_to_multiset_ensures;

    lemma_count_rank_perm(s, t, r);
    let fs = rank_filter(s, r);
    let ft = rank_filter(t, r);
    assert forall|c: Card| fs.contains(c) <==> ft.contains(c) by {
        assert(fs.contains(c) <==> fs.to_multiset().count(c) > 0);
        assert(ft.contains(c) <==> ft.to_multiset().count(c) > 0);
    }
    assert(cards_from(fs, ft)) by {
        assert forall|i: int| 0 <= i < fs.len() implies ft.contains(#[trigger] fs[i]) by {
            assert(fs.contains(fs[i]));
        }
    }
    assert(cards_from(ft, fs)) by {
        assert forall|i: int| 0 <= i < ft.len() implies fs.contains(#[trigger] ft[i]) by {
            assert(ft.contains(ft[i]));
        }
    }
    lemma_max_same_set(fs, ft);
}

impl Finder {
    /// Reads the exact card selection the finder was built over as a
    /// single play, if it forms one: nothing is a Pass, one card a
    /// Single, two cards of one rank a Pair, and five cards the
    /// highest-priority five-card category they match. Any other
    /// selection is no play.
    pub fn infer(&self) -> (r: Option<Play>)
        requires
            self.wf(),
        ensures
            self.cards@.len() == 0 ==> (r matches Some(p) && p.spec_kind() is Pass && p.wf()
                && p.spec_cards().len() == 0),
            self.cards@.len() == 1 ==> (r matches Some(p) && p.spec_kind() is Single && p.wf()
                && p.spec_ranking() == Some(self.cards@[0]) && p.spec_cards() == self.cards@),
            self.cards@.len() == 2 && self.cards@[0].rank == self.cards@[1].rank ==> (r matches Some(p)
                && p.spec_kind() is Pair && p.wf() && p.spec_ranking() == Some(self.cards@[1])
                && p.spec_cards() == self.cards@),
            self.cards@.len() == 2 && self.cards@[0].rank != self.cards@[1].rank ==> r is None,
            !(self.cards@.len() == 0 || self.cards@.len() == 1 || self.cards@.len() == 2
                || self.cards@.len() == 5) ==> r is None,
            self.cards@.len() == 5 ==> (r matches Some(p) ==> found_play(self.cards@, p)
                && any_entry(self.cards@, p) && kind_len_spec(p.spec_kind()) == 5),
            self.cards@.len() == 5 && self.cards@.no_duplicates() ==> {
                &&& (r is Some <==> five_shape(self.cards@))
                &&& (r matches Some(p) ==> {
                    &&& p.spec_kind() == five_kind(self.cards@)
                    &&& p.spec_ranking() == Some(five_ranking(self.cards@))
                    &&& cards_from(p.spec_cards(), self.cards@)
                    &&& cards_from(self.cards@, p.spec_cards())
                    &&& p.spec_cards().no_duplicates()
                })
            },
    {
        let n = self.cards.len();
        if n == 0 {
            Some(Play::pass())
        } else if n == 1 {
            let c = self.cards[0];
            let mut cs: Vec<Card> = Vec::new();
            cs.push(c);
            proof {
                assert(cs@ =~= self.cards@);
                assert(self.cards@.contains(self.cards@[0]));
            }
            Some(Play::new(PlayKind::Single, c, cs))
        } else if n == 2 {
            if self.cards[0].rank.index() == self.cards[1].rank.index() {
                proof {
                    crate::card::lemma_rank_index_injective(
                        self.cards@[0].rank,
                        self.cards@[1].rank,
                    );
                }
                let ranking = self.cards[1];
                let cs = self.cards.clone();
                proof {
                    assert(cs@ == self.cards@);
                    assert(self.cards@.contains(self.cards@[1]));
                }
                Some(Play::new(PlayKind::Pair, ranking, cs))
            } else {
                proof {
                    crate::card::lemma_rank_index_injective(
                        self.cards@[0].rank,
                        self.cards@[1].rank,
                    );
                }
                None
            }
        } else if n == 5 {
            let r = self.max_five_of_a_kind();
            proof {
                if r is Some {
                    lemma_entry_found(self.cards@, r->Some_0);
                }
            }
            r
        } else {
            None
        }
    }
}


/// Two arrangements of the same two cards are equal or swapped.
pub proof fn lemma_pair_perm(s: Seq<Card>, t: Seq<Card>)
    requires
        s.len() == 2,
        t.len() == 2,
        s.to_multiset() == t.to_multiset(),
    ensures
        (s[0] == t[0] && s[1] == t[1]) || (s[0] == t[1] && s[1] == t[0]),
{
    broadcast use vstd::seq_lib::group_to_multiset_ensures;
    broadcast use vstd::multiset::group_multiset_axioms;
    broadcast use vstd::multiset::group_multiset_properties;

    let e = Seq::<Card>::empty();
    assert(s =~= e.push(s[0]).push(s[1]));
    assert(t =~= e.push(t[0]).push(t[1]));
    assert(e.push(s[0]).to_multiset() =~= e.to_multiset().insert(s[0]));
    assert(s.to_multiset() =~= e.to_multiset().insert(s[0]).insert(s[1]));
    assert(e.push(t[0]).to_multiset() =~= e.to_multiset().insert(t[0]));
    assert(t.to_multiset() =~= e.to_multiset().insert(t[0]).insert(t[1]));
    let ms = s.to_multiset();
    assert(e.to_multiset().count(s[0]) == 0);
    assert(e.to_multiset().count(s[1]) == 0);
    assert(e.to_multiset().count(t[0]) == 0);
    assert(e.to_multiset().count(t[1]) == 0);
    assert(ms.count(s[0]) == 1 + (if s[1] == s[0] { 1int } else { 0int }));
    assert(ms.count(s[1]) == (if s[0] == s[1] { 1int } else { 0int }) + 1);
    assert(ms.count(t[0]) == (if t[0] == t[0] { 1int } else { 0int }) + (if t[1] == t[0] {
        1int
    } else {
        0int
    }));
    assert(ms.count(t[1]) == (if t[0] == t[1] { 1int } else { 0int }) + 1);
}

/// Membership carries across arrangements of the same cards.
pub proof fn lemma_cards_from_perm(sub: Seq<Card>, mid: Seq<Card>, sup: Seq<Card>)
    requires
        cards_from(sub, mid),
        mid.to_multiset() == sup.to_multiset(),
    ensures
        cards_from(sub, sup),
{
    broadcast use vstd::seq_lib::group_to_multiset_ensures;

    assert forall|i: int| 0 <= i < sub.len() implies sup.contains(#[trigger] sub[i]) by {
        assert(mid.contains(sub[i]));
        assert(mid.to_multiset().count(sub[i]) > 0);
    }
}

/// What the inference promises of an exact card selection, stated over
/// the selection as proposed: nothing reads as a Pass; one card as a
/// Single of that card; two cards of one rank as a Pair ranked by the
/// higher; five pairwise-distinct cards as the highest-priority matching
/// five-card category, ranked by that category's designated card, and as
/// nothing if they match no category; every other selection reads as
/// nothing.
pub open spec fn infer_post(c: Seq<Card>, r: Option<Play>) -> bool {
    &&& (c.len() == 0 ==> (r matches Some(p) && p.spec_kind() is Pass && p.wf()
        && p.spec_cards().len() == 0))
    &&& (c.len() == 1 ==> (r matches Some(p) && p.spec_kind() is Single && p.wf()
        && p.spec_ranking() == Some(c[0]) && p.spec_cards() == c))
    &&& (c.len() == 2 && c[0].rank == c[1].rank ==> (r matches Some(p) && p.spec_kind() is Pair
        && p.wf() && p.spec_ranking() == Some(max_card_spec(c)) && p.spec_cards().to_multiset()
        == c.to_multiset()))
    &&& (c.len() == 2 && c[0].rank != c[1].rank ==> r is None)
    &&& (!(c.len() == 0 || c.len() == 1 || c.len() == 2 || c.len() == 5) ==> r is None)
    &&& (c.len() == 5 ==> (r matches Some(p) ==> p.wf() && !(p.spec_kind() is Pass)
        && kind_len_spec(p.spec_kind()) == 5 && cards_from(p.spec_cards(), c) && play_shape(p)))
    &&& (c.len() == 5 && c.no_duplicates() ==> {
        &&& (r is Some <==> five_shape(c))
        &&& (r matches Some(p) ==> {
            &&& p.spec_kind() == five_kind(c)
            &&& p.spec_ranking() == Some(five_ranking(c))
            &&& cards_from(p.spec_cards(), c)
            &&& cards_from(c, p.spec_cards())
            &&& p.spec_cards().no_duplicates()
        })
    })
    &&& (r matches Some(p) ==> p.wf() && cards_from(p.spec_cards(), c)
        && kind_len_spec(p.spec_kind()) == c.len())
}


/// How many copies of the card the collection holds.
pub fn count_card(v: &Vec<Card>, c: Card) -> (n: usize)
    ensures
        n as nat == v@.to_multiset().count(c),
{
    broadcast use vstd::seq_lib::group_to_multiset_ensures;

    let mut n: usize = 0;
    let mut i: usize = 0;
    proof {
        assert(v@.take(0) =~= Seq::<Card>::empty());
        assert(v@.take(0).to_multiset() =~= Multiset::<Card>::empty());
    }
    while i < v.len()
        invariant
            i <= v@.len(),
            n <= i,
            n as nat == v@.take(i as int).to_multiset().count(c),
        decreases v@.len() - i,
    {
        proof {
            assert(v@.take(i as int + 1) =~= v@.take(i as int).push(v@[i as int]));
            assert(v@.take(i as int + 1).to_multiset() == v@.take(i as int).to_multiset().insert(
                v@[i as int],
            ));
        }
        if v[i] == c {
            n += 1;
        }
        i += 1;
    }
    proof {
        assert(v@.take(v@.len() as int) =~= v@);
    }
    n
}

/// Whether the first collection holds every card of the second at least
/// as often as the second proposes it.
pub fn holds_all_counts(sup: &Vec<Card>, sub: &Vec<Card>) -> (r: bool)
    ensures
        r == sub@.to_multiset().subset_of(sup@.to_multiset()),
{
    broadcast use vstd::seq_lib::group_to_multiset_ensures;
    broadcast use vstd::multiset::group_multiset_axioms;

    let mut i: usize = 0;
    while i < sub.len()
        invariant
            i <= sub@.len(),
            forall|k: int|
                0 <= k < i ==> sub@.to_multiset().count(#[trigger] sub@[k])
                    <= sup@.to_multiset().count(sub@[k]),
        decreases sub@.len() - i,
    {
        let c = sub[i];
        if count_card(sub, c) > count_card(sup, c) {
            proof {
                assert(!sub@.to_multiset().subset_of(sup@.to_multiset()));
            }
            return false;
        }
        i += 1;
    }
    proof {
        assert forall|v: Card|
            #[trigger] sub@.to_multiset().count(v) <= sup@.to_multiset().count(v) by {
            if sub@.to_multiset().count(v) > 0 {
                assert(sub@.contains(v));
                let w = choose|w: int| 0 <= w < sub@.len() && sub@[w] == v;
            }
        }
    }
    true
}

/// The category an exact selection of pairwise-distinct cards reads as.
pub open spec fn proposal_kind(c: Seq<Card>) -> PlayKind {
    if c.len() == 0 {
        PlayKind::Pass
    } else if c.len() == 1 {
        PlayKind::Single
    } else if c.len() == 2 {
        PlayKind::Pair
    } else {
        five_kind(c)
    }
}

/// The ranking card an exact selection of pairwise-distinct cards reads
/// as carrying.
pub open spec fn proposal_ranking(c: Seq<Card>) -> Card {
    if c.len() == 1 {
        c[0]
    } else if c.len() == 2 {
        max_card_spec(c)
    } else {
        five_ranking(c)
    }
}

/// Over pairwise-distinct cards the inference is exact: it succeeds on
/// just the recognizable selections, reads them as exactly the proposed
/// cards, and designates the category and ranking card of the proposal.
pub proof fn lemma_proposal_reading(c: Seq<Card>, r: Option<Play>)
    requires
        infer_post(c, r),
        c.no_duplicates(),
    ensures
        (r is Some) <==> inferable(c),
        r matches Some(p) ==> {
            &&& p.wf()
            &&& p.spec_kind() == proposal_kind(c)
            &&& (c.len() != 0 ==> p.spec_ranking() == Some(proposal_ranking(c)))
            &&& ((p.spec_kind() is Pass) <==> c.len() == 0)
            &&& cards_from(p.spec_cards(), c)
            &&& cards_from(c, p.spec_cards())
            &&& p.spec_cards().no_duplicates()
            &&& kind_len_spec(p.spec_kind()) == c.len()
        },
{
    broadcast use vstd::seq_lib::group_to_multiset_ensures;

    if c.len() == 0 {
        let p = r->Some_0;
        assert(cards_from(p.spec_cards(), c));
        assert(cards_from(c, p.spec_cards()));
        assert(p.spec_cards().no_duplicates());
    } else if c.len() == 1 {
        let p = r->Some_0;
        assert(cards_from(p.spec_cards(), c)) by {
            assert(p.spec_cards()[0] == c[0]);
            assert(c.contains(c[0]));
        }
        assert(cards_from(c, p.spec_cards())) by {
            assert(p.spec_cards().contains(p.spec_cards()[0]));
        }
    } else if c.len() == 2 {
        if c[0].rank == c[1].rank {
            let p = r->Some_0;
            assert(p.spec_cards().to_multiset() == c.to_multiset());
            assert(p.spec_cards().len() == p.spec_cards().to_multiset().len());
            assert(c.len() == c.to_multiset().len());
            assert(cards_from(p.spec_cards(), c)) by {
                assert forall|i: int| 0 <= i < p.spec_cards().len() implies c.contains(
                    #[trigger] p.spec_cards()[i],
                ) by {
                    assert(p.spec_cards().contains(p.spec_cards()[i]));
                    assert(c.to_multiset().count(p.spec_cards()[i]) > 0);
                }
            }
            assert(cards_from(c, p.spec_cards())) by {
                assert forall|i: int| 0 <= i < c.len() implies p.spec_cards().contains(
                    #[trigger] c[i],
                ) by {
                    assert(c.contains(c[i]));
                    assert(p.spec_cards().to_multiset().count(c[i]) > 0);
                }
            }
            assert(p.spec_cards().no_duplicates()) by {
                c.lemma_multiset_has_no_duplicates();
                p.spec_cards().lemma_multiset_has_no_duplicates_conv();
            }
        }
    }
}


// ---------------------------------------------------------------------------
// Laws of the finder.
// ---------------------------------------------------------------------------

/// For every hand, every play the finder produces has a card count
/// matching its kind's fixed length, and all of its cards are members of
/// the input hand.
pub proof fn lemma_produced_play_sound(hand: Seq<Card>, p: Play)
    requires
        any_entry(hand, p),
    ensures
        p.spec_cards().len() == kind_len_spec(p.spec_kind()),
        cards_from(p.spec_cards(), hand),
        play_shape(p),
{
    lemma_entry_found(hand, p);
}

/// The thirteen-card boundary: no recognized category consists of
/// thirteen cards, so the exact-match inference on a full thirteen-card
/// hand yields nothing, in agreement with the enumeration, which never
/// produces a thirteen-card play.
pub proof fn lemma_thirteen_card_boundary(c: Seq<Card>, r: Option<Play>, hand: Seq<Card>, p: Play)
    requires
        c.len() == 13,
        infer_post(c, r),
        any_entry(hand, p),
    ensures
        r is None,
        p.spec_cards().len() != 13,
{
    lemma_entry_found(hand, p);
    assert(kind_len_spec(p.spec_kind()) == 1 || kind_len_spec(p.spec_kind()) == 2
        || kind_len_spec(p.spec_kind()) == 5);
}

} // verus!
