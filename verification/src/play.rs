//! A play: a grouping of cards put on the table together, tagged with its
//! category (kind) and the designated ranking card used to compare it with
//! other plays of the same kind.

use vstd::prelude::*;

use crate::card::{card_value_spec, Card};
use crate::finder::Finder;

verus! {

/// The category of a play. Each kind has a fixed card count (Pass 0,
/// Single 1, Pair 2, every five-card kind 5). The declaration order is the
/// game's order on kinds: when two five-card plays are compared, a later
/// kind beats an earlier one.
#[derive(Copy, Clone, PartialEq, Eq, Structural, Debug, Hash)]
pub enum PlayKind {
    Pass,
    Single,
    Pair,
    Strait,
    Flush,
    FullHouse,
    FourOfAKind,
    StraitFlush,
}

/// The position of a kind in the game's order on kinds.
pub open spec fn kind_index_spec(k: PlayKind) -> int {
    match k {
        PlayKind::Pass => 0,
        PlayKind::Single => 1,
        PlayKind::Pair => 2,
        PlayKind::Strait => 3,
        PlayKind::Flush => 4,
        PlayKind::FullHouse => 5,
        PlayKind::FourOfAKind => 6,
        PlayKind::StraitFlush => 7,
    }
}

/// The fixed number of cards a play of this kind consists of.
pub open spec fn kind_len_spec(k: PlayKind) -> int {
    match k {
        PlayKind::Pass => 0,
        PlayKind::Single => 1,
        PlayKind::Pair => 2,
        PlayKind::Strait => 5,
        PlayKind::Flush => 5,
        PlayKind::FullHouse => 5,
        PlayKind::FourOfAKind => 5,
        PlayKind::StraitFlush => 5,
    }
}

impl PlayKind {
    /// The fixed number of cards a play of this kind consists of.
    pub fn len(self) -> (n: usize)
        ensures
            n as int == kind_len_spec(self),
    {
        match self {
            PlayKind::Pass => 0,
            PlayKind::Single => 1,
            PlayKind::Pair => 2,
            PlayKind::Strait => 5,
            PlayKind::Flush => 5,
            PlayKind::FullHouse => 5,
            PlayKind::FourOfAKind => 5,
            PlayKind::StraitFlush => 5,
        }
    }

    /// The position of this kind in the game's order on kinds.
    pub fn index(self) -> (i: u8)
        ensures
            i as int == kind_index_spec(self),
    {
        match self {
            PlayKind::Pass => 0,
            PlayKind::Single => 1,
            PlayKind::Pair => 2,
            PlayKind::Strait => 3,
            PlayKind::Flush => 4,
            PlayKind::FullHouse => 5,
            PlayKind::FourOfAKind => 6,
            PlayKind::StraitFlush => 7,
        }
    }
}

/// A play: the cards comprising it, its kind, and the ranking card used to
/// break ties between two plays of the same kind. Pass has no ranking card.
#[derive(PartialEq, Eq, Debug, Hash)]
pub struct Play {
    pub cards: Vec<Card>,
    pub kind: PlayKind,
    pub ranking_card: Option<Card>,
}

impl Clone for Play {
    /// Cloning a play preserves its kind, ranking card and card sequence.
    fn clone(&self) -> (r: Self)
        ensures
            r.eqv(*self),
    {
        let r = Play {
            cards: self.cards.clone(),
            kind: self.kind,
            ranking_card: self.ranking_card,
        };
        proof {
            assert(r.cards@ =~= self.cards@);
        }
        r
    }
}

impl Play {
    /// Observational equality of plays: same kind, same ranking card, same
    /// card sequence. (Cloning a play yields an equivalent play.)
    pub open spec fn eqv(self, other: Play) -> bool {
        &&& self.cards@ == other.cards@
        &&& self.kind == other.kind
        &&& self.ranking_card == other.ranking_card
    }

    /// The cards comprising this play, in the order they were assembled.
    pub open spec fn spec_cards(self) -> Seq<Card> {
        self.cards@
    }

    /// The kind of this play.
    pub open spec fn spec_kind(self) -> PlayKind {
        self.kind
    }

    /// The ranking card of this play, None exactly for Pass.
    pub open spec fn spec_ranking(self) -> Option<Card> {
        self.ranking_card
    }

    /// Well-formedness: the card count matches the kind's fixed length,
    /// Pass and only Pass lacks a ranking card, and the ranking card is one
    /// of the play's cards.
    pub open spec fn wf(self) -> bool {
        &&& self.cards@.len() == kind_len_spec(self.kind)
        &&& ((self.kind is Pass) <==> (self.ranking_card is None))
        &&& (self.ranking_card matches Some(c) ==> self.cards@.contains(c))
    }

    /// Builds a non-Pass play from its parts.
    pub fn new(kind: PlayKind, ranking_card: Card, cards: Vec<Card>) -> (p: Play)
        ensures
            p.spec_kind() == kind,
            p.spec_ranking() == Some(ranking_card),
            p.spec_cards() == cards@,
    {
        Play { cards, kind, ranking_card: Some(ranking_card) }
    }

    /// The Pass play: no cards, no ranking card.
    pub fn pass() -> (p: Play)
        ensures
            p.spec_kind() is Pass,
            p.spec_ranking() is None,
            p.spec_cards() == Seq::<Card>::empty(),
            p.wf(),
    {
        let p = Play { cards: Vec::new(), kind: PlayKind::Pass, ranking_card: None };
        proof {
            assert(p.cards@ =~= Seq::<Card>::empty());
        }
        p
    }

    /// Whether this play is a Pass.
    pub fn is_pass(&self) -> (r: bool)
        ensures
            r == (self.spec_kind() is Pass),
    {
        matches!(self.kind, PlayKind::Pass)
    }

    /// Whether this play's kind calls for the same card count as the other's.
    pub fn len_eq(&self, other: &Play) -> (r: bool)
        ensures
            r == (kind_len_spec(self.spec_kind()) == kind_len_spec(other.spec_kind())),
    {
        self.kind.len() == other.kind.len()
    }

    /// The kind of this play.
    pub fn kind(&self) -> (k: PlayKind)
        ensures
            k == self.spec_kind(),
    {
        self.kind
    }

    /// The ranking card of this play, None exactly for Pass.
    pub fn ranking_card(&self) -> (r: Option<Card>)
        ensures
            r == self.spec_ranking(),
    {
        self.ranking_card
    }

    /// Consumes the play, yielding its cards.
    pub fn into_cards(self) -> (cards: Vec<Card>)
        ensures
            cards@ == self.spec_cards(),
    {
        self.cards
    }

    /// The cards comprising this play.
    pub fn cards(&self) -> (cards: &Vec<Card>)
        ensures
            cards@ == self.spec_cards(),
    {
        &self.cards
    }

    /// Re-tags this play with another kind, keeping cards and ranking card.
    /// (The finder uses this to turn a monochromatic strait into a strait
    /// flush.)
    pub fn replace_kind(&mut self, kind: PlayKind)
        ensures
            final(self).spec_kind() == kind,
            final(self).spec_cards() == old(self).spec_cards(),
            final(self).spec_ranking() == old(self).spec_ranking(),
    {
        self.kind = kind;
    }

    /// Whether this play may be put on top of `other` (a non-Pass play of
    /// the table): a Pass always may; otherwise the card counts must agree
    /// and this play must outrank `other`.
    pub fn can_play_on(&self, other: &Play) -> (r: bool)
        requires
            self.wf(),
            other.wf(),
            !(other.spec_kind() is Pass),
        ensures
            r == can_play_on_spec(*self, *other),
    {
        if self.is_pass() {
            return true;
        }

        if self.kind.len() != other.kind.len() {
            false
        } else if self.kind.index() != other.kind.index() {
            self.kind.index() > other.kind.index()
        } else {
            let my_rank = self.ranking_card.unwrap();
            let other_rank = other.ranking_card.unwrap();
            my_rank.numeric_value() > other_rank.numeric_value()
        }
    }
}

/// Whether play `a` may be put on top of play `b`: a Pass always may;
/// otherwise the card counts must agree and `a` must outrank `b`, meaning
/// `a`'s kind comes later in the order on kinds, or the kinds are equal and
/// `a`'s ranking card is the higher.
pub open spec fn can_play_on_spec(a: Play, b: Play) -> bool {
    if a.spec_kind() is Pass {
        true
    } else if kind_len_spec(a.spec_kind()) != kind_len_spec(b.spec_kind()) {
        false
    } else {
        outranks_spec(a, b)
    }
}

/// The strict order on non-Pass plays of equal card count: compare kinds
/// first, then the ranking cards.
pub open spec fn outranks_spec(a: Play, b: Play) -> bool {
    if a.spec_kind() != b.spec_kind() {
        kind_index_spec(a.spec_kind()) > kind_index_spec(b.spec_kind())
    } else {
        card_value_spec(a.spec_ranking()->Some_0) > card_value_spec(b.spec_ranking()->Some_0)
    }
}

/// Two non-Pass plays agree in kind and rank: they compare as equal even if
/// the remaining cards differ.
pub open spec fn same_kind_and_rank_spec(a: Play, b: Play) -> bool {
    &&& a.spec_kind() == b.spec_kind()
    &&& card_value_spec(a.spec_ranking()->Some_0) == card_value_spec(b.spec_ranking()->Some_0)
}

/// The order on plays of equal card count is a strict total order: for any
/// two non-Pass well-formed plays whose kinds call for the same card count,
/// exactly one of "A outranks B", "B outranks A", "A and B agree in kind and
/// rank" holds.
pub proof fn lemma_outranks_trichotomy(a: Play, b: Play)
    requires
        a.wf(),
        b.wf(),
        !(a.spec_kind() is Pass),
        !(b.spec_kind() is Pass),
        kind_len_spec(a.spec_kind()) == kind_len_spec(b.spec_kind()),
    ensures
        outranks_spec(a, b) || outranks_spec(b, a) || same_kind_and_rank_spec(a, b),
        !(outranks_spec(a, b) && outranks_spec(b, a)),
        !(outranks_spec(a, b) && same_kind_and_rank_spec(a, b)),
        !(outranks_spec(b, a) && same_kind_and_rank_spec(a, b)),
{
}


impl Play {
    /// Reads an exact card selection as a play, if it forms one. The
    /// selection's order does not matter: the cards are grouped and
    /// ranked as a set.
    pub fn infer_from_cards(cards: Vec<Card>) -> (r: Option<Play>)
        ensures
            crate::finder::infer_post(cards@, r),
    {
        let ghost c = cards@;
        let finder = Finder::new(cards);
        let ghost h = finder.cards@;
        let r = finder.infer();
        proof {
            broadcast use vstd::seq_lib::group_to_multiset_ensures;

            crate::finder::lemma_shapes_perm(h, c);
            if c.len() == 1 {
                assert(h.to_multiset().count(c[0]) > 0);
                assert(h.contains(c[0]));
                assert(h[0] == c[0]);
                assert(h == c) by {
                    assert(h =~= c);
                }
            }
            if c.len() == 2 {
                crate::finder::lemma_pair_perm(h, c);
                assert(h[0].rank == h[1].rank <==> c[0].rank == c[1].rank);
                if c[0].rank == c[1].rank {
                    crate::finder::lemma_max_sorted(h);
                    crate::finder::lemma_max_same_set(h, c);
                    assert(h.last() == h[1]);
                }
            }
            if c.len() == 5 {
                if c.no_duplicates() {
                    c.lemma_multiset_has_no_duplicates();
                    h.lemma_multiset_has_no_duplicates_conv();
                    assert(h.no_duplicates());
                }
                if r is Some {
                    let p = r->Some_0;
                    crate::finder::lemma_cards_from_perm(p.spec_cards(), h, c);
                    if c.no_duplicates() && crate::finder::cards_from(h, p.spec_cards()) {
                        assert(crate::finder::cards_from(c, p.spec_cards())) by {
                            assert forall|i: int|
                                0 <= i < c.len() implies p.spec_cards().contains(
                                #[trigger] c[i],
                            ) by {
                                assert(c.to_multiset().count(c[i]) > 0);
                                assert(h.contains(c[i]));
                                let w = choose|w: int| 0 <= w < h.len() && h[w] == c[i];
                            }
                        }
                    }
                }
            }
            if r is Some {
                let p = r->Some_0;
                crate::finder::lemma_cards_from_perm(p.spec_cards(), h, c);
            }
        }
        r
    }
}

} // verus!
