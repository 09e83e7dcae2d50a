//! The turn-legality state machine: owns one hand per seat and the table
//! state, validates proposed plays, applies them, and detects the end of
//! the game.

use vstd::prelude::*;
use vstd::multiset::Multiset;

use crate::card::{three_of_clubs, three_of_clubs_spec, Card};
use crate::finder::{cards_from, contains_card, holds_all_counts, infer_post, inferable, proposal_kind, proposal_ranking};
use crate::play::{kind_len_spec, outranks_spec, Play};

verus! {

broadcast use {vstd::seq_lib::group_to_multiset_ensures, vstd::multiset::group_multiset_axioms};

/// Why a proposed play was rejected.
#[derive(Copy, Clone, PartialEq, Eq, Structural, Debug)]
pub enum GameError {
    /// The proposal references a card the acting seat does not hold.
    DontHaveCard,
    /// The very first play of the game omits the designated opening card.
    IsntPlayingThreeOfClubs,
    /// Correct card count, but the proposal fails to outrank the table.
    TooLow,
    /// The proposal's card count differs from the table's current play.
    WrongLength,
    /// The acting seat has control and must lead: it cannot pass.
    CannotPass,
    /// The proposed cards match no recognized category.
    PlayDoesntExist,
}

/// The full game state: one hand per seat, the seat to act, the play on
/// the table, who last played a non-Pass (who "has control"), the turn
/// counter, the winner once a hand empties, and the append-only record
/// of every play applied.
#[derive(Debug)]
pub struct GameState {
    pub hands: Vec<Vec<Card>>,
    pub current_player: usize,
    pub cards_down: Option<Play>,
    pub turn_index: usize,
    pub last_player_to_not_pass: usize,
    pub n_players: usize,
    pub winning_player: Option<usize>,
    pub record: Vec<Play>,
}

impl GameState {
    /// The state's internal consistency: seat indices are in range, the
    /// turn counter counts the record, the table holds a well-formed
    /// non-Pass play exactly after the first turn, and no hand holds a
    /// card twice.
    pub open spec fn wf(self) -> bool {
        &&& self.hands@.len() == self.n_players
        &&& self.n_players >= 1
        &&& self.current_player < self.n_players
        &&& self.last_player_to_not_pass < self.n_players
        &&& self.turn_index == self.record@.len()
        &&& (self.cards_down matches Some(p) ==> p.wf() && !(p.spec_kind() is Pass))
        &&& ((self.turn_index == 0) <==> (self.cards_down is None))
        &&& (self.winning_player matches Some(w) ==> w < self.n_players)
        &&& forall|i: int| 0 <= i < self.hands@.len() ==> (#[trigger] self.hands@[i])@.no_duplicates()
    }

    /// The acting seat's hand, as a sequence.
    pub open spec fn spec_my_hand(self) -> Seq<Card> {
        self.hands@[self.current_player as int]@
    }

    /// Whether the acting seat has control: it was the last seat to play
    /// a non-Pass, so every other seat has passed since.
    pub open spec fn spec_have_control(self) -> bool {
        self.last_player_to_not_pass == self.current_player
    }

    /// Whether no play has been applied yet.
    pub open spec fn spec_is_first_turn(self) -> bool {
        self.turn_index == 0
    }
}

/// A play is acceptable in a given state: on the first turn it must
/// include the designated opening card; a seat with control may do
/// anything but pass; a seat without control may always pass, and
/// otherwise must match the table's card count and outrank it. In every
/// case the acting seat must hold all the proposed cards.
pub open spec fn play_legal(g: GameState, p: Play) -> bool {
    &&& (g.spec_is_first_turn() ==> p.spec_cards().contains(three_of_clubs_spec()))
    &&& (!g.spec_is_first_turn() && g.spec_have_control() ==> !(p.spec_kind() is Pass))
    &&& (!g.spec_is_first_turn() && !g.spec_have_control() && !(p.spec_kind() is Pass) ==> {
        &&& kind_len_spec(p.spec_kind()) == kind_len_spec((g.cards_down->Some_0).spec_kind())
        &&& outranks_spec(p, g.cards_down->Some_0)
    })
    &&& cards_from(p.spec_cards(), g.spec_my_hand())
}

/// The exact rejection the machine reports: first whether the cards read
/// as a play at all, then the state rules in order, and last — because
/// it is the cheapest to defer — whether the seat holds the proposed
/// cards, each as often as proposed. Exact for every pairwise-distinct
/// proposal and for every proposal of at most two cards.
pub open spec fn can_play_err(g: GameState, c: Seq<Card>) -> Option<GameError> {
    if !inferable(c) {
        Some(GameError::PlayDoesntExist)
    } else if g.spec_is_first_turn() && !c.contains(three_of_clubs_spec()) {
        Some(GameError::IsntPlayingThreeOfClubs)
    } else if !g.spec_is_first_turn() && g.spec_have_control() && c.len() == 0 {
        Some(GameError::CannotPass)
    } else if !g.spec_is_first_turn() && !g.spec_have_control() && c.len() != 0 && kind_len_spec(
        proposal_kind(c),
    ) != kind_len_spec((g.cards_down->Some_0).spec_kind()) {
        Some(GameError::WrongLength)
    } else if !g.spec_is_first_turn() && !g.spec_have_control() && c.len() != 0
        && !proposal_beats(c, g.cards_down->Some_0) {
        Some(GameError::TooLow)
    } else if !c.to_multiset().subset_of(g.spec_my_hand().to_multiset()) {
        Some(GameError::DontHaveCard)
    } else {
        None
    }
}

/// Whether a proposal of pairwise-distinct cards outranks the play on
/// the table: its category comes later in the order on kinds, or the
/// categories agree and its designated ranking card is the higher.
pub open spec fn proposal_beats(c: Seq<Card>, table: Play) -> bool {
    if proposal_kind(c) != table.spec_kind() {
        crate::play::kind_index_spec(proposal_kind(c)) > crate::play::kind_index_spec(
            table.spec_kind(),
        )
    } else {
        crate::card::card_value_spec(proposal_ranking(c)) > crate::card::card_value_spec(
            (table.spec_ranking())->Some_0,
        )
    }
}

/// What the machine promises of an accepted proposal: the returned play
/// is the reading of exactly the proposed cards, and it is acceptable in
/// the current state.
pub open spec fn can_play_ok(g: GameState, c: Seq<Card>, p: Play) -> bool {
    &&& p.wf()
    &&& play_legal(g, p)
    &&& cards_from(p.spec_cards(), c)
    &&& kind_len_spec(p.spec_kind()) == c.len()
    &&& p.spec_cards().to_multiset().subset_of(g.spec_my_hand().to_multiset())
    &&& p.spec_cards().no_duplicates()
}

/// The full verdict on a proposal of pairwise-distinct cards: rejections
/// are exactly the ones `can_play_err` names, and an accepted play reads
/// as exactly the proposed cards with the designated category and
/// ranking card.
pub open spec fn can_play_post(g: GameState, c: Seq<Card>, r: Result<Play, GameError>) -> bool {
    match r {
        Ok(p) => {
            &&& can_play_err(g, c) is None
            &&& p.spec_kind() == proposal_kind(c)
            &&& cards_from(c, p.spec_cards())
            &&& cards_from(p.spec_cards(), c)
            &&& p.spec_cards().no_duplicates()
            &&& (c.len() != 0 ==> p.spec_ranking() == Some(proposal_ranking(c)))
        },
        Err(e) => can_play_err(g, c) == Some(e),
    }
}

/// Validation is deterministic: over pairwise-distinct proposals, any
/// two verdicts on one state and one proposal agree — the same
/// rejection, or accepted plays of the same category, ranking card and
/// card set. (That validating mutates nothing is already in its
/// signature: it only borrows the state.)
pub proof fn lemma_validation_deterministic(
    g: GameState,
    c: Seq<Card>,
    r1: Result<Play, GameError>,
    r2: Result<Play, GameError>,
)
    requires
        c.no_duplicates(),
        can_play_post(g, c, r1),
        can_play_post(g, c, r2),
    ensures
        (r1 is Ok) <==> (r2 is Ok),
        r1 matches Err(e1) ==> (r2 matches Err(e2) && e1 == e2),
        r1 matches Ok(p1) ==> (r2 matches Ok(p2) && p1.spec_kind() == p2.spec_kind()
            && (c.len() != 0 ==> p1.spec_ranking() == p2.spec_ranking()) && cards_from(
            p1.spec_cards(),
            p2.spec_cards(),
        )),
{
    if r1 is Ok && r2 is Ok {
        let p1 = r1->Ok_0;
        let p2 = r2->Ok_0;
        assert forall|i: int| 0 <= i < p1.spec_cards().len() implies p2.spec_cards().contains(
            #[trigger] p1.spec_cards()[i],
        ) by {
            assert(c.contains(p1.spec_cards()[i]));
            let w = choose|w: int| 0 <= w < c.len() && c[w] == p1.spec_cards()[i];
            assert(p2.spec_cards().contains(c[w]));
        }
    }
}

impl GameState {
    /// Validates a proposal against the current state, returning the
    /// play it reads as, or the exact reason it is rejected. A card
    /// proposed more often than the seat holds it is not held, so an
    /// accepted play can always be applied. The state itself is only
    /// read: validating never changes it.
    pub fn can_play(&self, cards: Vec<Card>) -> (r: Result<Play, GameError>)
        requires
            self.wf(),
            self.winning_player is None,
        ensures
            r matches Ok(p) ==> can_play_ok(*self, cards@, p),
            cards@.no_duplicates() || cards@.len() <= 2 ==> can_play_post(*self, cards@, r),
    {
        let ghost c = cards@;
        let ghost g = *self;
        let play_opt = Play::infer_from_cards(cards);
        proof {
            assert(infer_post(c, play_opt));
            if c.no_duplicates() {
                crate::finder::lemma_proposal_reading(c, play_opt);
            }
            if c.len() <= 2 && play_opt is Some {
                // a reading of at most two cards is the proposal itself,
                // as a multiset, so membership carries both ways
                let p = play_opt->Some_0;
                if c.len() == 0 {
                    assert(p.spec_cards() =~= c);
                }
                assert(p.spec_cards().to_multiset() == c.to_multiset());
                assert forall|w: int|
                    0 <= w < p.spec_cards().len() implies c.contains(
                    #[trigger] p.spec_cards()[w],
                ) by {
                    assert(p.spec_cards().contains(p.spec_cards()[w]));
                    assert(c.to_multiset().count(p.spec_cards()[w]) > 0);
                }
                assert forall|w: int| 0 <= w < c.len() implies p.spec_cards().contains(
                    #[trigger] c[w],
                ) by {
                    assert(c.contains(c[w]));
                    assert(p.spec_cards().to_multiset().count(c[w]) > 0);
                }
            }
        }
        let play = match play_opt {
            Some(play) => play,
            None => {
                return Err(GameError::PlayDoesntExist);
            },
        };

        if self.is_first_turn() {
            if !contains_card(play.cards(), three_of_clubs()) {
                proof {
                    if (c.no_duplicates() || c.len() <= 2) && c.contains(three_of_clubs_spec()) {
                        let w = choose|w: int| 0 <= w < c.len() && c[w] == three_of_clubs_spec();
                        assert(play.spec_cards().contains(c[w]));
                    }
                }
                return Err(GameError::IsntPlayingThreeOfClubs);
            }
        } else if self.have_control() {
            if play.is_pass() {
                return Err(GameError::CannotPass);
            }
        } else if !play.is_pass() {
            let table = match &self.cards_down {
                Some(table) => table,
                None => {
                    proof {
                        assert(false);
                    }
                    return Err(GameError::PlayDoesntExist);
                },
            };
            if !play.len_eq(table) {
                return Err(GameError::WrongLength);
            }
            if !play.can_play_on(table) {
                return Err(GameError::TooLow);
            }
        }

        // the seat must hold every proposed card, as often as it is proposed
        let hand = &self.hands[self.current_player];
        if !holds_all_counts(hand, play.cards()) {
            proof {
                if (c.no_duplicates() || c.len() <= 2) && c.to_multiset().subset_of(
                    g.spec_my_hand().to_multiset(),
                ) {
                    if c.no_duplicates() {
                        // a duplicate-free reading held card by card is
                        // held as a multiset
                        play.spec_cards().lemma_multiset_has_no_duplicates();
                        assert forall|v: Card|
                            #[trigger] play.spec_cards().to_multiset().count(v)
                                <= g.spec_my_hand().to_multiset().count(v) by {
                            if play.spec_cards().to_multiset().count(v) > 0 {
                                assert(play.spec_cards().contains(v));
                                let w = choose|w: int|
                                    0 <= w < play.spec_cards().len() && play.spec_cards()[w] == v;
                                assert(c.contains(v));
                                assert(c.to_multiset().count(v) > 0);
                            }
                        }
                    }
                    assert(play.spec_cards().to_multiset().subset_of(
                        g.spec_my_hand().to_multiset(),
                    ));
                }
            }
            return Err(GameError::DontHaveCard);
        }
        proof {
            // each card of the reading is in the hand
            assert forall|w: int|
                0 <= w < play.spec_cards().len() implies g.spec_my_hand().contains(
                #[trigger] play.spec_cards()[w],
            ) by {
                assert(play.spec_cards().contains(play.spec_cards()[w]));
                assert(play.spec_cards().to_multiset().count(play.spec_cards()[w]) > 0);
                assert(g.spec_my_hand().to_multiset().count(play.spec_cards()[w]) > 0);
            }
            // no hand holds a card twice, so neither does the accepted reading
            assert(play.spec_cards().no_duplicates()) by {
                g.spec_my_hand().lemma_multiset_has_no_duplicates();
                assert forall|v: Card| #[trigger] play.spec_cards().to_multiset().count(v)
                    <= 1 by {
                    if g.spec_my_hand().to_multiset().count(v) > 0 {
                        assert(g.spec_my_hand().contains(v));
                    }
                }
                play.spec_cards().lemma_multiset_has_no_duplicates_conv();
            }
            if (c.no_duplicates() || c.len() <= 2) && !c.to_multiset().subset_of(
                g.spec_my_hand().to_multiset(),
            ) {
                // yet each proposed card is among the held reading
                if c.no_duplicates() {
                    c.lemma_multiset_has_no_duplicates();
                    assert forall|v: Card|
                        #[trigger] c.to_multiset().count(v)
                            <= g.spec_my_hand().to_multiset().count(v) by {
                        if c.to_multiset().count(v) > 0 {
                            assert(c.contains(v));
                            let w = choose|w: int| 0 <= w < c.len() && c[w] == v;
                            assert(play.spec_cards().contains(v));
                            let u = choose|u: int|
                                0 <= u < play.spec_cards().len() && play.spec_cards()[u] == v;
                            assert(g.spec_my_hand().contains(v));
                            assert(g.spec_my_hand().to_multiset().count(v) > 0);
                        }
                    }
                }
                assert(c.to_multiset().subset_of(g.spec_my_hand().to_multiset()));
            }
        }
        Ok(play)
    }
}


impl GameState {
    /// Whether no play has been applied yet.
    pub fn is_first_turn(&self) -> (r: bool)
        ensures
            r == self.spec_is_first_turn(),
    {
        self.turn_index == 0
    }

    /// Whether the acting seat has control.
    pub fn have_control(&self) -> (r: bool)
        ensures
            r == self.spec_have_control(),
    {
        self.last_player_to_not_pass == self.current_player
    }

    /// The chronological record of every play applied, in order.
    pub fn get_record(&self) -> (r: &Vec<Play>)
        ensures
            r@ == self.record@,
    {
        &self.record
    }

    /// The seat that emptied its hand, if the game is over.
    pub fn winning_player(&self) -> (r: Option<usize>)
        ensures
            r == self.winning_player,
    {
        self.winning_player
    }

    /// The play currently on the table, if any.
    pub fn get_play_on_table(&self) -> (r: Option<&Play>)
        ensures
            (r is Some) <==> (self.cards_down is Some),
            r matches Some(p) ==> *p == self.cards_down->Some_0,
    {
        self.cards_down.as_ref()
    }

    /// The acting seat's own hand.
    pub fn my_hand(&self) -> (r: &Vec<Card>)
        requires
            self.wf(),
        ensures
            r@ == self.spec_my_hand(),
    {
        &self.hands[self.current_player]
    }

    /// The cards of the play currently on the table, if any.
    pub fn cards_down(&self) -> (r: Option<&Vec<Card>>)
        ensures
            (r is Some) <==> (self.cards_down is Some),
            r matches Some(cs) ==> cs@ == (self.cards_down->Some_0).spec_cards(),
    {
        match &self.cards_down {
            Some(p) => Some(p.cards()),
            None => None,
        }
    }

    /// Starts a game: deals the deck round-robin over the seats and
    /// hands the first turn to the first seat holding the designated
    /// opening card.
    pub fn new(n_players: usize, cards: Vec<Card>) -> (g: GameState)
        requires
            n_players >= 1,
            cards@.len() as int % (n_players as int) == 0,
            cards@.contains(three_of_clubs_spec()),
            cards@.no_duplicates(),
        ensures
            g.wf(),
            g.n_players == n_players,
            g.hands@.len() == n_players,
            forall|p: int, k: int|
                #![trigger g.hands@[p]@[k]]
                0 <= p < n_players && 0 <= k < cards@.len() as int / (n_players as int)
                    ==> g.hands@[p]@[k] == cards@[k * (n_players as int) + p],
            forall|p: int|
                0 <= p < n_players ==> (#[trigger] g.hands@[p])@.len() == cards@.len() as int / (
                n_players as int),
            g.spec_is_first_turn(),
            g.cards_down is None,
            g.record@.len() == 0,
            g.winning_player is None,
            g.current_player < n_players,
            g.spec_my_hand().contains(three_of_clubs_spec()),
            forall|p: int|
                0 <= p < g.current_player ==> !(#[trigger] g.hands@[p])@.contains(
                    three_of_clubs_spec(),
                ),
            g.spec_have_control(),
    {
        let hands = deal(&cards, n_players);

        // find the seat holding the opening card
        let opening = three_of_clubs();
        let mut starter: usize = 0;
        let mut found = false;
        let mut i: usize = 0;
        while i < hands.len()
            invariant
                i <= hands@.len(),
                !found ==> forall|p: int|
                    0 <= p < i ==> !(#[trigger] hands@[p])@.contains(three_of_clubs_spec()),
                found ==> starter < i && hands@[starter as int]@.contains(three_of_clubs_spec())
                    && forall|p: int|
                    0 <= p < starter ==> !(#[trigger] hands@[p])@.contains(three_of_clubs_spec()),
                opening == three_of_clubs_spec(),
            decreases hands@.len() - i,
        {
            if !found && contains_card(&hands[i], opening) {
                starter = i;
                found = true;
            }
            i += 1;
        }
        proof {
            if !found {
                let w = choose|w: int| 0 <= w < cards@.len() && cards@[w] == three_of_clubs_spec();
                let n = n_players as int;
                vstd::arithmetic::div_mod::lemma_fundamental_div_mod(cards@.len() as int, n);
                assert(cards@.len() as int / n * n == cards@.len() as int);
                let p = w % n;
                let k = w / n;
                vstd::arithmetic::div_mod::lemma_fundamental_div_mod(w, n);
                assert(0 <= p < n && 0 <= k) by (nonlinear_arith)
                    requires
                        w == (w / n) * n + w % n,
                        0 <= w,
                        n >= 1,
                        p == w % n,
                        k == w / n,
                ;
                assert(k < cards@.len() as int / n) by (nonlinear_arith)
                    requires
                        w == k * n + p,
                        0 <= p < n,
                        0 <= k,
                        0 <= w < cards@.len(),
                        cards@.len() as int % n == 0,
                        cards@.len() as int / n * n == cards@.len() as int,
                ;
                assert(hands@[p]@[k] == cards@[k * n + p]);
                assert(hands@[p]@.contains(three_of_clubs_spec()));
            }
        }

        let g = GameState {
            hands,
            current_player: starter,
            cards_down: None,
            turn_index: 0,
            last_player_to_not_pass: starter,
            n_players,
            winning_player: None,
            record: Vec::new(),
        };
        proof {
            let n = n_players as int;
            vstd::arithmetic::div_mod::lemma_fundamental_div_mod(cards@.len() as int, n);
            assert(cards@.len() as int / n * n == cards@.len() as int);
            assert forall|p: int| 0 <= p < n implies (#[trigger] g.hands@[p])@.no_duplicates() by {
                let hand = g.hands@[p]@;
                assert forall|k1: int, k2: int| 0 <= k1 < k2 < hand.len() implies hand[k1]
                    != hand[k2] by {
                    assert(hand[k1] == cards@[k1 * n + p]);
                    assert(hand[k2] == cards@[k2 * n + p]);
                    assert(k1 * n + p < k2 * n + p) by (nonlinear_arith)
                        requires
                            k1 < k2,
                            n >= 1,
                    ;
                    assert(k2 * n + p < cards@.len()) by (nonlinear_arith)
                        requires
                            0 <= k2 < cards@.len() as int / n,
                            0 <= p < n,
                            cards@.len() as int / n * n == cards@.len() as int,
                    ;
                    assert(0 <= k1 * n + p) by (nonlinear_arith)
                        requires
                            0 <= k1,
                            0 <= p,
                            n >= 1,
                    ;
                }
            }
        }
        g
    }

    /// Applies an already-validated play: removes its cards from the
    /// acting seat's hand, appends it to the record, hands control and
    /// the table over for a non-Pass, declares the seat the winner if
    /// its hand emptied, and advances to the next seat in rotation.
    pub fn play(&mut self, play: Play)
        requires
            old(self).wf(),
            old(self).winning_player is None,
            play.wf(),
            play.spec_cards().no_duplicates(),
            play_legal(*old(self), play),
        ensures
            final(self).wf(),
            final(self).n_players == old(self).n_players,
            final(self).hands@.len() == old(self).hands@.len(),
            forall|p: int|
                0 <= p < old(self).hands@.len() && p != old(self).current_player
                    ==> (#[trigger] final(self).hands@[p]) == old(self).hands@[p],
            final(self).hands@[old(self).current_player as int]@.to_multiset() == old(
                self,
            ).hands@[old(self).current_player as int]@.to_multiset().sub(
                play.spec_cards().to_multiset(),
            ),
            final(self).hands@[old(self).current_player as int]@.len() == old(
                self,
            ).hands@[old(self).current_player as int]@.len() - play.spec_cards().len(),
            final(self).record@ == old(self).record@.push(play),
            final(self).turn_index == old(self).turn_index + 1,
            final(self).current_player == (old(self).current_player + 1) as int % (old(
                self,
            ).n_players as int),
            play.spec_kind() is Pass ==> final(self).cards_down == old(self).cards_down
                && final(self).last_player_to_not_pass == old(self).last_player_to_not_pass,
            !(play.spec_kind() is Pass) ==> (final(self).cards_down matches Some(q) && q.eqv(play))
                && final(self).last_player_to_not_pass == old(self).current_player,
            final(self).winning_player == if final(self).hands@[old(
                self,
            ).current_player as int]@.len() == 0 {
                Some(old(self).current_player)
            } else {
                None::<usize>
            },
    {
        broadcast use vstd::seq_lib::group_to_multiset_ensures;
        broadcast use vstd::multiset::group_multiset_axioms;

        let me = self.current_player;
        let ghost old_hand = self.hands@[me as int]@;
        let hand_ref = vstd::std_specs::vec::vec_index_mut(&mut self.hands, me);
        subtract_cards(hand_ref, play.cards());
        proof {
            assert(self.hands@[me as int]@.to_multiset() == old_hand.to_multiset().sub(
                play.spec_cards().to_multiset(),
            ));
            assert(self.hands@[me as int]@.no_duplicates()) by {
                let new_hand = self.hands@[me as int]@;
                old_hand.lemma_multiset_has_no_duplicates();
                assert forall|v: Card| new_hand.to_multiset().count(v) <= 1 by {
                    assert(old_hand.to_multiset().count(v) <= 1);
                }
                new_hand.lemma_multiset_has_no_duplicates_conv();
            }
        }
        if self.hands[me].is_empty() {
            self.winning_player = Some(me);
        }
        let is_pass = play.is_pass();
        if !is_pass {
            self.last_player_to_not_pass = me;
            self.cards_down = Some(play.clone());
        }
        self.record.push(play);
        self.turn_index = self.record.len();
        self.current_player = (me + 1) % self.n_players;
    }
}

/// Deals the cards round-robin: seat `p` receives the cards at positions
/// `p`, `p + n`, `p + 2n`, and so on, in order. The cards must split
/// evenly.
pub fn deal(cards: &Vec<Card>, n_groups: usize) -> (groups: Vec<Vec<Card>>)
    requires
        n_groups >= 1,
        cards@.len() as int % (n_groups as int) == 0,
    ensures
        groups@.len() == n_groups,
        forall|p: int|
            0 <= p < n_groups ==> (#[trigger] groups@[p])@.len() == cards@.len() as int / (
            n_groups as int),
        forall|p: int, k: int|
            #![trigger groups@[p]@[k]]
            0 <= p < n_groups && 0 <= k < cards@.len() as int / (n_groups as int)
                ==> groups@[p]@[k] == cards@[k * (n_groups as int) + p],
{
    let per_group = cards.len() / n_groups;
    proof {
        assert(cards@.len() <= usize::MAX);
        vstd::arithmetic::div_mod::lemma_fundamental_div_mod(cards@.len() as int, n_groups as int);
    }
    let mut groups: Vec<Vec<Card>> = Vec::new();
    let mut p: usize = 0;
    while p < n_groups
        invariant
            p <= n_groups,
            n_groups >= 1,
            cards@.len() <= usize::MAX,
            per_group == cards@.len() as int / (n_groups as int),
            cards@.len() == (n_groups as int) * (per_group as int),
            groups@.len() == p as int,
            forall|q: int|
                0 <= q < p ==> (#[trigger] groups@[q])@.len() == per_group as int,
            forall|q: int, k: int|
                #![trigger groups@[q]@[k]]
                0 <= q < p && 0 <= k < per_group ==> groups@[q]@[k] == cards@[k * (
                n_groups as int) + q],
        decreases n_groups - p,
    {
        let mut group: Vec<Card> = Vec::new();
        let mut k: usize = 0;
        while k < per_group
            invariant
                k <= per_group,
                p < n_groups,
                cards@.len() <= usize::MAX,
                per_group == cards@.len() as int / (n_groups as int),
                cards@.len() == (n_groups as int) * (per_group as int),
                group@.len() == k as int,
                forall|j: int|
                    0 <= j < k ==> #[trigger] group@[j] == cards@[j * (n_groups as int) + p],
            decreases per_group - k,
        {
            proof {
                assert(k as int * (n_groups as int) + p < cards@.len()) by (nonlinear_arith)
                    requires
                        0 <= (k as int) < (per_group as int),
                        0 <= (p as int) < (n_groups as int),
                        cards@.len() == (n_groups as int) * (per_group as int),
                ;
                assert(k * n_groups + p < cards@.len());
            }
            group.push(cards[k * n_groups + p]);
            k += 1;
        }
        groups.push(group);
        p += 1;
    }
    groups
}

/// Removes the given cards from the collection, each by its first
/// occurrence. Exactly those cards leave; everything else stays.
fn subtract_cards(cards: &mut Vec<Card>, to_remove: &Vec<Card>)
    requires
        to_remove@.no_duplicates(),
        cards_from(to_remove@, old(cards)@),
    ensures
        final(cards)@.to_multiset() == old(cards)@.to_multiset().sub(to_remove@.to_multiset()),
        final(cards)@.len() == old(cards)@.len() - to_remove@.len(),
{
    broadcast use vstd::seq_lib::group_to_multiset_ensures;
    broadcast use vstd::multiset::group_multiset_axioms;

    let ghost orig = cards@;
    let mut i: usize = 0;
    proof {
        assert(to_remove@.take(0).to_multiset() =~= Multiset::<Card>::empty());
        assert(cards@.to_multiset() =~= orig.to_multiset().sub(to_remove@.take(0).to_multiset()));
    }
    while i < to_remove.len()
        invariant
            i <= to_remove@.len(),
            to_remove@.no_duplicates(),
            cards_from(to_remove@, orig),
            cards@.to_multiset() == orig.to_multiset().sub(to_remove@.take(i as int).to_multiset()),
            cards@.len() == orig.len() - i,
            forall|j: int|
                i <= j < to_remove@.len() ==> orig.to_multiset().count(#[trigger] to_remove@[j])
                    >= 1 && to_remove@.take(i as int).to_multiset().count(to_remove@[j]) == 0,
        decreases to_remove@.len() - i,
    {
        let target = to_remove[i];
        proof {
            assert(to_remove@[i as int] == target);
            assert(orig.to_multiset().count(target) >= 1);
            assert(to_remove@.take(i as int).to_multiset().count(target) == 0);
            assert(cards@.to_multiset().count(target) == orig.to_multiset().count(target)
                - to_remove@.take(i as int).to_multiset().count(target));
            assert(cards@.to_multiset().count(target) >= 1);
            assert(cards@.contains(target));
        }
        // find the first occurrence
        let mut pos: usize = 0;
        while pos < cards.len() && !(cards[pos] == target)
            invariant
                pos <= cards@.len(),
                cards@.contains(target),
                forall|j: int| 0 <= j < pos ==> cards@[j] != target,
            decreases cards@.len() - pos,
        {
            pos += 1;
        }
        proof {
            if pos == cards@.len() {
                let w = choose|w: int| 0 <= w < cards@.len() && cards@[w] == target;
                assert(false);
            }
        }
        let ghost before = cards@;
        cards.remove(pos);
        proof {
            assert(pos < before.len());
            assert(before[pos as int] == target);
            assert(cards@ == before.remove(pos as int));
            assert(before.remove(pos as int).to_multiset() =~= before.to_multiset().remove(
                before[pos as int],
            ));
            assert(cards@.to_multiset() == before.to_multiset().remove(target));
            assert(to_remove@.take(i as int + 1).drop_last() =~= to_remove@.take(i as int));
            assert(to_remove@.take(i as int + 1) == to_remove@.take(i as int).push(target));
            assert(to_remove@.take(i as int + 1).to_multiset() == to_remove@.take(
                i as int,
            ).to_multiset().insert(target));
            assert(cards@.to_multiset() =~= orig.to_multiset().sub(to_remove@.take(
                i as int + 1,
            ).to_multiset()));
            assert forall|j: int|
                i + 1 <= j < to_remove@.len() implies orig.to_multiset().count(
                #[trigger] to_remove@[j],
            ) >= 1 && to_remove@.take(i as int + 1).to_multiset().count(to_remove@[j]) == 0 by {
                assert(to_remove@[j] != target);
            }
        }
        i += 1;
    }
    proof {
        assert(to_remove@.take(to_remove@.len() as int) =~= to_remove@);
    }
}



/// The restricted read-only view handed to players: only the acting
/// seat's own hand, the play on the table, and validation are reachable,
/// so a player cannot see another seat's cards or the game record.
pub struct SafeGameInterface<'a> {
    pub inner: &'a GameState,
}

impl<'a> SafeGameInterface<'a> {
    /// Wraps a game state in the restricted view.
    pub fn from_game(game: &GameState) -> (s: SafeGameInterface)
        ensures
            *s.inner == *game,
    {
        SafeGameInterface { inner: game }
    }

    /// Validates a proposal against the underlying state; see
    /// [`GameState::can_play`].
    pub fn can_play(&self, cards: Vec<Card>) -> (r: Result<Play, GameError>)
        requires
            self.inner.wf(),
            self.inner.winning_player is None,
        ensures
            r matches Ok(p) ==> can_play_ok(*self.inner, cards@, p),
            cards@.no_duplicates() || cards@.len() <= 2 ==> can_play_post(*self.inner, cards@, r),
    {
        self.inner.can_play(cards)
    }

    /// The acting seat's own hand.
    pub fn my_hand(&self) -> (r: &Vec<Card>)
        requires
            self.inner.wf(),
        ensures
            r@ == self.inner.spec_my_hand(),
    {
        self.inner.my_hand()
    }

    /// The play currently on the table, if any.
    pub fn get_play_on_table(&self) -> (r: Option<&Play>)
        ensures
            (r is Some) <==> (self.inner.cards_down is Some),
            r matches Some(p) ==> *p == self.inner.cards_down->Some_0,
    {
        self.inner.get_play_on_table()
    }
}


/// The fallback chain cannot run dry: a seat that is barred from
/// passing — it holds control, or it is opening the game with the
/// designated card in hand — always has an acceptable proposal, at the
/// least a single straight from its hand.
pub proof fn lemma_lead_always_possible(g: GameState, c: Card)
    requires
        g.wf(),
        g.spec_my_hand().contains(c),
        g.spec_is_first_turn() ==> c == three_of_clubs_spec(),
        !g.spec_is_first_turn() ==> g.spec_have_control(),
    ensures
        can_play_err(g, seq![c]) is None,
{
    let p = seq![c];
    assert(p.len() == 1);
    assert(inferable(p));
    assert(p[0] == c);
    assert(p.contains(c));
    assert(cards_from(p, g.spec_my_hand())) by {
        assert forall|i: int| 0 <= i < p.len() implies g.spec_my_hand().contains(
            #[trigger] p[i],
        ) by {
            assert(p[i] == c);
        }
    }
}

} // verus!
