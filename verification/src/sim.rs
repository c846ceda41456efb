//! The game-state engine: player decks and the round/war state machine.

use vstd::prelude::*;
use vstd::multiset::Multiset;
use crate::rng::shuffle;

verus! {

broadcast use vstd::seq_lib::group_to_multiset_ensures, vstd::multiset::group_multiset_axioms;

/// One of the two players of a game.
pub enum Player {
    Player1,
    Player2,
}

/// The winner of a game (repeated rounds, until one player has the entire
/// deck).  The game may draw if both players flip their last card in a war.
#[derive(Clone, Copy, Debug, PartialEq, Eq, Structural)]
pub enum GameResult {
    Player1,
    Player2,
    Draw,
}

/// How many face-down cards a player owning `m` cards antes in a war:
/// `min(k, m - 1)`, saturating at zero, so that the ante always leaves at
/// least one card for the next face-up comparison.
pub open spec fn ante_count(k: u32, m: nat) -> nat {
    if m == 0 {
        0
    } else if (k as nat) < m {
        k as nat
    } else {
        (m - 1) as nat
    }
}

/// Moving one card out of pile `a` and onto pile `b` leaves the combined
/// collection of cards unchanged.
proof fn lemma_move_one(a: Multiset<u8>, b: Multiset<u8>, c: u8)
    requires
        a.count(c) > 0,
    ensures
        a.remove(c).add(b.insert(c)) =~= a.add(b),
{
}

/// Both players moving one card each onto the table leaves the combined
/// collection of cards unchanged.
proof fn lemma_transfer_pair(a: Multiset<u8>, b: Multiset<u8>, w: Multiset<u8>, c1: u8, c2: u8)
    requires
        a.count(c1) > 0,
        b.count(c2) > 0,
    ensures
        a.remove(c1).add(b.remove(c2)).add(w.insert(c1).insert(c2)) =~= a.add(b).add(w),
{
}

/// If player 1's pile together with the table is unchanged, the whole
/// collection in play is unchanged.
proof fn lemma_ante_first(
    a1: Multiset<u8>,
    b: Multiset<u8>,
    w1: Multiset<u8>,
    a2: Multiset<u8>,
    w2: Multiset<u8>,
)
    requires
        a2.add(w2) == a1.add(w1),
    ensures
        a2.add(b).add(w2) =~= a1.add(b).add(w1),
{
    broadcast use vstd::multiset::group_multiset_axioms;

    assert forall|x: u8| a2.add(b).add(w2).count(x) == a1.add(b).add(w1).count(x) by {
        assert(a2.add(w2).count(x) == a1.add(w1).count(x));
        assert(a2.add(w2).count(x) == a2.count(x) + w2.count(x));
        assert(a2.count(x) + w2.count(x) == a1.count(x) + w1.count(x));
        assert(a2.add(b).add(w2).count(x) == a2.count(x) + b.count(x) + w2.count(x));
        assert(a1.add(b).add(w1).count(x) == a1.count(x) + b.count(x) + w1.count(x));
    }
}

/// If player 2's pile together with the table is unchanged, the whole
/// collection in play is unchanged.
proof fn lemma_ante_second(
    b: Multiset<u8>,
    a1: Multiset<u8>,
    w1: Multiset<u8>,
    a2: Multiset<u8>,
    w2: Multiset<u8>,
)
    requires
        a2.add(w2) == a1.add(w1),
    ensures
        b.add(a2).add(w2) =~= b.add(a1).add(w1),
{
    broadcast use vstd::multiset::group_multiset_axioms;

    assert forall|x: u8| b.add(a2).add(w2).count(x) == b.add(a1).add(w1).count(x) by {
        assert(a2.add(w2).count(x) == a1.add(w1).count(x));
        assert(a2.add(w2).count(x) == a2.count(x) + w2.count(x));
        assert(a2.count(x) + w2.count(x) == a1.count(x) + w1.count(x));
        assert(b.add(a2).add(w2).count(x) == b.count(x) + a2.count(x) + w2.count(x));
        assert(b.add(a1).add(w1).count(x) == b.count(x) + a1.count(x) + w1.count(x));
    }
}

/// A round's loot `w`, just appended to the winner's pile, is again part
/// of the two piles together, whichever player took it.
proof fn lemma_loot_in_piles(w: Multiset<u8>, a: Multiset<u8>, b: Multiset<u8>)
    ensures
        w.subset_of(a.add(w).add(b)),
        w.subset_of(a.add(b.add(w))),
{
    broadcast use vstd::multiset::group_multiset_axioms;

    assert forall|x: u8| w.count(x) <= a.add(w).add(b).count(x) by {
        assert(a.add(w).count(x) == a.count(x) + w.count(x));
        assert(a.add(w).add(b).count(x) == a.count(x) + w.count(x) + b.count(x));
    }
    assert forall|x: u8| w.count(x) <= a.add(b.add(w)).count(x) by {
        assert(b.add(w).count(x) == b.count(x) + w.count(x));
        assert(a.add(b.add(w)).count(x) == a.count(x) + b.count(x) + w.count(x));
    }
}

/// Taking one card out of pile `a` and putting it back on the combined
/// collection restores that collection.
proof fn lemma_put_back(a: Multiset<u8>, b: Multiset<u8>, c: u8)
    requires
        a.count(c) > 0,
    ensures
        a.remove(c).add(b).insert(c) =~= a.add(b),
{
}

/// The cards owned by one player.  Cards are drawn from the draw pile until
/// it is empty, at which point the entire discard pile is shuffled to
/// become the new draw pile.
#[derive(Clone)]
pub struct PlayerDeck {
    deck: Vec<u8>,
    discard: Vec<u8>,
}

impl PlayerDeck {
    /// The active draw pile; the top card is the last element.
    pub closed spec fn draw_pile(self) -> Seq<u8> {
        self.deck@
    }

    /// The discard pile, in the order the cards were won.
    pub closed spec fn discard_pile(self) -> Seq<u8> {
        self.discard@
    }

    /// Every card this player owns, in either pile, as a multiset of ranks.
    pub open spec fn owned(self) -> Multiset<u8> {
        self.draw_pile().to_multiset().add(self.discard_pile().to_multiset())
    }

    /// How many cards this player owns in total.
    pub open spec fn num_cards(self) -> nat {
        self.draw_pile().len() + self.discard_pile().len()
    }

    /// The two piles together fit in a machine word, so that counting the
    /// cards cannot overflow.
    pub open spec fn wf(self) -> bool {
        self.num_cards() <= usize::MAX
    }

    /// The total card count is exactly the size of the owned multiset.
    pub proof fn lemma_num_cards(self)
        ensures
            self.num_cards() == self.owned().len(),
    {
    }

    /// Start a player off with the given cards.  They are placed in the
    /// discard pile, so the first draw begins with a shuffle.
    pub fn new(deck: Vec<u8>) -> (d: Self)
        ensures
            d.wf(),
            d.draw_pile() == Seq::<u8>::empty(),
            d.discard_pile() == deck@,
            d.owned() == deck@.to_multiset(),
            d.num_cards() == deck@.len(),
    {
        let d = Self { deck: Vec::new(), discard: deck };
        proof {
            vstd::std_specs::vec::axiom_spec_len(&d.discard);
            assert(Seq::<u8>::empty().to_multiset().len() == 0);
            assert(d.owned() =~= deck@.to_multiset());
        }
        d
    }

    /// The number of cards this player owns, over both piles.
    pub fn cards(&self) -> (n: usize)
        requires
            self.wf(),
        ensures
            n == self.num_cards(),
    {
        self.deck.len() + self.discard.len()
    }

    /// Draw the top card.  A non-empty draw pile simply gives up its top
    /// card, with the discard pile untouched; an empty draw pile is first
    /// replaced by the shuffled discard pile (the sole source of
    /// re-randomization during a game).  Returns `None` exactly when the
    /// player owns no cards at all.
    pub fn draw(&mut self, rng: &mut fastrand::Rng) -> (r: Option<u8>)
        requires
            old(self).wf(),
        ensures
            final(self).wf(),
            r is Some <==> old(self).num_cards() > 0,
            r is None ==> final(self).owned() == old(self).owned()
                && final(self).num_cards() == 0,
            r matches Some(c) ==> old(self).owned().count(c) > 0
                && final(self).owned() == old(self).owned().remove(c)
                && final(self).num_cards() == old(self).num_cards() - 1,
            old(self).draw_pile().len() > 0 ==> r == Some(old(self).draw_pile().last())
                && final(self).draw_pile() == old(self).draw_pile().drop_last()
                && final(self).discard_pile() == old(self).discard_pile(),
            old(self).draw_pile().len() == 0 ==> final(self).discard_pile()
                == Seq::<u8>::empty(),
            old(self).draw_pile().len() == 0 ==> (r matches Some(c)
                ==> final(self).draw_pile().to_multiset().insert(c)
                    == old(self).discard_pile().to_multiset()),
    {
        if self.deck.len() == 0 {
            shuffle(rng, &mut self.discard);
            core::mem::swap(&mut self.deck, &mut self.discard);
            proof {
                assert(Seq::<u8>::empty().to_multiset().len() == 0);
                assert(self.owned() =~= old(self).owned());
                assert(self.discard@ =~= Seq::<u8>::empty());
            }
        }
        let ghost pre = *self;
        let r = self.deck.pop();
        proof {
            assert(pre.owned() == old(self).owned());
            assert(pre.num_cards() == old(self).num_cards());
            if pre.deck@.len() > 0 {
                let s = pre.deck@;
                let last = s[s.len() - 1];
                assert(s.contains(last));
                assert(s.to_multiset().count(last) > 0);
                assert(s.remove(s.len() - 1) =~= s.subrange(0, s.len() - 1));
                assert(s.remove(s.len() - 1).to_multiset() == s.to_multiset().remove(last));
                assert(self.deck@.to_multiset() == s.to_multiset().remove(last));
                assert(self.owned() =~= pre.owned().remove(last));
                assert(self.deck@ =~= s.drop_last());
                if old(self).deck@.len() == 0 {
                    assert(s.to_multiset() == old(self).discard@.to_multiset());
                    assert(self.deck@.to_multiset().insert(last) =~= s.to_multiset());
                }
            } else {
                assert(self.owned() == pre.owned());
            }
        }
        r
    }

    /// The war ante: play exactly `ante_count(k, m)` face-down cards onto
    /// `work`, where `m` is the player's total card count.  The ante alone
    /// never empties a hand that still holds a card.
    pub fn play_face_down(&mut self, rng: &mut fastrand::Rng, work: &mut Vec<u8>, k: u32)
        requires
            old(self).wf(),
            old(work)@.len() + old(self).num_cards() <= usize::MAX,
        ensures
            final(self).wf(),
            final(work)@.len() == old(work)@.len() + ante_count(k, old(self).num_cards()),
            final(self).num_cards() + ante_count(k, old(self).num_cards())
                == old(self).num_cards(),
            old(self).num_cards() > 0 ==> final(self).num_cards() > 0,
            final(self).owned().add(final(work)@.to_multiset())
                == old(self).owned().add(old(work)@.to_multiset()),
    {
        let m = self.cards();
        let limit = if m == 0 { 0 } else { m - 1 };
        let n = if (k as usize) < limit { k as usize } else { limit };
        let mut i: usize = 0;
        while i < n
            invariant
                i <= n,
                self.wf(),
                n == ante_count(k, old(self).num_cards()),
                self.num_cards() + i == old(self).num_cards(),
                work@.len() == old(work)@.len() + i,
                old(work)@.len() + old(self).num_cards() <= usize::MAX,
                self.owned().add(work@.to_multiset())
                    == old(self).owned().add(old(work)@.to_multiset()),
            decreases n - i,
        {
            let ghost prev = *self;
            let ghost prev_work = *work;
            let c = self.draw(rng);
            let card = c.unwrap();
            work.push(card);
            proof {
                assert(work@.to_multiset() == prev_work@.to_multiset().insert(card));
                lemma_move_one(prev.owned(), prev_work@.to_multiset(), card);
                assert(self.owned().add(work@.to_multiset())
                    =~= prev.owned().add(prev_work@.to_multiset()));
            }
            i = i + 1;
        }
    }

    /// Add won cards to the bottom of the discard pile, in the order given.
    /// The draw pile is untouched.
    pub fn win_loot(&mut self, cards: &[u8])
        requires
            old(self).wf(),
            old(self).num_cards() + cards@.len() <= usize::MAX,
        ensures
            final(self).wf(),
            final(self).draw_pile() == old(self).draw_pile(),
            final(self).discard_pile() == old(self).discard_pile() + cards@,
            final(self).owned() == old(self).owned().add(cards@.to_multiset()),
            final(self).num_cards() == old(self).num_cards() + cards@.len(),
    {
        let n = cards.len();
        let mut i: usize = 0;
        while i < n
            invariant
                i <= n,
                n == cards@.len(),
                old(self).num_cards() + cards@.len() <= usize::MAX,
                self.deck@ == old(self).deck@,
                self.discard@ == old(self).discard@ + cards@.subrange(0, i as int),
            decreases n - i,
        {
            let c = *vstd::slice::slice_index_get(cards, i);
            proof {
                assert(cards@.subrange(0, i + 1) =~= cards@.subrange(0, i as int).push(c));
            }
            self.discard.push(c);
            i = i + 1;
        }
        proof {
            assert(cards@.subrange(0, n as int) =~= cards@);
            vstd::seq_lib::lemma_multiset_commutative(old(self).discard@, cards@);
            assert(self.owned() =~= old(self).owned().add(cards@.to_multiset()));
        }
    }
}

/// A completed game is decided one way or another: its result is always a
/// player 1 win, a player 2 win, or a draw — never some mid-war state.
pub proof fn lemma_result_exhaustive(r: GameResult)
    ensures
        r is Player1 || r is Player2 || r is Draw,
{
}

/// A standard deck of cards with `n` rank values, `k` copies of each:
/// the ranks `1..=n`, grouped by rank in increasing order.
pub fn standard_deck(n: u8, k: usize) -> (r: Vec<u8>)
    requires
        n as int * k as int <= usize::MAX as int,
    ensures
        r@.len() == n as int * k as int,
        forall|i: int| 0 <= i < r@.len() ==> r@[i] == i / (k as int) + 1,
{
    let mut r: Vec<u8> = Vec::new();
    let mut rank: usize = 1;
    while rank <= n as usize
        invariant
            1 <= rank <= n as usize + 1,
            n as int * k as int <= usize::MAX as int,
            r@.len() == (rank - 1) * k,
            forall|i: int| 0 <= i < r@.len() ==> r@[i] == i / (k as int) + 1,
        decreases n as usize + 1 - rank,
    {
        let mut j: usize = 0;
        while j < k
            invariant
                1 <= rank <= n as usize,
                j <= k,
                n as int * k as int <= usize::MAX as int,
                r@.len() == (rank - 1) * k + j,
                forall|i: int| 0 <= i < r@.len() ==> r@[i] == i / (k as int) + 1,
            decreases k - j,
        {
            r.push(rank as u8);
            proof {
                vstd::arithmetic::div_mod::lemma_fundamental_div_mod_converse_div(
                    ((rank - 1) * k + j) as int,
                    k as int,
                    (rank - 1) as int,
                    j as int,
                );
            }
            j = j + 1;
        }
        proof {
            assert((rank - 1) * (k as int) + k == rank * (k as int)) by (nonlinear_arith);
        }
        rank = rank + 1;
    }
    proof {
        assert(r@.len() == (n as int) * (k as int)) by (nonlinear_arith)
            requires
                r@.len() == ((n as int) + 1 - 1) * (k as int),
        ;
    }
    r
}

/// The winner of an individual round, which may consist of one or more wars.
enum RoundResult {
    GameResult(GameResult),
    RoundWin(Player),
}

/// The current state of a game of war.
pub struct Game {
    rng: fastrand::Rng,
    player1: PlayerDeck,
    player2: PlayerDeck,
    /// k cards are flipped face-down in a war
    k: u32,
    /// A workspace vector, storing all the cards at stake in a single round
    work: Vec<u8>,
}

impl Game {
    /// Player 1's cards.
    pub closed spec fn deck1(self) -> PlayerDeck {
        self.player1
    }

    /// Player 2's cards.
    pub closed spec fn deck2(self) -> PlayerDeck {
        self.player2
    }

    /// The war parameter: how many cards are flipped face-down in a war.
    pub closed spec fn war_depth(self) -> u32 {
        self.k
    }

    /// The round's workspace: the cards currently at stake.
    pub closed spec fn work_view(self) -> Seq<u8> {
        self.work@
    }

    /// All cards sitting in the two players' piles.
    pub open spec fn piles(self) -> Multiset<u8> {
        self.deck1().owned().add(self.deck2().owned())
    }

    /// All cards in the game: the players' piles plus the cards at stake in
    /// the round in progress.
    pub open spec fn in_play(self) -> Multiset<u8> {
        self.piles().add(self.work_view().to_multiset())
    }

    /// Both players' decks are well formed and the game's cards can be
    /// counted without overflow.
    pub open spec fn wf(self) -> bool {
        &&& self.deck1().wf()
        &&& self.deck2().wf()
        &&& self.piles().len() <= usize::MAX
    }

    /// Create (but do not simulate) a new game with the given player decks.
    pub fn new(rng: fastrand::Rng, player1: PlayerDeck, player2: PlayerDeck, k: u32) -> (g: Self)
        requires
            player1.wf(),
            player2.wf(),
            player1.num_cards() + player2.num_cards() <= usize::MAX,
        ensures
            g.wf(),
            g.deck1() == player1,
            g.deck2() == player2,
            g.war_depth() == k,
            g.work_view() == Seq::<u8>::empty(),
    {
        let g = Game { rng, player1, player2, k, work: Vec::new() };
        proof {
            g.deck1().lemma_num_cards();
            g.deck2().lemma_num_cards();
        }
        g
    }

    /// Resolve one round: a face-up draw from each player, then as many war
    /// iterations as it takes to reach a higher card or a finished game.
    /// On a round win the last two workspace entries are the deciding
    /// face-up pair — player 1's card then player 2's — and the winner is
    /// the owner of the higher one.
    fn play_round(&mut self) -> (r: RoundResult)
        requires
            old(self).wf(),
        ensures
            final(self).wf(),
            final(self).war_depth() == old(self).war_depth(),
            old(self).deck1().num_cards() == 0 && old(self).deck2().num_cards() == 0
                ==> r == RoundResult::GameResult(GameResult::Draw),
            old(self).deck2().num_cards() == 0 && old(self).deck1().num_cards() > 0
                ==> r == RoundResult::GameResult(GameResult::Player1),
            old(self).deck1().num_cards() == 0 && old(self).deck2().num_cards() > 0
                ==> r == RoundResult::GameResult(GameResult::Player2),
            match r {
                RoundResult::RoundWin(p) => final(self).in_play() == old(self).piles()
                    && final(self).work_view().len() >= 2
                    && (match p {
                        Player::Player1 => final(self).work_view()[
                            final(self).work_view().len() - 2
                        ] > final(self).work_view()[final(self).work_view().len() - 1],
                        Player::Player2 => final(self).work_view()[
                            final(self).work_view().len() - 2
                        ] < final(self).work_view()[final(self).work_view().len() - 1],
                    }),
                RoundResult::GameResult(g) => match g {
                    GameResult::Draw => final(self).deck1().num_cards() == 0
                        && final(self).deck2().num_cards() == 0
                        && final(self).work_view().to_multiset() == old(self).piles(),
                    GameResult::Player1 => final(self).deck2().num_cards() == 0
                        && (exists|c: u8|
                            old(self).piles() == final(self).in_play().insert(c)),
                    GameResult::Player2 => final(self).deck1().num_cards() == 0
                        && (exists|c: u8|
                            old(self).piles() == final(self).in_play().insert(c)),
                },
            },
    {
        self.work.clear();
        proof {
            assert(Seq::<u8>::empty().to_multiset().len() == 0);
            assert(self.player1.owned().add(self.player2.owned()).add(self.work@.to_multiset())
                =~= old(self).piles());
        }
        loop
            invariant
                self.player1.wf(),
                self.player2.wf(),
                self.k == old(self).k,
                self.player1.owned().add(self.player2.owned()).add(self.work@.to_multiset())
                    == old(self).piles(),
                old(self).piles().len() <= usize::MAX,
                old(self).deck1().num_cards() == 0 ==> self.player1.num_cards() == 0,
                old(self).deck2().num_cards() == 0 ==> self.player2.num_cards() == 0,
                old(self).deck1().num_cards() > 0 && old(self).deck2().num_cards() == 0
                    ==> self.player1.num_cards() > 0,
                old(self).deck2().num_cards() > 0 && old(self).deck1().num_cards() == 0
                    ==> self.player2.num_cards() > 0,
            decreases self.player1.num_cards() + self.player2.num_cards(),
        {
            let ghost at_start = *self;

            // Each player plays a card, if possible.  A player who is out
            // of cards loses the game on the spot.
            let c1 = self.player1.draw(&mut self.rng);
            let c2 = self.player2.draw(&mut self.rng);
            match (c1, c2) {
                (None, None) => {
                    proof {
                        self.player1.lemma_num_cards();
                        self.player2.lemma_num_cards();
                        assert(self.work@.to_multiset() =~= old(self).piles());
                    }
                    return RoundResult::GameResult(GameResult::Draw);
                },
                (None, Some(card2)) => {
                    proof {
                        lemma_put_back(
                            at_start.player2.owned(),
                            at_start.player1.owned().add(at_start.work@.to_multiset()),
                            card2,
                        );
                        assert(self.in_play().insert(card2) =~= old(self).piles());
                        assert(old(self).piles() == self.in_play().insert(card2));
                    }
                    return RoundResult::GameResult(GameResult::Player2);
                },
                (Some(card1), None) => {
                    proof {
                        lemma_put_back(
                            at_start.player1.owned(),
                            at_start.player2.owned().add(at_start.work@.to_multiset()),
                            card1,
                        );
                        assert(self.in_play().insert(card1) =~= old(self).piles());
                        assert(old(self).piles() == self.in_play().insert(card1));
                    }
                    return RoundResult::GameResult(GameResult::Player1);
                },
                (Some(card1), Some(card2)) => {
                    self.work.push(card1);
                    self.work.push(card2);
                    proof {
                        lemma_transfer_pair(
                            at_start.player1.owned(),
                            at_start.player2.owned(),
                            at_start.work@.to_multiset(),
                            card1,
                            card2,
                        );
                        assert(self.work@.to_multiset()
                            =~= at_start.work@.to_multiset().insert(card1).insert(card2));
                        assert(self.player1.owned().add(self.player2.owned()).add(
                            self.work@.to_multiset(),
                        ) =~= old(self).piles());
                    }

                    // Different ranks: the higher card's owner wins the
                    // round.  Equal ranks: a war — each player antes
                    // face-down cards and the loop draws again.
                    if card1 > card2 {
                        return RoundResult::RoundWin(Player::Player1);
                    }
                    if card1 < card2 {
                        return RoundResult::RoundWin(Player::Player2);
                    }

                    proof {
                        self.player1.lemma_num_cards();
                        self.player2.lemma_num_cards();
                    }
                    let ghost before_ante = *self;
                    self.player1.play_face_down(&mut self.rng, &mut self.work, self.k);
                    proof {
                        lemma_ante_first(
                            before_ante.player1.owned(),
                            before_ante.player2.owned(),
                            before_ante.work@.to_multiset(),
                            self.player1.owned(),
                            self.work@.to_multiset(),
                        );
                        assert(self.player1.owned().add(self.player2.owned()).add(
                            self.work@.to_multiset(),
                        ) == old(self).piles());
                        self.player1.lemma_num_cards();
                        self.player2.lemma_num_cards();
                    }
                    let ghost mid_ante = *self;
                    self.player2.play_face_down(&mut self.rng, &mut self.work, self.k);
                    proof {
                        lemma_ante_second(
                            mid_ante.player1.owned(),
                            mid_ante.player2.owned(),
                            mid_ante.work@.to_multiset(),
                            self.player2.owned(),
                            self.work@.to_multiset(),
                        );
                        assert(self.player1.owned().add(self.player2.owned()).add(
                            self.work@.to_multiset(),
                        ) == old(self).piles());
                    }
                },
            }
        }
    }

    /// Plays this game to completion, returning the winner and the number
    /// of rounds taken.  A game still undecided when the round counter
    /// reaches `u64::MAX` — beyond any playable horizon — is scored a draw.
    pub fn play(&mut self) -> (r: (GameResult, u64))
        requires
            old(self).wf(),
        ensures
            final(self).wf(),
            final(self).war_depth() == old(self).war_depth(),
            1 <= r.1,
            old(self).deck1().num_cards() == 0 && old(self).deck2().num_cards() == 0
                ==> r.0 is Draw && r.1 == 1,
            old(self).deck2().num_cards() == 0 && old(self).deck1().num_cards() > 0
                ==> r.0 is Player1 && r.1 == 1,
            old(self).deck1().num_cards() == 0 && old(self).deck2().num_cards() > 0
                ==> r.0 is Player2 && r.1 == 1,
            r.0 is Player1 ==> final(self).deck2().num_cards() == 0
                && (exists|c: u8| old(self).piles() == final(self).in_play().insert(c)),
            r.0 is Player2 ==> final(self).deck1().num_cards() == 0
                && (exists|c: u8| old(self).piles() == final(self).in_play().insert(c)),
            r.0 is Draw ==> (final(self).deck1().num_cards() == 0
                && final(self).deck2().num_cards() == 0
                && final(self).work_view().to_multiset() == old(self).piles())
                || (r.1 == u64::MAX && final(self).piles() == old(self).piles()
                    && final(self).work_view().len() >= 2
                    && final(self).work_view().to_multiset().subset_of(final(self).piles())),
    {
        let mut turn: u64 = 0;
        while turn < u64::MAX
            invariant
                self.wf(),
                self.war_depth() == old(self).war_depth(),
                self.piles() == old(self).piles(),
                turn == 0 ==> self.deck1() == old(self).deck1()
                    && self.deck2() == old(self).deck2(),
                old(self).deck1().num_cards() == 0 && old(self).deck2().num_cards() == 0
                    ==> turn == 0,
                old(self).deck2().num_cards() == 0 && old(self).deck1().num_cards() > 0
                    ==> turn == 0,
                old(self).deck1().num_cards() == 0 && old(self).deck2().num_cards() > 0
                    ==> turn == 0,
                turn == 0 || self.work_view().len() >= 2,
                turn == 0 || self.work_view().to_multiset().subset_of(self.piles()),
            decreases u64::MAX - turn,
        {
            turn = turn + 1;

            match self.play_round() {
                RoundResult::RoundWin(Player::Player1) => {
                    proof {
                        self.player1.lemma_num_cards();
                        self.player2.lemma_num_cards();
                    }
                    let ghost before_loot = *self;
                    self.player1.win_loot(self.work.as_slice());
                    proof {
                        assert(self.piles() =~= old(self).piles());
                        lemma_loot_in_piles(
                            before_loot.work@.to_multiset(),
                            before_loot.player1.owned(),
                            before_loot.player2.owned(),
                        );
                        assert(self.work_view().to_multiset().subset_of(self.piles()));
                    }
                },
                RoundResult::RoundWin(Player::Player2) => {
                    proof {
                        self.player1.lemma_num_cards();
                        self.player2.lemma_num_cards();
                    }
                    let ghost before_loot = *self;
                    self.player2.win_loot(self.work.as_slice());
                    proof {
                        assert(self.piles() =~= old(self).piles());
                        lemma_loot_in_piles(
                            before_loot.work@.to_multiset(),
                            before_loot.player1.owned(),
                            before_loot.player2.owned(),
                        );
                        assert(self.work_view().to_multiset().subset_of(self.piles()));
                    }
                },
                RoundResult::GameResult(result) => {
                    return (result, turn);
                },
            }
        }
        (GameResult::Draw, turn)
    }
}

} // verus!
