use war_sim::sim::{standard_deck, Game, GameResult, PlayerDeck};

/// `standard_deck` lays out `k` copies of each rank `1..=n`, in order.
#[test]
fn standard_deck_contents() {
    let d = standard_deck(13, 4);
    assert_eq!(d.len(), 52);
    assert_eq!(&d[0..4], &[1, 1, 1, 1]);
    assert_eq!(&d[4..8], &[2, 2, 2, 2]);
    assert_eq!(d[51], 13);

    assert_eq!(standard_deck(3, 1), vec![1, 2, 3]);
    assert_eq!(standard_deck(0, 9), Vec::<u8>::new());
    assert_eq!(standard_deck(5, 0), Vec::<u8>::new());
}

/// A deck of three cards yields exactly three draws (the first one forcing
/// a reshuffle of the discard pile) and then runs dry.
#[test]
fn deck_draw_exhausts() {
    let mut rng = fastrand::Rng::with_seed(7);
    let mut deck = PlayerDeck::new(vec![2, 5, 9]);
    assert_eq!(deck.cards(), 3);

    assert!(deck.draw(&mut rng).is_some());
    assert_eq!(deck.cards(), 2);
    assert!(deck.draw(&mut rng).is_some());
    assert!(deck.draw(&mut rng).is_some());
    assert_eq!(deck.cards(), 0);
    assert!(deck.draw(&mut rng).is_none());
    assert!(deck.draw(&mut rng).is_none());
}

/// Shuffling changes only the order: drawing every card returns exactly the
/// cards the deck was built from.
#[test]
fn draw_returns_all_owned_cards() {
    let mut rng = fastrand::Rng::with_seed(99);
    let mut deck = PlayerDeck::new(vec![3, 1, 2, 2]);
    let mut drawn = Vec::new();
    while let Some(c) = deck.draw(&mut rng) {
        drawn.push(c);
    }
    drawn.sort();
    assert_eq!(drawn, vec![1, 2, 2, 3]);
}

/// Cards looted after a round re-enter the pool and can be drawn again.
#[test]
fn win_loot_returns_cards_to_play() {
    let mut rng = fastrand::Rng::with_seed(3);
    let mut deck = PlayerDeck::new(vec![1, 2, 3]);
    deck.win_loot(&[4, 5]);
    assert_eq!(deck.cards(), 5);
    for _ in 0..5 {
        assert!(deck.draw(&mut rng).is_some());
    }
    assert!(deck.draw(&mut rng).is_none());

    deck.win_loot(&[6]);
    assert_eq!(deck.cards(), 1);
    assert_eq!(deck.draw(&mut rng), Some(6));
}

/// The war ante plays exactly `min(k, cards - 1)` face-down cards, always
/// leaving the hand at least one card for the deciding face-up draw.
#[test]
fn ante_leaves_last_card() {
    let mut rng = fastrand::Rng::with_seed(11);

    let mut deck = PlayerDeck::new(vec![1, 2, 3]);
    let mut work: Vec<u8> = Vec::new();
    deck.play_face_down(&mut rng, &mut work, 5);
    assert_eq!(work.len(), 2);
    assert_eq!(deck.cards(), 1);

    let mut deck = PlayerDeck::new(vec![1, 2, 3]);
    let mut work: Vec<u8> = Vec::new();
    deck.play_face_down(&mut rng, &mut work, 0);
    assert_eq!(work.len(), 0);
    assert_eq!(deck.cards(), 3);

    let mut deck = PlayerDeck::new(Vec::new());
    let mut work: Vec<u8> = Vec::new();
    deck.play_face_down(&mut rng, &mut work, 5);
    assert_eq!(work.len(), 0);
    assert_eq!(deck.cards(), 0);
}

/// Two single-card decks holding the same rank tie at once, and neither can
/// ante or draw again: an immediate draw in one turn, whatever `k` is.
#[test]
fn single_card_tie_is_draw() {
    for k in [0, 1, 3, 10] {
        let rng = fastrand::Rng::with_seed(42);
        let p1 = PlayerDeck::new(vec![5]);
        let p2 = PlayerDeck::new(vec![5]);
        let mut game = Game::new(rng, p1, p2, k);
        assert_eq!(game.play(), (GameResult::Draw, 1));
    }
}

/// Decks made of one repeated rank can only tie, war after war, until both
/// players run dry in the same round.
#[test]
fn all_equal_decks_draw() {
    for k in [0, 1, 4] {
        let rng = fastrand::Rng::with_seed(8);
        let p1 = PlayerDeck::new(vec![2, 2]);
        let p2 = PlayerDeck::new(vec![2, 2]);
        let mut game = Game::new(rng, p1, p2, k);
        assert_eq!(game.play(), (GameResult::Draw, 1));
    }
}

/// Two empty decks draw immediately; a single card beats an empty deck.
#[test]
fn empty_decks() {
    let rng = fastrand::Rng::with_seed(1);
    let p1 = PlayerDeck::new(Vec::new());
    let p2 = PlayerDeck::new(Vec::new());
    let mut game = Game::new(rng, p1, p2, 0);
    assert_eq!(game.play(), (GameResult::Draw, 1));

    let rng = fastrand::Rng::with_seed(1);
    let p1 = PlayerDeck::new(vec![3]);
    let p2 = PlayerDeck::new(Vec::new());
    let mut game = Game::new(rng, p1, p2, 0);
    assert_eq!(game.play(), (GameResult::Player1, 1));

    let rng = fastrand::Rng::with_seed(1);
    let p1 = PlayerDeck::new(Vec::new());
    let p2 = PlayerDeck::new(vec![3]);
    let mut game = Game::new(rng, p1, p2, 0);
    assert_eq!(game.play(), (GameResult::Player2, 1));
}

/// When every card of player 1 outranks every card of player 2, player 2
/// loses one card per round; the round in which the loser cannot draw at
/// all still counts as a turn.
#[test]
fn sweep_four_high_vs_three() {
    let rng = fastrand::Rng::with_seed(17);
    let p1 = PlayerDeck::new(vec![5, 6, 7, 8]);
    let p2 = PlayerDeck::new(vec![1, 2, 3]);
    let mut game = Game::new(rng, p1, p2, 0);
    assert_eq!(game.play(), (GameResult::Player1, 4));
}

/// As above with four cards a side: four winning rounds, then the fifth
/// round finds player 2 out of cards.
#[test]
fn sweep_four_high_vs_four() {
    let rng = fastrand::Rng::with_seed(23);
    let p1 = PlayerDeck::new(vec![5, 6, 7, 8]);
    let p2 = PlayerDeck::new(vec![1, 2, 3, 4]);
    let mut game = Game::new(rng, p1, p2, 0);
    assert_eq!(game.play(), (GameResult::Player1, 5));
}

/// The ante rule decides this one: with `k` large, the player holding two
/// equal cards antes exactly one and still has a face-up card left, while
/// the single-card player antes none and runs dry.
#[test]
fn war_spares_the_last_card() {
    let rng = fastrand::Rng::with_seed(5);
    let p1 = PlayerDeck::new(vec![7, 7]);
    let p2 = PlayerDeck::new(vec![7]);
    let mut game = Game::new(rng, p1, p2, 5);
    assert_eq!(game.play(), (GameResult::Player1, 1));
}

/// The same seed and the same initial decks replay to the same result and
/// turn count.
#[test]
fn same_seed_reproducible() {
    let mut outcomes = Vec::new();
    for _ in 0..2 {
        let rng = fastrand::Rng::with_seed(987654321);
        let p1 = PlayerDeck::new(standard_deck(13, 2));
        let p2 = PlayerDeck::new(standard_deck(13, 2));
        let mut game = Game::new(rng, p1, p2, 3);
        outcomes.push(game.play());
    }
    assert_eq!(outcomes[0], outcomes[1]);
    assert!(outcomes[0].1 >= 1);
}

/// A full-size game runs to a decision and both war depths are playable.
#[test]
fn full_deck_game_completes() {
    for k in [0, 3] {
        let mut root = fastrand::Rng::with_seed(2024);
        let mut deck = standard_deck(13, 4);
        root.shuffle(&mut deck);
        let p1 = PlayerDeck::new(deck[..26].to_vec());
        let p2 = PlayerDeck::new(deck[26..].to_vec());
        let mut game = Game::new(root.fork(), p1, p2, k);
        let (result, turns) = game.play();
        assert!(turns >= 1);
        assert!(matches!(
            result,
            GameResult::Player1 | GameResult::Player2 | GameResult::Draw
        ));
    }
}
