use postflop_solver::{
    evaluate_terminal, fold_values, showdown_values, showdown_values_raked, terminal_payoffs,
    Payoffs, StrengthItem, TerminalHands, UtilityFile, NO_SAME_HAND, PLAYER_FOLD_FLAG,
};

fn item(strength: u16, index: u16) -> StrengthItem {
    StrengthItem { strength, index }
}

fn showdown_hands() -> TerminalHands {
    TerminalHands {
        player_cards: vec![(0, 1), (8, 9)],
        opponent_cards: vec![(4, 5), (12, 13), (1, 20), (16, 17)],
        same_hand_index: vec![NO_SAME_HAND, NO_SAME_HAND],
        player_indices: vec![0, 1],
        opponent_indices: vec![0, 1, 2, 3],
        player_strength: vec![item(0, 0), item(5, 0), item(10, 1), item(0xFFFF, 0)],
        opponent_strength: vec![
            item(0, 0),
            item(3, 0),
            item(5, 3),
            item(7, 1),
            item(12, 2),
            item(0xFFFF, 0),
        ],
    }
}

#[test]
fn fold_counts_unblocked_reach() {
    let r = fold_values(
        &vec![(0, 1), (2, 7)],
        &vec![(2, 3), (0, 4), (5, 6)],
        &vec![NO_SAME_HAND, NO_SAME_HAND],
        &vec![0],
        &vec![0, 1, 2],
        &vec![10, 20, 30],
        100,
    );
    // (2, 3) and (5, 6) avoid both cards of (0, 1); hand 1 is not live
    assert_eq!(r, vec![4000, 0]);
}

#[test]
fn fold_with_the_same_hand_on_both_sides() {
    // the opponent's (0, 1) is the acting hand itself, and blocks it
    let r = fold_values(
        &vec![(0, 1)],
        &vec![(0, 1), (2, 3)],
        &vec![0],
        &vec![0],
        &vec![0, 1],
        &vec![7, 5],
        -3,
    );
    assert_eq!(r, vec![-15]);
}

#[test]
fn fold_with_no_reach_is_zero() {
    let r = fold_values(&vec![(0, 1)], &vec![(2, 3)], &vec![NO_SAME_HAND], &vec![0], &vec![0], &vec![0], 9);
    assert_eq!(r, vec![0]);
}

#[test]
fn showdown_unraked_two_sweeps() {
    let h = showdown_hands();
    let r = showdown_values(
        &h.player_cards,
        &h.opponent_cards,
        &h.player_strength,
        &h.opponent_strength,
        &vec![1, 2, 4, 8],
        10,
        -10,
    );
    // hand 0 (strength 5) beats reach 1, loses to reach 2 ((1, 20) is blocked), ties 8
    // hand 1 (strength 10) beats 1 + 8 + 2, loses to 4
    assert_eq!(r, vec![-10, 70]);
}

#[test]
fn showdown_raked_three_pointers() {
    let h = showdown_hands();
    let r = showdown_values_raked(
        &h.player_cards,
        &h.opponent_cards,
        &h.same_hand_index,
        &h.player_strength,
        &h.opponent_strength,
        &vec![1, 2, 4, 8],
        10,
        -1,
        -10,
    );
    assert_eq!(r, vec![10 * 1 - 8 - 10 * 2, 10 * 11 - 10 * 4]);
}

#[test]
fn showdown_raked_without_tie_payoff_matches_unraked() {
    let h = showdown_hands();
    let w = vec![3, 1, 4, 1];
    let a = showdown_values(&h.player_cards, &h.opponent_cards, &h.player_strength, &h.opponent_strength, &w, 7, -5);
    let b = showdown_values_raked(
        &h.player_cards,
        &h.opponent_cards,
        &h.same_hand_index,
        &h.player_strength,
        &h.opponent_strength,
        &w,
        7,
        0,
        -5,
    );
    assert_eq!(a, b);
}

#[test]
fn terminal_dispatch() {
    let h = showdown_hands();
    let w = vec![1, 2, 4, 8];
    let p = Payoffs { win: 12, showdown_win: 10, tie: -1, lose: -10 };
    // the opponent (player 1) folded: player 0 wins the fold payoff
    let fold = evaluate_terminal(PLAYER_FOLD_FLAG | 1, 0, &h, &w, p, 1);
    // hand (0, 1): unblocked (4, 5), (12, 13), (16, 17); hand (8, 9): all four
    assert_eq!(fold, vec![12 * 11, 12 * 15]);
    let folded_self = evaluate_terminal(PLAYER_FOLD_FLAG, 0, &h, &w, p, 1);
    assert_eq!(folded_self, vec![-10 * 11, -10 * 15]);
    // the showdown winner pays the rake
    let showdown = evaluate_terminal(0x100, 0, &h, &w, p, 1);
    assert_eq!(showdown, vec![-18, 70]);
    // divided by the number of combinations, rounded toward zero
    let divided = evaluate_terminal(0x100, 0, &h, &w, p, 4);
    assert_eq!(divided, vec![-4, 17]);
    let none = evaluate_terminal(0x100, 0, &h, &w, p, 0);
    assert_eq!(none, vec![0, 0]);
}

fn concave_table() -> UtilityFile {
    UtilityFile::new(vec![vec![(0, 0), (100, 1000), (200, 1500)]], vec![100]).unwrap()
}

#[test]
fn utility_lookup_interpolates_and_clamps() {
    let t = concave_table();
    assert_eq!(t.lookup(0, 0), 0);
    assert_eq!(t.lookup(50, 0), 500);
    assert_eq!(t.lookup(100, 0), 1000);
    assert_eq!(t.lookup(150, 0), 1250);
    assert_eq!(t.lookup(199, 0), 1495);
    assert_eq!(t.lookup(300, 0), 1500);
    let falling = UtilityFile::new(vec![vec![(10, 100), (20, 40)]], vec![10]).unwrap();
    assert_eq!(falling.lookup(5, 0), 100);
    assert_eq!(falling.lookup(15, 0), 70);
    assert_eq!(falling.lookup(25, 0), 40);
}

#[test]
fn utility_table_rejects_bad_curves() {
    assert!(UtilityFile::new(vec![vec![(0, 0)]], vec![]).is_err());
    assert!(UtilityFile::new(vec![vec![(0, 0)], vec![]], vec![0]).is_err());
    assert!(UtilityFile::new(vec![vec![(5, 0), (5, 1)]], vec![0]).is_err());
    assert!(UtilityFile::new(vec![vec![(0, u64::MAX)]], vec![0]).is_err());
}

#[test]
fn concave_utility_makes_gambles_lose_equity() {
    let t = concave_table();
    let p = terminal_payoffs(&t, 0, 100, 0, 0, 0);
    assert_eq!(p.win, 250);
    assert_eq!(p.lose, -500);
    assert_eq!(p.tie, 0);
    assert!(p.win + p.lose < 0);
    for amount in 1..40u64 {
        let q = terminal_payoffs(&t, 0, 20, amount, 0, 0);
        assert!(q.win + q.lose < 0);
    }
}

#[test]
fn chip_ev_fold_pays_half_the_pot() {
    // chip-EV: utility equals stack; a 200 pot with nothing matched beyond it
    let t = UtilityFile::new(vec![vec![(0, 0), (1_000_000, 1_000_000)]], vec![10_000]).unwrap();
    let p = terminal_payoffs(&t, 0, 200, 0, 0, 0);
    assert_eq!(p, Payoffs { win: 100, showdown_win: 100, tie: 0, lose: -100 });
    let v = fold_values(&vec![(0, 1)], &vec![(2, 3), (4, 5)], &vec![NO_SAME_HAND], &vec![0], &vec![0, 1], &vec![3, 4], p.win);
    assert_eq!(v, vec![700]);
}

#[test]
fn rake_is_capped_and_halved_for_ties() {
    let t = concave_table();
    let p = terminal_payoffs(&t, 0, 100, 0, 50_000, 3);
    assert_eq!(p.tie, -1);
    assert_eq!(p.showdown_win, p.win - 3);
    let q = terminal_payoffs(&t, 0, 100, 0, 50_000, 100);
    assert_eq!(q.tie, -2);
}

#[test]
fn busting_stack_is_worth_nothing() {
    let t = UtilityFile::new(vec![vec![(10, 5), (100, 50)]], vec![40]).unwrap();
    // half pot 50 exceeds the stack of 40: losing leaves utility 0
    let p = terminal_payoffs(&t, 0, 100, 0, 0, 0);
    assert_eq!(p.lose, -20);
}

#[test]
fn node_evaluation_from_the_table() {
    let h = showdown_hands();
    let w = vec![1, 2, 4, 8];
    let t = concave_table();
    let (p, v) = postflop_solver::evaluate_terminal_node(&t, 100, 0, 0, 0x100, 0, 0, &h, &w, 1);
    assert_eq!(p, Payoffs { win: 250, showdown_win: 250, tie: 0, lose: -500 });
    // hand 0: weaker reach 1, stronger reach 2; hand 1: weaker 11, stronger 4
    assert_eq!(v, vec![250 - 1000, 250 * 11 - 500 * 4]);
}

fn swap_cs(c: u8) -> u8 {
    match c % 4 {
        0 => c + 3,
        3 => c - 3,
        _ => c,
    }
}

fn swap_hand(h: (u8, u8)) -> (u8, u8) {
    let (a, b) = (swap_cs(h.0), swap_cs(h.1));
    if a < b { (a, b) } else { (b, a) }
}

#[test]
fn swapping_black_suits_keeps_values() {
    let player: Vec<(u8, u8)> = vec![(0, 1), (32, 36), (29, 30)];
    let opponent: Vec<(u8, u8)> = vec![(2, 3), (0, 4), (5, 6), (32, 39), (28, 31)];
    let w = vec![10, 20, 30, 5, 7];
    let same = vec![NO_SAME_HAND; 3];
    let a = fold_values(&player, &opponent, &same, &vec![0, 1, 2], &vec![0, 1, 2, 3, 4], &w, 3);
    let sp: Vec<(u8, u8)> = player.iter().map(|h| swap_hand(*h)).collect();
    let so: Vec<(u8, u8)> = opponent.iter().map(|h| swap_hand(*h)).collect();
    let b = fold_values(&sp, &so, &same, &vec![0, 1, 2], &vec![0, 1, 2, 3, 4], &w, 3);
    assert_eq!(a, b);
    assert_ne!(a, vec![0, 0, 0]);
}

#[test]
fn player_without_curve_is_valued_in_chips() {
    let t = UtilityFile::new(vec![vec![]], vec![500]).unwrap();
    assert_eq!(t.lookup(0, 0), 0);
    assert_eq!(t.lookup(1234, 0), 1234);
    let p = terminal_payoffs(&t, 0, 200, 50, 0, 0);
    // chip-EV: winning and losing half the pot cancel out
    assert_eq!(p.win, 150);
    assert_eq!(p.lose, -150);
    assert_eq!(p.win + p.lose, 0);
}
