use postflop_solver::{card_pair_index, char_to_rank, char_to_suit, rank_to_char, suit_to_char};

#[test]
fn pair_index_ends_and_order() {
    assert_eq!(card_pair_index(0, 1), 0);
    assert_eq!(card_pair_index(50, 51), 1325);
    assert_eq!(card_pair_index(1, 0), 0);
    assert_eq!(card_pair_index(0, 2), 1);
    assert_eq!(card_pair_index(1, 2), 51);
    assert_eq!(card_pair_index(51, 50), 1325);
}

#[test]
fn pair_index_is_a_bijection() {
    let mut seen = vec![false; 1326];
    for a in 0..52u8 {
        for b in a + 1..52u8 {
            let i = card_pair_index(a, b);
            assert!(!seen[i]);
            seen[i] = true;
        }
    }
    assert!(seen.iter().all(|x| *x));
}

#[test]
fn rank_and_suit_characters() {
    assert_eq!(char_to_rank('A'), Ok(12));
    assert_eq!(char_to_rank('T'), Ok(8));
    assert_eq!(char_to_rank('2'), Ok(0));
    assert_eq!(char_to_rank('9'), Ok(7));
    assert!(char_to_rank('1').is_err());
    assert!(char_to_rank('a').is_err());
    assert_eq!(char_to_suit('c'), Ok(0));
    assert_eq!(char_to_suit('s'), Ok(3));
    assert!(char_to_suit('x').is_err());
    assert_eq!(rank_to_char(12), Ok('A'));
    assert_eq!(rank_to_char(0), Ok('2'));
    assert_eq!(rank_to_char(7), Ok('9'));
    assert_eq!(rank_to_char(13), Err("invalid input: 13".to_string()));
    assert_eq!(suit_to_char(2), Ok('h'));
    assert!(suit_to_char(4).is_err());
    for r in 0..13u8 {
        assert_eq!(char_to_rank(rank_to_char(r).unwrap()), Ok(r));
    }
}
