use postflop_solver::{range_token_parts, squeeze_range_text, Range, PROB_ONE};

fn prob(p: u32) -> f64 {
    p as f64 / PROB_ONE as f64
}

#[test]
fn range_regex() {
    let tests = [
        ("AK", Some(("AK", None))),
        ("K9s:.67", Some(("K9s", Some(".67")))),
        ("88+:1.", Some(("88+", Some("1.")))),
        ("98s-65s:0.25", Some(("98s-65s", Some("0.25")))),
        ("AcKh", Some(("AcKh", None))),
        ("8h8s+:.67", Some(("8h8s+", Some(".67")))),
        ("9d8d-6d5d:0.25", Some(("9d8d-6d5d", Some("0.25")))),
        ("ak", None),
        ("AKQ", None),
        ("AK+-AJ", None),
        ("K9s.67", None),
        ("88+:2.0", None),
        ("98s-21s", None),
    ];

    for (s, expected) in tests {
        let caps = range_token_parts(s);
        if let Some((range, prob)) = expected {
            let (r, p) = caps.unwrap();
            assert_eq!(r, range);
            if let Some(prob) = prob {
                assert_eq!(p.unwrap(), prob);
            } else {
                assert!(p.is_none());
            }
        } else {
            assert!(caps.is_none());
        }
    }
}

#[test]
fn trim_regex() {
    let tests = [
        ("  AK  ", "AK"),
        ("K9s: .67", "K9s:.67"),
        ("88+, AQ+", "88+,AQ+"),
        ("98s - 65s: 0.25", "98s-65s:0.25"),
    ];

    for (s, expected) in tests {
        assert_eq!(squeeze_range_text(s), expected);
    }
}

#[test]
fn range_from_str() {
    let pair_plus = "88+".parse::<Range>();
    let pair_plus_equiv = "AA,KK,QQ,JJ,TT,99,88".parse::<Range>();
    assert!(pair_plus.is_ok());
    assert_eq!(pair_plus, pair_plus_equiv);

    let pair_plus_suit = "8s8h+".parse::<Range>();
    let pair_plus_suit_equiv = "AhAs,KhKs,QhQs,JhJs,ThTs,9h9s,8h8s".parse::<Range>();
    assert!(pair_plus_suit.is_ok());
    assert_eq!(pair_plus_suit, pair_plus_suit_equiv);

    let connector_plus = "98s+".parse::<Range>();
    let connector_plus_equiv = "AKs,KQs,QJs,JTs,T9s,98s".parse::<Range>();
    assert!(connector_plus.is_ok());
    assert_eq!(connector_plus, connector_plus_equiv);

    let other_plus = "A8o+".parse::<Range>();
    let other_plus_equiv = "AKo,AQo,AJo,ATo,A9o,A8o".parse::<Range>();
    assert!(other_plus.is_ok());
    assert_eq!(other_plus, other_plus_equiv);

    let pair_dash = "88-55".parse::<Range>();
    let pair_dash_equiv = "88,77,66,55".parse::<Range>();
    assert!(pair_dash.is_ok());
    assert_eq!(pair_dash, pair_dash_equiv);

    let connector_dash = "98s-65s".parse::<Range>();
    let connector_dash_equiv = "98s,87s,76s,65s".parse::<Range>();
    assert!(connector_dash.is_ok());
    assert_eq!(connector_dash, connector_dash_equiv);

    let gapper_dash = "AQo-86o".parse::<Range>();
    let gapper_dash_equiv = "AQo,KJo,QTo,J9o,T8o,97o,86o".parse::<Range>();
    assert!(gapper_dash.is_ok());
    assert_eq!(gapper_dash, gapper_dash_equiv);

    let other_dash = "K5-K2".parse::<Range>();
    let other_dash_equiv = "K5,K4,K3,K2".parse::<Range>();
    assert!(other_dash.is_ok());
    assert_eq!(other_dash, other_dash_equiv);

    let suit_compound = "AhAs-QhQs,JJ".parse::<Range>();
    let suit_compound_equiv = "JJ,AhAs,KhKs,QhQs".parse::<Range>();
    assert!(suit_compound.is_ok());
    assert_eq!(suit_compound, suit_compound_equiv);

    let allow_empty = "".parse::<Range>();
    assert!(allow_empty.is_ok());

    let allow_trailing_comma = "AK,".parse::<Range>();
    assert!(allow_trailing_comma.is_ok());

    let comma_error = "AK,,".parse::<Range>();
    assert!(comma_error.is_err());

    let rank_error = "89".parse::<Range>();
    assert!(rank_error.is_err());

    let pair_error = "AAo".parse::<Range>();
    assert!(pair_error.is_err());

    let prob_error = "AQo:1.1".parse::<Range>();
    assert!(prob_error.is_err());

    let dash_error_1 = "AQo-AQo".parse::<Range>();
    assert!(dash_error_1.is_err());

    let dash_error_2 = "AQo-86s".parse::<Range>();
    assert!(dash_error_2.is_err());

    let dash_error_3 = "AQo-KQo".parse::<Range>();
    assert!(dash_error_3.is_err());

    let dash_error_4 = "K2-K5".parse::<Range>();
    assert!(dash_error_4.is_err());

    let dash_error_5 = "AhAs-QsQh".parse::<Range>();
    assert!(dash_error_5.is_err());

    let data = "85s:0.5".parse::<Range>();
    assert!(data.is_ok());

    let data = data.unwrap();
    assert_eq!(prob(data.get_prob_suited(3, 6)), 0.5);
    assert_eq!(prob(data.get_prob_suited(6, 3)), 0.5);
    assert_eq!(prob(data.get_prob_offsuit(3, 6)), 0.0);
    assert_eq!(prob(data.get_prob_offsuit(6, 3)), 0.0);
}

#[test]
fn range_to_string() {
    let tests = [
        ("AA,KK", "KK+"),
        ("KK,QQ", "KK-QQ"),
        ("66-22,TT+", "TT+,66-22"),
        ("AA:0.5, KK:1.0, QQ:1.0, JJ:0.5", "AA:0.5,KK-QQ,JJ:0.5"),
        ("AA,AK,AQ", "AA,AQ+"),
        ("AK,AQ,AJs", "AJs+,AQo+"),
        ("KQ,KT,K9,K8,K6,K5", "KQ,KT-K8,K6-K5"),
        ("AhAs-QhQs,JJ", "JJ,AhAs,KhKs,QhQs"),
        ("KJs+,KQo,KsJh", "KJs+,KQo,KsJh"),
        ("KcQh,KJ", "KJ,KcQh"),
    ];

    for (input, expected) in tests {
        let range = input.parse::<Range>();
        assert!(range.is_ok());
        assert_eq!(range.unwrap().to_string(), expected);
    }
}

#[test]
fn pairs_plus_equals_listed_pairs() {
    let a = "88+".parse::<Range>().unwrap();
    let b = "AA,KK,QQ,JJ,TT,99,88".parse::<Range>().unwrap();
    assert_eq!(a, b);
}

#[test]
fn printing_merges_a_plus_run() {
    assert_eq!("AA,AK,AQ".parse::<Range>().unwrap().to_string(), "AA,AQ+");
}

#[test]
fn printed_text_reads_back() {
    let inputs = [
        "88+",
        "AA:0.5, KK:1.0, QQ:1.0, JJ:0.5",
        "AK,AQ,AJs",
        "KJs+,KQo,KsJh",
        "AhAs-QhQs,JJ",
        "K9s:.67,T8o:0.125,55-22",
        "A2s+:0.3,KcQh:0.999999,72o",
        "AKs:0.5,AcKd:0.000005",
        "AKo,AcKc:0.000001",
        "",
    ];
    for s in inputs {
        let r = s.parse::<Range>().unwrap();
        let text = r.to_string();
        assert_eq!(text.parse::<Range>().unwrap(), r, "{s} printed as {text}");
    }
}

#[test]
fn probabilities_in_millionths() {
    let r = "AKs:.333,QQ:0.1234567,JJ:1.000".parse::<Range>().unwrap();
    assert_eq!(r.get_prob_suited(12, 11), 333_000);
    assert_eq!(r.get_prob_pair(10), 123_456);
    assert_eq!(r.get_prob_pair(9), PROB_ONE);
    assert_eq!(r.get_prob_offsuit(12, 11), 0);
    assert!("AKs:1.0001".parse::<Range>().is_err());
    assert_eq!(r.to_string(), "QQ:0.123456,JJ,AKs:0.333");
}

#[test]
fn first_token_wins() {
    let r = "AA:0.5,AA".parse::<Range>().unwrap();
    assert_eq!(r.get_prob_pair(12), 500_000);
}

#[test]
fn getters_and_setters() {
    let mut r = Range::new();
    assert!(r.is_empty());
    assert!(r.set_prob_by_cards(0, 1, 250_000).is_ok());
    assert_eq!(r.get_prob_by_cards(1, 0), 250_000);
    assert!(!r.is_empty());
    assert!(r.set_prob_by_cards(0, 52, 1).is_err());
    assert!(r.set_prob_by_cards(3, 3, 1).is_err());
    assert!(r.set_prob_by_cards(0, 1, PROB_ONE + 1).is_err());
    assert!(r.set_prob_pair(12, PROB_ONE).is_ok());
    assert_eq!(r.get_prob_pair(12), PROB_ONE);
    assert!(r.set_prob_pair(13, 1).is_err());
    assert!(r.set_prob_suited(5, 5, 1).is_err());
    assert!(r.set_prob_suited(5, 4, 400_000).is_ok());
    assert_eq!(r.get_prob_suited(4, 5), 400_000);
    assert_eq!(r.get_prob_offsuit(4, 5), 0);
    assert!(r.set_prob_offsuit(5, 4, 100_000).is_ok());
    assert_eq!(r.get_prob_offsuit(5, 4), 100_000);
    assert_eq!(prob(r.get_prob_pair(0)), 250_000.0 / 6.0 / PROB_ONE as f64 - (250_000.0f64 / 6.0).fract() / PROB_ONE as f64);
    let full = Range::ones();
    assert_eq!(full.get_prob_pair(3), PROB_ONE);
    assert!(Range::from_raw(&vec![0; 1325]).is_err());
    assert!(Range::from_raw(&vec![PROB_ONE + 1; 1326]).is_err());
    assert_eq!(Range::from_raw(&vec![PROB_ONE; 1326]).unwrap(), full);
}

#[test]
fn suit_isomorphism_of_black_suits() {
    let symmetric = "AcKc,AsKs,QQ,T9o".parse::<Range>().unwrap();
    assert!(symmetric.is_suit_isomorphic(0, 3));
    let lopsided = "AcKc,QQ".parse::<Range>().unwrap();
    assert!(!lopsided.is_suit_isomorphic(0, 3));
    assert!(lopsided.is_suit_isomorphic(1, 2));
}

#[test]
fn single_hands_print_pairs_first() {
    let r = "KcQh,AhAs,2c2d:0.5".parse::<Range>().unwrap();
    assert_eq!(r.to_string(), "AhAs,2c2d:0.5,KcQh");
}
