use sheet_calc::errors::CalcError;
use sheet_calc::ops::{parse_operator, Op};
use sheet_calc::resolve::column_index;

fn headers(names: &[&str]) -> Vec<String> {
    names.iter().map(|n| n.to_string()).collect()
}

#[test]
fn unique_match_returns_index() {
    let hs = headers(&["alpha", "beta"]);
    assert_eq!(column_index(&hs, "al").unwrap(), 0);
    assert_eq!(column_index(&hs, "bet").unwrap(), 1);
}

#[test]
fn match_is_a_search_not_a_full_match() {
    // "lph" is found in the middle of "alpha"
    let hs = headers(&["alpha", "beta"]);
    assert_eq!(column_index(&hs, "lph").unwrap(), 0);
}

#[test]
fn regex_anchors_are_honoured() {
    // only "beta" starts with a 'b', though both headers contain one
    let hs = headers(&["abba", "beta"]);
    assert_eq!(column_index(&hs, "^b").unwrap(), 1);
    assert_eq!(column_index(&hs, "ta$").unwrap(), 1);
}

#[test]
fn zero_matches_fail_with_column_not_found() {
    let hs = headers(&["alpha", "beta"]);
    match column_index(&hs, "gamma") {
        Err(CalcError::ColumnNotFound { pattern }) => assert_eq!(pattern, "gamma"),
        _ => panic!("expected no column to be found"),
    }
}

#[test]
fn several_matches_fail_with_every_candidate_listed() {
    let hs = headers(&["alpha", "beta", "gamma"]);
    match column_index(&hs, "a") {
        Err(CalcError::AmbiguousColumn { pattern, candidates }) => {
            assert_eq!(pattern, "a");
            assert_eq!(
                candidates,
                vec![
                    (0, "alpha".to_string()),
                    (1, "beta".to_string()),
                    (2, "gamma".to_string())
                ]
            );
        }
        _ => panic!("expected an ambiguous column"),
    }
}

#[test]
fn invalid_pattern_is_reported_with_a_message() {
    let hs = headers(&["alpha"]);
    match column_index(&hs, "(") {
        Err(CalcError::InvalidPattern { pattern, message }) => {
            assert_eq!(pattern, "(");
            assert!(!message.is_empty());
        }
        _ => panic!("expected an invalid pattern"),
    }
}

#[test]
fn invalid_pattern_wins_over_empty_headers() {
    let hs: Vec<String> = Vec::new();
    assert!(matches!(
        column_index(&hs, "("),
        Err(CalcError::InvalidPattern { .. })
    ));
    assert!(matches!(
        column_index(&hs, "a"),
        Err(CalcError::ColumnNotFound { .. })
    ));
}

#[test]
fn the_four_operators_parse() {
    assert_eq!(parse_operator("+").unwrap(), Op::Add);
    assert_eq!(parse_operator("-").unwrap(), Op::Sub);
    assert_eq!(parse_operator("*").unwrap(), Op::Mul);
    assert_eq!(parse_operator("/").unwrap(), Op::Div);
}

#[test]
fn other_symbols_are_unsupported() {
    for bad in ["%", "", "++", "add"] {
        match parse_operator(bad) {
            Err(CalcError::UnsupportedOperator { op }) => assert_eq!(op, bad),
            _ => panic!("expected the operator to be refused"),
        }
    }
}
