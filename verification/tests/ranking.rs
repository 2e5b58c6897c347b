use hotpath_service::ranking::Candidate;
use hotpath_service::ranking::rank;
use hotpath_service::score::Score;

fn cand(id: &str, score: f64, ts: Option<&str>) -> Candidate {
    Candidate {
        id: id.as_bytes().to_vec(),
        score: Score { bits: score.to_bits() },
        ts: ts.map(|t| t.as_bytes().to_vec()),
    }
}

fn names(r: Vec<Vec<u8>>) -> Vec<String> {
    r.into_iter().map(|b| String::from_utf8(b).unwrap()).collect()
}

#[test]
fn empty_input_yields_empty_output() {
    let out = rank(Vec::new());
    assert_eq!(out.len(), 0);
}

#[test]
fn single_candidate_is_returned() {
    let out = names(rank(vec![cand("only", 3.5, None)]));
    assert_eq!(out, vec!["only"]);
}

#[test]
fn orders_by_descending_score() {
    let input = vec![
        cand("low", 1.0, None),
        cand("high", 10.0, None),
        cand("mid", 5.5, None),
        cand("negative", -2.0, None),
    ];
    let out = names(rank(input));
    assert_eq!(out, vec!["high", "mid", "low", "negative"]);
}

#[test]
fn output_is_a_permutation_of_input_identifiers() {
    let input = vec![
        cand("b", 2.0, None),
        cand("a", 1.0, Some("2024-05-01")),
        cand("c", 2.0, Some("2024-05-02")),
        cand("a", 3.0, None),
    ];
    let out = names(rank(input));
    assert_eq!(out.len(), 4);
    let mut sorted_out = out.clone();
    sorted_out.sort();
    assert_eq!(sorted_out, vec!["a", "a", "b", "c"]);
}

#[test]
fn rank_is_deterministic_across_calls() {
    let build = || {
        vec![
            cand("x", 4.0, Some("2024-01-01")),
            cand("y", 4.0, Some("2024-01-01")),
            cand("z", 4.0, None),
            cand("w", f64::NAN, Some("2024-01-09")),
        ]
    };
    let first = names(rank(build()));
    let second = names(rank(build()));
    assert_eq!(first, second);
}

#[test]
fn score_tie_breaks_by_later_timestamp() {
    let input = vec![
        cand("older", 7.0, Some("2024-01-01")),
        cand("newer", 7.0, Some("2024-01-02")),
    ];
    let out = names(rank(input));
    assert_eq!(out, vec!["newer", "older"]);
}

#[test]
fn missing_timestamp_sorts_as_empty_string() {
    let input = vec![
        cand("untimed", 7.0, None),
        cand("timed", 7.0, Some("2024-01-01")),
    ];
    let out = names(rank(input));
    assert_eq!(out, vec!["timed", "untimed"]);
}

#[test]
fn empty_timestamp_ties_with_missing_timestamp() {
    let input = vec![
        cand("b", 7.0, Some("")),
        cand("a", 7.0, None),
    ];
    let out = names(rank(input));
    assert_eq!(out, vec!["a", "b"]);
}

#[test]
fn full_tie_breaks_by_ascending_identifier() {
    let input = vec![
        cand("zeta", 2.5, Some("2024-03-03")),
        cand("alpha", 2.5, Some("2024-03-03")),
        cand("mid", 2.5, Some("2024-03-03")),
    ];
    let out = names(rank(input));
    assert_eq!(out, vec!["alpha", "mid", "zeta"]);
}

#[test]
fn nan_scores_rank_below_ordered_scores() {
    let input = vec![
        cand("a", f64::NAN, None),
        cand("b", 5.0, None),
        cand("c", f64::NAN, None),
    ];
    let out = names(rank(input));
    assert_eq!(out, vec!["b", "a", "c"]);
}

#[test]
fn nan_ties_with_nan_whatever_the_payload() {
    // Two distinct NaN bit patterns still tie, so the identifier decides.
    let input = vec![
        Candidate {
            id: b"second".to_vec(),
            score: Score { bits: f64::NAN.to_bits() ^ 1 },
            ts: None,
        },
        Candidate { id: b"first".to_vec(), score: Score { bits: f64::NAN.to_bits() }, ts: None },
    ];
    let out = names(rank(input));
    assert_eq!(out, vec!["first", "second"]);
}

#[test]
fn negative_zero_ties_with_zero() {
    let input = vec![
        cand("neg", -0.0, None),
        cand("pos", 0.0, None),
    ];
    let out = names(rank(input));
    assert_eq!(out, vec!["neg", "pos"]);
}

#[test]
fn infinities_order_around_finite_scores() {
    let input = vec![
        cand("finite", 1.0e308, None),
        cand("top", f64::INFINITY, None),
        cand("bottom", f64::NEG_INFINITY, None),
        cand("nan", f64::NAN, None),
    ];
    let out = names(rank(input));
    assert_eq!(out, vec!["top", "finite", "bottom", "nan"]);
}

#[test]
fn duplicate_identifiers_pass_through() {
    let input = vec![
        cand("dup", 1.0, None),
        cand("dup", 2.0, None),
    ];
    let out = names(rank(input));
    assert_eq!(out, vec!["dup", "dup"]);
}

#[test]
fn example_end_to_end() {
    let input = vec![
        cand("p3", 1.0, Some("2024-01-01")),
        cand("p1", 2.0, Some("2024-01-02")),
        cand("p2", 2.0, Some("2024-01-03")),
    ];
    let out = names(rank(input));
    assert_eq!(out, vec!["p2", "p1", "p3"]);
}
