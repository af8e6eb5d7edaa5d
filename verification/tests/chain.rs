use markov_text::markov_chain::MarkovChainBuilder;

fn entry(m: &markov_text::markov_chain::MarkovChain, i: usize, j: usize) -> f64 {
    let row = &m.matrix[i];
    if row.den == 0 {
        0.0
    } else {
        row.num[j] as f64 / row.den as f64
    }
}

fn sample_occurrence() -> MarkovChainBuilder {
    // states 0, 1, 2; transitions: 0->1 three times, 0->2 once, 1->2 once.
    let mut b = MarkovChainBuilder::with_states(vec![
        "a".to_string(),
        "b".to_string(),
        "c".to_string(),
    ]);
    b.add_transition_by_id(0, 1);
    b.add_transition_by_id(0, 1);
    b.add_transition_by_id(0, 1);
    b.add_transition_by_id(0, 2);
    b.add_transition_by_id(1, 2);
    b
}

#[test]
fn builder_two_phase_protocol() {
    let mut b = MarkovChainBuilder::new();
    b.add_state("x".to_string());
    b.add_state("y".to_string());
    // duplicates are ignored
    b.add_state("x".to_string());
    b.finalize_stating();
    // adding a state after the vocabulary is frozen changes nothing
    b.add_state("z".to_string());
    b.add_transition(&"x".to_string(), &"y".to_string());
    let m = b.occurrence_matrix().unwrap();
    assert_eq!(m.len(), 2);
    assert_eq!(m[0], vec![0, 1]);
    assert_eq!(m[1], vec![0, 0]);
    assert_eq!(b.transitions_recorded(), 1);
}

#[test]
fn rows_with_nonzero_sum_are_stochastic() {
    let chain = sample_occurrence().build(1);
    for i in 0..3 {
        let row = &chain.matrix[i];
        let mut sum = 0.0f64;
        for j in 0..3 {
            let p = entry(&chain, i, j);
            assert!((0.0..=1.0).contains(&p));
            sum += p;
        }
        if row.den != 0 {
            assert!((sum - 1.0).abs() < 1e-5);
        }
    }
    assert_eq!(entry(&chain, 0, 1), 0.75);
    assert_eq!(entry(&chain, 0, 2), 0.25);
    assert_eq!(entry(&chain, 1, 2), 1.0);
}

#[test]
fn zero_sum_row_has_no_nan_or_inf() {
    let chain = sample_occurrence().build(2);
    // state 2 ("c") has no outgoing transitions
    assert_eq!(chain.matrix[2].den, 0);
    for j in 0..3 {
        let p = entry(&chain, 2, j);
        assert!(p.is_finite());
        assert_eq!(p, 0.0);
    }
}

#[test]
fn normalizing_is_idempotent_and_job_independent() {
    let first = sample_occurrence().build(1);
    let again = sample_occurrence().build(1);
    for jobs in 1..=4 {
        let par = sample_occurrence().build(jobs);
        assert_eq!(par.matrix.len(), first.matrix.len());
        for i in 0..first.matrix.len() {
            // bit-identical rows, whatever the worker count
            assert_eq!(par.matrix[i].num, first.matrix[i].num);
            assert_eq!(par.matrix[i].den, first.matrix[i].den);
            assert_eq!(again.matrix[i].num, first.matrix[i].num);
            assert_eq!(again.matrix[i].den, first.matrix[i].den);
        }
    }
}

#[test]
fn reset_unknown_token_fails_and_keeps_state() {
    let mut chain = sample_occurrence().build(1);
    assert_eq!(chain.reset(&"b".to_string()), Ok(()));
    let before = chain.current_state;
    assert_eq!(chain.reset(&"xyz".to_string()), Err(()));
    assert_eq!(chain.current_state, before);
    assert_eq!(before, 1);
}

#[test]
fn next_state_from_terminal_row_reports_end_of_walk() {
    let mut chain = sample_occurrence().build(1);
    chain.reset(&"c".to_string()).unwrap();
    assert_eq!(chain.next_state(), None);
    assert_eq!(chain.current_state, 0);
}

#[test]
fn next_state_only_picks_observed_successors() {
    let mut chain = sample_occurrence().build(1);
    for _ in 0..50 {
        chain.reset(&"a".to_string()).unwrap();
        let t = chain.next_state().unwrap();
        assert!(t == "b" || t == "c");
    }
    for _ in 0..20 {
        chain.reset(&"b".to_string()).unwrap();
        assert_eq!(chain.next_state().unwrap(), "c");
    }
}

#[test]
fn empty_builder_builds_empty_chain() {
    let mut b = MarkovChainBuilder::new();
    b.finalize_stating();
    let mut chain = b.build(3);
    assert_eq!(chain.matrix.len(), 0);
    assert_eq!(chain.reset(&"a".to_string()), Err(()));
    assert_eq!(chain.next_state(), None);
}
