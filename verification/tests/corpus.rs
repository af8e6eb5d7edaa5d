use markov_text::corpora::config::{Config, Corpora as CorporaCfg, Tokenize};
use markov_text::corpora::{build_chain, Corpora};
use markov_text::counts::CountTable;
use markov_text::tokenizer::Tokenizer;

fn cfg(pattern: &str, ignore_case: bool) -> Config {
    Config {
        tokenize: Tokenize { token: pattern.to_string(), ignore_case },
        corpora: CorporaCfg { name: "test".to_string(), texts: Vec::new(), save_statistics: false },
    }
}

#[test]
fn tokenizer_rejects_invalid_pattern() {
    assert!(Tokenizer::new("[", false).is_err());
    assert!(Tokenizer::new("\\S+", false).is_ok());
    assert!(Corpora::open(cfg("(", false)).is_err());
}

#[test]
fn tokenizer_finds_nonoverlapping_matches_in_order() {
    let t = Tokenizer::new("[a-z]+", false).unwrap();
    let toks = t.tokenize("the cat  sat!");
    assert_eq!(toks, vec!["the", "cat", "sat"]);
    assert_eq!(t.tokenize("").len(), 0);
}

#[test]
fn case_folding_happens_before_matching() {
    let t = Tokenizer::new("[a-z]+", true).unwrap();
    let toks = t.tokenize("The CAT");
    // the whole text is folded first, so the tokens come out lowercase
    assert_eq!(toks, vec!["the", "cat"]);
    let strict = Tokenizer::new("[a-z]+", false).unwrap();
    assert_eq!(strict.tokenize("The CAT"), vec!["he"]);
}

#[test]
fn merged_counts_do_not_depend_on_file_order() {
    let texts = ["b a b", "c b a", "a a"];
    let t = Tokenizer::new("[a-z]+", false).unwrap();
    let mut one = CountTable::new();
    for text in texts.iter() {
        let toks = t.tokenize(text);
        one.merge(&CountTable::from_tokens(&toks));
    }
    let mut other = CountTable::new();
    for text in texts.iter().rev() {
        let toks = t.tokenize(text);
        other.merge(&CountTable::from_tokens(&toks));
    }
    assert_eq!(one.into_sorted(), other.into_sorted());
}

#[test]
fn count_table_tracks_occurrences() {
    let mut t = CountTable::new();
    assert!(!t.contains(&"a".to_string()));
    t.bump(&"a".to_string());
    t.bump(&"a".to_string());
    t.bump(&"b".to_string());
    assert!(t.contains(&"a".to_string()));
    assert!(!t.contains(&"c".to_string()));
    assert_eq!(t.total, 3);
    assert_eq!(t.into_sorted(), vec![("a".to_string(), 2), ("b".to_string(), 1)]);
}

#[test]
fn sorted_counts_rank_by_frequency_then_bytes() {
    let t = Tokenizer::new("[a-z]+", false).unwrap();
    let toks = t.tokenize("b a b c a z");
    let sorted = CountTable::from_tokens(&toks).into_sorted();
    assert_eq!(
        sorted,
        vec![
            ("a".to_string(), 2),
            ("b".to_string(), 2),
            ("c".to_string(), 1),
            ("z".to_string(), 1),
        ]
    );
}

#[test]
fn scan_derives_ranked_vocabulary() {
    let mut corp = Corpora::open(cfg("\\S+", false)).unwrap();
    let texts = vec!["the cat sat".to_string(), "the dog sat".to_string()];
    corp.analyze_all(&texts).unwrap();
    // "sat" and "the" occur twice each, "cat" and "dog" once each;
    // ties are broken by byte order
    assert_eq!(corp.tokens, vec!["sat", "the", "cat", "dog"]);
}

#[test]
fn example_scenario_two_line_corpus() {
    let texts = vec!["the cat sat".to_string(), "the dog sat".to_string()];
    let mut chain = build_chain(cfg("\\S+", false), &texts, 2).unwrap();
    assert_eq!(chain.states, vec!["sat", "the", "cat", "dog"]);

    let idx = |tok: &str| chain.states.iter().position(|s| s == tok).unwrap();
    let (sat, the, cat, dog) = (idx("sat"), idx("the"), idx("cat"), idx("dog"));

    // occurrence counts: the->cat 1, the->dog 1, cat->sat 1, dog->sat 1
    assert_eq!(chain.matrix[the].num[cat], 1);
    assert_eq!(chain.matrix[the].num[dog], 1);
    assert_eq!(chain.matrix[cat].num[sat], 1);
    assert_eq!(chain.matrix[dog].num[sat], 1);
    assert_eq!(chain.matrix[the].num[the], 0);
    assert_eq!(chain.matrix[the].num[sat], 0);

    // probability row for "the": cat and dog each one half
    assert_eq!(chain.matrix[the].den, 2);
    assert_eq!(chain.matrix[the].num[cat] as f64 / chain.matrix[the].den as f64, 0.5);
    assert_eq!(chain.matrix[the].num[dog] as f64 / chain.matrix[the].den as f64, 0.5);

    // a walk from "the" only ever visits cat, dog or sat, never "the"
    for _ in 0..30 {
        chain.reset(&"the".to_string()).unwrap();
        loop {
            match chain.next_state() {
                Some(tok) => {
                    assert!(tok == "cat" || tok == "dog" || tok == "sat");
                }
                None => break,
            }
        }
    }

    // "sat" has no outgoing transitions: the walk ends there
    chain.reset(&"sat".to_string()).unwrap();
    assert_eq!(chain.next_state(), None);
}

#[test]
fn reset_then_next_never_self_loops_on_a() {
    let texts = vec!["a b a c".to_string(), "a b a c".to_string()];
    let mut chain = build_chain(cfg("\\S+", false), &texts, 1).unwrap();
    for _ in 0..50 {
        chain.reset(&"a".to_string()).unwrap();
        let t = chain.next_state().unwrap();
        assert!(t == "b" || t == "c");
        assert!(chain.states.contains(&t));
    }
    let mut chain = build_chain(cfg("\\S+", false), &texts, 1).unwrap();
    assert_eq!(chain.reset(&"xyz".to_string()), Err(()));
}

#[test]
fn unreadable_or_short_texts_are_skipped() {
    // a one-token text contributes no transitions
    let texts = vec!["lonely".to_string(), "a b".to_string()];
    let chain = build_chain(cfg("\\S+", false), &texts, 1).unwrap();
    let total: u64 = chain.matrix.iter().map(|r| r.den).sum();
    assert_eq!(total, 1);
}

#[test]
fn empty_corpus_builds_empty_chain() {
    let texts: Vec<String> = Vec::new();
    let mut chain = build_chain(cfg("\\S+", false), &texts, 1).unwrap();
    assert_eq!(chain.states.len(), 0);
    assert_eq!(chain.next_state(), None);
    assert_eq!(chain.reset(&"a".to_string()), Err(()));
}

#[test]
fn invalid_pattern_fails_the_whole_pipeline() {
    let texts = vec!["a b".to_string()];
    assert!(build_chain(cfg("[", false), &texts, 1).is_err());
}

#[test]
fn default_tokenize_config_is_empty_pattern_case_kept() {
    let t: Tokenize = Default::default();
    assert_eq!(t.token, "");
    assert!(!t.ignore_case);
    let old: markov_text::config::Tokenize = Default::default();
    assert_eq!(old.stop, vec![" "]);
    assert!(old.ignore.is_empty());
    assert!(!old.ignore_case);
}
