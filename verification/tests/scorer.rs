use crawler::score::count_matches;
use crawler::score::default_lexicon;
use crawler::score::html_to_score;
use crawler::score::score_with;

#[test]
fn empty_content_scores_zero() {
    assert_eq!(html_to_score(""), 0);
}

#[test]
fn content_without_lexicon_terms_scores_zero() {
    assert_eq!(html_to_score("nothing relevant here at all"), 0);
}

#[test]
fn intern_three_times_contributes_forty_five() {
    assert_eq!(html_to_score("interninternintern"), 45);
}

#[test]
fn intern_contribution_is_independent_of_other_matches() {
    // "intern" three times beside other lexicon terms: its contribution
    // stays exactly 45.
    let with_others = html_to_score("intern rust intern linux intern");
    assert_eq!(with_others, 45 + 5 + 5);
}

#[test]
fn scoring_is_deterministic() {
    let content = "rust internship on embedded linux kernels";
    let first = html_to_score(content);
    let second = html_to_score(content);
    assert_eq!(first, second);
}

#[test]
fn scoring_is_case_insensitive() {
    assert_eq!(html_to_score("INTERN"), 15);
    assert_eq!(html_to_score("InTeRn"), html_to_score("intern"));
}

#[test]
fn substring_matches_count() {
    // "stage" also matches inside "stagecraft".
    assert_eq!(html_to_score("stagecraft"), 13);
    // "internship" holds both "intern" and "internship".
    assert_eq!(html_to_score("internship"), 15 + 5);
}

#[test]
fn occurrences_do_not_overlap() {
    let t: Vec<char> = "aaaa".chars().collect();
    let p: Vec<char> = "aa".chars().collect();
    assert_eq!(count_matches(&t, &p), 2);
}

#[test]
fn empty_pattern_counts_zero() {
    let t: Vec<char> = "abc".chars().collect();
    let p: Vec<char> = Vec::new();
    assert_eq!(count_matches(&t, &p), 0);
}

#[test]
fn lexicon_weights_apply() {
    let lex = default_lexicon();
    assert_eq!(score_with(&lex, "stagiaire"), 14);
    assert_eq!(score_with(&lex, "operating system"), 3);
    assert_eq!(score_with(&lex, "c++ and processors"), 4 + 5);
}

#[test]
fn substituted_lexicon_is_honored() {
    let lex = vec![("ab".to_string(), 7usize), ("b".to_string(), 2usize)];
    // "ab" once (7) and "b" twice (4): the counts are independent.
    assert_eq!(score_with(&lex, "abb"), 7 + 4);
}
