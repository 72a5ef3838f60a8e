use crawler::analyser::Analyser;
use crawler::queue::PriorityQueue;
use crawler::value::ScoredValue;

#[test]
fn higher_score_pops_first() {
    let mut q: PriorityQueue<&str> = PriorityQueue::new();
    q.push(ScoredValue { value: "low", score: 1 });
    q.push(ScoredValue { value: "high", score: 5 });
    q.push(ScoredValue { value: "mid", score: 3 });
    let a = q.pop_max().unwrap();
    assert_eq!(a.score, 5);
    assert_eq!(a.value, "high");
    let b = q.pop_max().unwrap();
    assert_eq!(b.score, 3);
    let c = q.pop_max().unwrap();
    assert_eq!(c.score, 1);
    assert!(q.pop_max().is_none());
}

#[test]
fn ordering_ignores_value_contents() {
    // The values are in the reverse lexicographic order of the scores:
    // only the scores decide.
    let mut q: PriorityQueue<u64> = PriorityQueue::new();
    q.push(ScoredValue { value: 999, score: 2 });
    q.push(ScoredValue { value: 0, score: 9 });
    assert_eq!(q.pop_max().unwrap().value, 0);
    assert_eq!(q.pop_max().unwrap().value, 999);
}

#[test]
fn seeded_urls_come_back_by_score() {
    let mut a = Analyser::new();
    a.seed(&vec!["https://a.test".to_string()], 100);
    let next = a.next_link().unwrap();
    assert_eq!(next.value, "https://a.test");
    assert_eq!(next.score, 100);
    assert!(a.next_link().is_none());
}

#[test]
fn duplicate_seeds_enter_once() {
    let mut a = Analyser::new();
    a.seed(&vec!["https://a.test".to_string(), "https://a.test".to_string()], 100);
    assert!(a.next_link().is_some());
    assert!(a.next_link().is_none());
}

#[test]
fn duplicate_links_enter_once() {
    let mut a = Analyser::new();
    let parent = "https://a.test".to_string();
    a.push_link("https://c.test/z", 10, &parent);
    a.push_link("https://c.test/z", 10, &parent);
    let only = a.next_link().unwrap();
    assert_eq!(only.value, "https://c.test/z");
    assert_eq!(only.score, 10);
    assert!(a.next_link().is_none());
}

#[test]
fn unresolvable_link_is_skipped() {
    let mut a = Analyser::new();
    let parent = "https://a.test".to_string();
    a.push_link("", 10, &parent);
    assert!(a.next_link().is_none());
}

#[test]
fn relative_link_resolves_against_parent() {
    let mut a = Analyser::new();
    let parent = "https://a.test/dir/page.html".to_string();
    a.push_link("next.html", 4, &parent);
    let got = a.next_link().unwrap();
    assert_eq!(got.value, "https://a.test/dir/next.html");
    assert_eq!(got.score, 4);
}
