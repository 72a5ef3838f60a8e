use crawler::analyser::Analyser;
use crawler::value::HtmlUrl;
use crawler::value::ScoredValue;
use crawler::worker::analyse_step;
use crawler::worker::download_step;
use crawler::worker::fetch_outcome;
use crawler::worker::AnalyseStep;
use crawler::worker::DownloadStep;
use crawler::worker::IDLE_SECS;

#[test]
fn one_ingest_cycle_end_to_end() {
    let mut a = Analyser::new();
    a.seed(&vec!["https://a.test".to_string()], 100);

    let next = a.next_link().unwrap();
    assert_eq!(next.value, "https://a.test");
    assert_eq!(next.score, 100);

    // The fetch "returns" a page with two anchors and the word
    // "intern" once.
    let html = "<a href=\"/x\"></a><a href=\"https://b.test/y\"></a>intern";
    let score = a.analyse_html(&next.value, html).unwrap();
    assert_eq!(score, 15);

    // The visited record holds the page under its fresh score.
    let report = a.report();
    assert_eq!(report.len(), 1);
    assert_eq!(report[0].0, "https://a.test");
    assert_eq!(report[0].1, 15);

    // Both discovered links are pending, each under the parent's score.
    let first = a.next_link().unwrap();
    let second = a.next_link().unwrap();
    assert!(a.next_link().is_none());
    assert_eq!(first.score, 15);
    assert_eq!(second.score, 15);
    let mut urls = vec![first.value, second.value];
    urls.sort();
    assert_eq!(urls, vec!["https://a.test/x".to_string(), "https://b.test/y".to_string()]);
}

#[test]
fn malformed_page_is_recorded_and_skipped() {
    let mut a = Analyser::new();
    let url = "https://a.test".to_string();
    // A comment closed without ever being opened is rejected by the
    // parser; the page is still recorded as visited with its score.
    let err = a.analyse_html(&url, "intern -->");
    assert!(err.is_err());
    let report = a.report();
    assert_eq!(report.len(), 1);
    assert_eq!(report[0].0, "https://a.test");
    assert_eq!(report[0].1, 15);
    assert!(a.next_link().is_none());
}

#[test]
fn report_lines_hold_url_and_score() {
    let mut a = Analyser::new();
    let url = "https://a.test".to_string();
    a.analyse_html(&url, "<a href=\"/x\"></a>internintern").unwrap();
    let text = a.create_report();
    assert_eq!(text, "https://a.test 30\n");
}

#[test]
fn ingesting_a_page_twice_keeps_one_record() {
    let mut a = Analyser::new();
    let url = "https://a.test".to_string();
    a.analyse_html(&url, "intern").unwrap();
    a.analyse_html(&url, "interninternintern").unwrap();
    let report = a.report();
    assert_eq!(report.len(), 1);
    assert_eq!(report[0].1, 45);
}

#[test]
fn cancelled_download_worker_stops() {
    let popped = Some(ScoredValue { value: "https://a.test".to_string(), score: 3 });
    assert!(matches!(download_step(true, popped, IDLE_SECS), DownloadStep::Stop));
    assert!(matches!(download_step(true, None, IDLE_SECS), DownloadStep::Stop));
}

#[test]
fn idle_download_worker_sleeps() {
    match download_step(false, None, IDLE_SECS) {
        DownloadStep::Idle { sleep_secs } => {
            assert_eq!(sleep_secs, IDLE_SECS);
            assert!(sleep_secs > 0);
        },
        _ => panic!("an empty frontier must lead to an idle sleep"),
    }
}

#[test]
fn busy_download_worker_fetches_the_popped_entry() {
    let popped = Some(ScoredValue { value: "https://a.test".to_string(), score: 3 });
    match download_step(false, popped, IDLE_SECS) {
        DownloadStep::Fetch { url, score } => {
            assert_eq!(url, "https://a.test");
            assert_eq!(score, 3);
        },
        _ => panic!("a popped entry must be fetched"),
    }
}

#[test]
fn cancelled_analysis_worker_stops() {
    assert!(matches!(analyse_step(true, None, IDLE_SECS), AnalyseStep::Stop));
}

#[test]
fn idle_analysis_worker_sleeps() {
    match analyse_step(false, None, 3) {
        AnalyseStep::Idle { sleep_secs } => assert_eq!(sleep_secs, 3),
        _ => panic!("an empty queue must lead to an idle sleep"),
    }
}

#[test]
fn analysis_worker_ingests_the_popped_entry() {
    let page = HtmlUrl { html: "<p>intern</p>".to_string(), url: "https://a.test".to_string() };
    let popped = Some(ScoredValue { value: page, score: 7 });
    match analyse_step(false, popped, IDLE_SECS) {
        AnalyseStep::Analyse { page, score } => {
            assert_eq!(page.url, "https://a.test");
            assert_eq!(score, 7);
        },
        _ => panic!("a popped page must be analysed"),
    }
}

#[test]
fn fetched_body_is_queued_under_carried_score() {
    let r = fetch_outcome("https://a.test".to_string(), 9, Some("<p></p>".to_string()));
    let sv = r.unwrap();
    assert_eq!(sv.score, 9);
    assert_eq!(sv.value.url, "https://a.test");
    assert_eq!(sv.value.html, "<p></p>");
}

#[test]
fn failed_fetch_queues_nothing() {
    assert!(fetch_outcome("https://a.test".to_string(), 9, None).is_none());
}

#[test]
fn report_keeps_every_visited_page() {
    let mut a = Analyser::new();
    a.analyse_html(&"https://a.test".to_string(), "intern").unwrap();
    a.analyse_html(&"https://b.test".to_string(), "rust").unwrap();
    let text = a.create_report();
    assert_eq!(text, "https://a.test 15\nhttps://b.test 5\n");
}

#[test]
fn frontier_prefers_links_from_relevant_parents() {
    let mut a = Analyser::new();
    let dull = "https://dull.test".to_string();
    let rich = "https://rich.test".to_string();
    a.push_link("https://dull.test/next", 2, &dull);
    a.push_link("https://rich.test/next", 40, &rich);
    let first = a.next_link().unwrap();
    assert_eq!(first.value, "https://rich.test/next");
    assert_eq!(first.score, 40);
}

#[test]
fn comment_glued_to_tag_is_screened_not_crashed() {
    // The parser cannot survive a comment running straight into the
    // next node; such pages go to the error path, recorded but without
    // link extraction, and the crawl continues.
    let mut a = Analyser::new();
    let url = "https://a.test".to_string();
    let err = a.analyse_html(&url, "<!--x--><a href=\"/y\"></a>intern");
    assert!(err.is_err());
    let report = a.report();
    assert_eq!(report.len(), 1);
    assert_eq!(report[0].1, 15);
    assert!(a.next_link().is_none());
}

#[test]
fn comment_first_inside_an_element_is_screened_not_crashed() {
    // A comment as the first content of an open element, glued to the
    // node after it, is the in-tree shape of the same parser abort.
    let mut a = Analyser::new();
    let url = "https://a.test".to_string();
    let err = a.analyse_html(&url, "<div><!--c--><p>a</p></div>");
    assert!(err.is_err());
    assert_eq!(a.report().len(), 1);
    assert!(a.next_link().is_none());
}

#[test]
fn bang_named_comment_is_screened_not_crashed() {
    // `<!` + name + `--` also opens a comment in this parser; glued to
    // the next tag it aborts the same way and is screened the same way.
    let mut a = Analyser::new();
    let url = "https://a.test".to_string();
    let err = a.analyse_html(&url, "<!x--c--><p>a</p>");
    assert!(err.is_err());
    assert_eq!(a.report().len(), 1);
    assert!(a.next_link().is_none());
}

#[test]
fn comment_led_preamble_is_parsed() {
    // The common comment preamble: any character after the comment
    // close, even a newline, and the page parses with its links taken.
    let mut a = Analyser::new();
    let url = "https://a.test".to_string();
    a.analyse_html(&url, "<!--preamble-->\n<a href=\"/x\"></a>intern").unwrap();
    let got = a.next_link().unwrap();
    assert_eq!(got.value, "https://a.test/x");
    assert_eq!(got.score, 15);
}

#[test]
fn comment_separated_from_tag_is_parsed() {
    let mut a = Analyser::new();
    let url = "https://a.test".to_string();
    a.analyse_html(&url, " <!--c--> <a href=\"/x\"></a>intern").unwrap();
    let got = a.next_link().unwrap();
    assert_eq!(got.value, "https://a.test/x");
    assert_eq!(got.score, 15);
}
