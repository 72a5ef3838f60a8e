use vstd::prelude::*;

use crate::value::HtmlUrl;
use crate::value::ScoredValue;

verus! {

/// The default idle interval: how long a worker sleeps when its queue
/// is momentarily empty.
pub const IDLE_SECS: u64 = 1;

/// What a download worker does with one loop iteration.
pub enum DownloadStep {
    /// The cancellation signal was seen: stop; no further fetch is issued.
    Stop,
    /// The frontier is momentarily empty: sleep the idle interval
    /// instead of polling again at once.
    Idle { sleep_secs: u64 },
    /// Fetch this URL, carrying its frontier score forward.
    Fetch { url: String, score: usize },
}

/// What an analysis worker does with one loop iteration.
pub enum AnalyseStep {
    /// The cancellation signal was seen: stop; no further ingest is issued.
    Stop,
    /// The fetched-page queue is momentarily empty: sleep the idle
    /// interval instead of polling again at once.
    Idle { sleep_secs: u64 },
    /// Ingest this fetched page under its carried score.
    Analyse { page: HtmlUrl, score: usize },
}

/// The decision a download worker takes after polling the frontier
/// once: stop on cancellation before anything else, sleep a positive
/// idle interval on an empty frontier — never a busy re-poll — and
/// otherwise fetch exactly the entry that was popped.
pub fn download_step(cancelled: bool, next: Option<ScoredValue<String>>, idle_secs: u64) -> (s:
    DownloadStep)
    requires
        idle_secs > 0,
    ensures
        cancelled ==> s is Stop,
        !cancelled && next is None ==> (s matches DownloadStep::Idle { sleep_secs }
            && sleep_secs == idle_secs && sleep_secs > 0),
        !cancelled && next is Some ==> (s matches DownloadStep::Fetch { url, score }
            && url == next->Some_0.value && score == next->Some_0.score),
{
    if cancelled {
        DownloadStep::Stop
    } else {
        match next {
            None => DownloadStep::Idle { sleep_secs: idle_secs },
            Some(sv) => DownloadStep::Fetch { url: sv.value, score: sv.score },
        }
    }
}

/// The decision an analysis worker takes after polling the fetched-page
/// queue once: stop on cancellation before anything else, sleep a
/// positive idle interval on an empty queue — never a busy re-poll —
/// and otherwise analyse exactly the entry that was popped.
pub fn analyse_step(cancelled: bool, next: Option<ScoredValue<HtmlUrl>>, idle_secs: u64) -> (s:
    AnalyseStep)
    requires
        idle_secs > 0,
    ensures
        cancelled ==> s is Stop,
        !cancelled && next is None ==> (s matches AnalyseStep::Idle { sleep_secs }
            && sleep_secs == idle_secs && sleep_secs > 0),
        !cancelled && next is Some ==> (s matches AnalyseStep::Analyse { page, score }
            && page == next->Some_0.value && score == next->Some_0.score),
{
    if cancelled {
        AnalyseStep::Stop
    } else {
        match next {
            None => AnalyseStep::Idle { sleep_secs: idle_secs },
            Some(sv) => AnalyseStep::Analyse { page: sv.value, score: sv.score },
        }
    }
}

/// What a download worker does with the outcome of a fetch: a fetched
/// body is queued for analysis under the score the URL carried; a
/// failed fetch queues nothing — the URL is dropped and the crawl goes
/// on.
pub fn fetch_outcome(url: String, score: usize, body: Option<String>) -> (r: Option<
    ScoredValue<HtmlUrl>,
>)
    ensures
        body matches Some(html) ==> (r matches Some(sv) && sv.score == score && sv.value.url == url
            && sv.value.html == html),
        body is None ==> r is None,
{
    match body {
        Some(html) => Some(ScoredValue { score, value: HtmlUrl { html, url } }),
        None => None,
    }
}

} // verus!
