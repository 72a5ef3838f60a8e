use vstd::prelude::*;
use vstd::pervasive::VecAdditionalExecFns;
use vstd::string::StringExecFns;

use crate::html::anchors_of;
use crate::html::check_comment_abuts_tag;
use crate::html::comment_abuts_tag;
use crate::html::extract_hrefs;
use crate::html::hrefs_of;
use crate::html::parse_anchors;
use crate::html::views_of;
use crate::queue::first_max_index;
use crate::queue::lemma_first_max_is_max;
use crate::queue::PriorityQueue;
use crate::resolver::resolve;
use crate::resolver::resolve_spec;
use crate::score::html_to_score;
use crate::score::page_score;
use crate::text::chars_of;
use crate::text::string_of;
use crate::value::ScoredValue;

verus! {

/// Whether some entry of `s` views as the URL `u`.
pub open spec fn seq_contains_str(s: Seq<String>, u: Seq<char>) -> bool {
    exists|i: int| 0 <= i < s.len() && #[trigger] s[i]@ == u
}

/// The set of URLs that the entries of `s` view as.
pub open spec fn urls_set(s: Seq<String>) -> Set<Seq<char>>
    decreases s.len(),
{
    if s.len() == 0 {
        Set::<Seq<char>>::empty()
    } else {
        urls_set(s.drop_last()).insert(s.last()@)
    }
}

/// Membership in the URL set is membership in the sequence.
pub proof fn lemma_urls_set_contains(s: Seq<String>, u: Seq<char>)
    ensures
        urls_set(s).contains(u) <==> seq_contains_str(s, u),
    decreases s.len(),
{
    if s.len() > 0 {
        lemma_urls_set_contains(s.drop_last(), u);
        if s.last()@ == u {
            assert(s[s.len() - 1]@ == u);
        }
        if seq_contains_str(s, u) {
            let i = choose|i: int| 0 <= i < s.len() && #[trigger] s[i]@ == u;
            if i < s.len() - 1 {
                assert(s.drop_last()[i]@ == u);
            }
        }
        if seq_contains_str(s.drop_last(), u) {
            let i = choose|i: int| 0 <= i < s.len() - 1 && #[trigger] s.drop_last()[i]@ == u;
            assert(s[i]@ == u);
        }
    }
}

/// The map from visited URL to recorded score that a list of entries
/// stands for; a later entry for the same URL would win.
pub open spec fn pairs_map(s: Seq<(String, usize)>) -> Map<Seq<char>, usize>
    decreases s.len(),
{
    if s.len() == 0 {
        Map::<Seq<char>, usize>::empty()
    } else {
        pairs_map(s.drop_last()).insert(s.last().0@, s.last().1)
    }
}

/// The pending pairs that a queue of scored URLs stands for.
pub open spec fn pending_view(q: Seq<ScoredValue<String>>) -> Seq<(Seq<char>, usize)> {
    q.map(|i: int, sv: ScoredValue<String>| (sv.value@, sv.score))
}

/// The mathematical state of the crawl frontier: the set of URLs ever
/// discovered, the pending entries awaiting download with their scores,
/// and the visited pages with their recorded scores.
pub ghost struct AnalyserView {
    pub discovered: Set<Seq<char>>,
    pub pending: Seq<(Seq<char>, usize)>,
    pub visited: Map<Seq<char>, usize>,
}

/// The crawl frontier: owns deduplication, the priority frontier of
/// pending URLs, and the record of visited pages.
pub struct Analyser {
    discovered: Vec<String>,
    pending: PriorityQueue<String>,
    visited: Vec<(String, usize)>,
}

impl View for Analyser {
    type V = AnalyserView;

    closed spec fn view(&self) -> AnalyserView {
        AnalyserView {
            discovered: urls_set(self.discovered@),
            pending: pending_view(self.pending@),
            visited: pairs_map(self.visited@),
        }
    }
}

impl Analyser {
    /// The visited pages in the order they were recorded.
    pub closed spec fn visited_entries(&self) -> Seq<(Seq<char>, usize)> {
        self.visited@.map(|i: int, e: (String, usize)| (e.0@, e.1))
    }

    /// Internal consistency: no URL is held twice by the discovered set
    /// or the visited record, and every pending URL is discovered.
    pub closed spec fn wf(&self) -> bool {
        &&& forall|i: int, j: int|
            0 <= i < j < self.discovered@.len() ==> #[trigger] self.discovered@[i]@
                != #[trigger] self.discovered@[j]@
        &&& forall|k: int|
            0 <= k < self.pending@.len() ==> urls_set(self.discovered@).contains(
                #[trigger] self.pending@[k].value@,
            )
        &&& forall|i: int, j: int|
            0 <= i < j < self.visited@.len() ==> #[trigger] self.visited@[i].0@
                != #[trigger] self.visited@[j].0@
    }

    pub fn new() -> (a: Self)
        ensures
            a.wf(),
            a@.discovered == Set::<Seq<char>>::empty(),
            a@.pending == Seq::<(Seq<char>, usize)>::empty(),
            a@.visited == Map::<Seq<char>, usize>::empty(),
            a.visited_entries() == Seq::<(Seq<char>, usize)>::empty(),
    {
        let a = Analyser {
            discovered: Vec::new(),
            pending: PriorityQueue::new(),
            visited: Vec::new(),
        };
        assert(a@.pending =~= Seq::<(Seq<char>, usize)>::empty());
        assert(a.visited_entries() =~= Seq::<(Seq<char>, usize)>::empty());
        a
    }

    fn contains_url(&self, u: &String) -> (b: bool)
        ensures
            b == self@.discovered.contains(u@),
    {
        proof {
            lemma_urls_set_contains(self.discovered@, u@);
            assert(self@.discovered == urls_set(self.discovered@));
        }
        let mut i: usize = 0;
        while i < self.discovered.len()
            invariant
                0 <= i <= self.discovered@.len(),
                forall|k: int| 0 <= k < i ==> #[trigger] self.discovered@[k]@ != u@,
            decreases self.discovered@.len() - i,
        {
            if self.discovered[i].eq(u) {
                assert(self.discovered@[i as int]@ == u@);
                assert(seq_contains_str(self.discovered@, u@));
                proof {
                    lemma_urls_set_contains(self.discovered@, u@);
                }
                return true;
            }
            i = i + 1;
        }
        false
    }
}

/// One URL offered to the frontier with a score: a newly seen URL is
/// discovered and enqueued, a known one changes nothing.
pub open spec fn insert_url_spec(st: AnalyserView, u: Seq<char>, score: usize) -> AnalyserView {
    if st.discovered.contains(u) {
        st
    } else {
        AnalyserView {
            discovered: st.discovered.insert(u),
            pending: st.pending.push((u, score)),
            visited: st.visited,
        }
    }
}

/// One href from a page: resolved against the page URL and offered to
/// the frontier; an unresolvable href changes nothing.
pub open spec fn push_link_spec(
    st: AnalyserView,
    base: Seq<char>,
    href: Seq<char>,
    score: usize,
) -> AnalyserView {
    match resolve_spec(base, href) {
        Some(u) => insert_url_spec(st, u, score),
        None => st,
    }
}

/// All hrefs of a page offered to the frontier in order.
pub open spec fn ingest_links_spec(
    st: AnalyserView,
    hrefs: Seq<Seq<char>>,
    base: Seq<char>,
    score: usize,
) -> AnalyserView
    decreases hrefs.len(),
{
    if hrefs.len() == 0 {
        st
    } else {
        ingest_links_spec(push_link_spec(st, base, hrefs[0], score), hrefs.skip(1), base, score)
    }
}

/// Seed URLs offered to the frontier in order: each is inserted as it
/// stands, deduplicated against the discovered set like any other URL.
pub open spec fn seed_spec(st: AnalyserView, urls: Seq<Seq<char>>, score: usize) -> AnalyserView
    decreases urls.len(),
{
    if urls.len() == 0 {
        st
    } else {
        seed_spec(insert_url_spec(st, urls[0], score), urls.skip(1), score)
    }
}

/// Recording a page as visited with its computed score.
pub open spec fn record_visited_spec(st: AnalyserView, u: Seq<char>, score: usize) -> AnalyserView {
    AnalyserView { discovered: st.discovered, pending: st.pending, visited: st.visited.insert(u, score) }
}

impl Analyser {
    /// Atomic membership test and insert: a URL never enters the
    /// discovered set or the frontier twice.
    fn insert_url(&mut self, url: String, score: usize)
        requires
            old(self).wf(),
        ensures
            final(self).wf(),
            final(self)@ == insert_url_spec(old(self)@, url@, score),
            final(self).visited_entries() == old(self).visited_entries(),
    {
        if !self.contains_url(&url) {
            proof {
                lemma_urls_set_contains(self.discovered@, url@);
            }
            let ghost d0 = self.discovered@;
            let ghost q0 = self.pending@;
            let url2 = url.clone();
            self.discovered.push(url);
            self.pending.push(ScoredValue { value: url2, score });
            proof {
                assert(self.discovered@.drop_last() =~= d0);
                assert(urls_set(self.discovered@) == urls_set(d0).insert(self.discovered@.last()@));
                assert(self@.pending =~= pending_view(q0).push((self.discovered@.last()@, score)));
                assert forall|i: int, j: int| 0 <= i < j < self.discovered@.len() implies
                    #[trigger] self.discovered@[i]@ != #[trigger] self.discovered@[j]@ by {
                    if j == self.discovered@.len() - 1 {
                        assert(d0[i]@ == self.discovered@[i]@);
                    } else {
                        assert(d0[i]@ == self.discovered@[i]@ && d0[j]@ == self.discovered@[j]@);
                    }
                }
                assert forall|k: int| 0 <= k < self.pending@.len() implies urls_set(
                    self.discovered@,
                ).contains(#[trigger] self.pending@[k].value@) by {
                    if k < self.pending@.len() - 1 {
                        assert(self.pending@[k] == q0[k]);
                    }
                }
            }
        }
    }

    /// Inserts each seed URL into the discovered set and the frontier,
    /// each with the given starting score.
    pub fn seed(&mut self, urls: &Vec<String>, score: usize)
        requires
            old(self).wf(),
        ensures
            final(self).wf(),
            final(self)@ == seed_spec(old(self)@, views_of(urls@), score),
            final(self).visited_entries() == old(self).visited_entries(),
    {
        let ghost vs = views_of(urls@);
        let mut i: usize = 0;
        assert(vs.skip(0) =~= vs);
        while i < urls.len()
            invariant
                0 <= i <= urls@.len(),
                vs == views_of(urls@),
                self.wf(),
                seed_spec(old(self)@, vs, score) == seed_spec(self@, vs.skip(i as int), score),
                self.visited_entries() == old(self).visited_entries(),
            decreases urls@.len() - i,
        {
            let u = urls[i].clone();
            assert(vs.skip(i as int)[0] == u@);
            assert(vs.skip(i as int).skip(1) =~= vs.skip(i + 1));
            self.insert_url(u, score);
            i = i + 1;
        }
        assert(vs.skip(i as int) =~= Seq::<Seq<char>>::empty());
    }

    /// Resolves one href against the page that carried it and offers the
    /// canonical URL to the frontier; an unresolvable href is skipped.
    pub fn push_link(&mut self, href: &str, score: usize, parent: &String)
        requires
            old(self).wf(),
        ensures
            final(self).wf(),
            final(self)@ == push_link_spec(old(self)@, parent@, href@, score),
            final(self).visited_entries() == old(self).visited_entries(),
    {
        match resolve(parent.as_str(), href) {
            Ok(u) => self.insert_url(u, score),
            Err(_) => {},
        }
    }
}

/// The keys listed by unique entries are exactly the keys of the map
/// they stand for, each with its listed score.
proof fn lemma_pairs_map_entries(s: Seq<(String, usize)>)
    requires
        forall|a: int, b: int| 0 <= a < b < s.len() ==> #[trigger] s[a].0@ != #[trigger] s[b].0@,
    ensures
        forall|i: int|
            0 <= i < s.len() ==> pairs_map(s).contains_key(#[trigger] s[i].0@) && pairs_map(s)[s[i].0@]
                == s[i].1,
        forall|u: Seq<char>|
            pairs_map(s).contains_key(u) ==> exists|i: int| 0 <= i < s.len() && #[trigger] s[i].0@ == u,
    decreases s.len(),
{
    if s.len() > 0 {
        let dl = s.drop_last();
        assert forall|a: int, b: int| 0 <= a < b < dl.len() implies #[trigger] dl[a].0@
            != #[trigger] dl[b].0@ by {
            assert(dl[a] == s[a] && dl[b] == s[b]);
        }
        lemma_pairs_map_entries(dl);
        assert forall|i: int| 0 <= i < s.len() implies pairs_map(s).contains_key(
            #[trigger] s[i].0@,
        ) && pairs_map(s)[s[i].0@] == s[i].1 by {
            if i < s.len() - 1 {
                assert(dl[i] == s[i]);
                assert(s[s.len() - 1].0@ != s[i].0@);
            }
        }
        assert forall|u: Seq<char>| pairs_map(s).contains_key(u) implies exists|i: int|
            0 <= i < s.len() && #[trigger] s[i].0@ == u by {
            if u == s.last().0@ {
                assert(s[s.len() - 1].0@ == u);
            } else {
                assert(pairs_map(dl).contains_key(u));
                let i = choose|i: int| 0 <= i < dl.len() && #[trigger] dl[i].0@ == u;
                assert(s[i].0@ == u);
            }
        }
    }
}

/// Updating the entry that holds a key is inserting into the map.
proof fn lemma_pairs_map_update(s: Seq<(String, usize)>, i: int, e: (String, usize))
    requires
        0 <= i < s.len(),
        s[i].0@ == e.0@,
        forall|a: int, b: int| 0 <= a < b < s.len() ==> #[trigger] s[a].0@ != #[trigger] s[b].0@,
    ensures
        pairs_map(s.update(i, e)) == pairs_map(s).insert(e.0@, e.1),
    decreases s.len(),
{
    let t = s.update(i, e);
    if i == s.len() - 1 {
        assert(t.drop_last() =~= s.drop_last());
        assert(t.last() == e);
        assert(pairs_map(s.drop_last()).insert(e.0@, e.1) =~= pairs_map(s.drop_last()).insert(
            s.last().0@,
            s.last().1,
        ).insert(e.0@, e.1));
    } else {
        let dl = s.drop_last();
        assert(t.drop_last() =~= dl.update(i, e));
        assert(t.last() == s.last());
        assert forall|a: int, b: int| 0 <= a < b < dl.len() implies #[trigger] dl[a].0@
            != #[trigger] dl[b].0@ by {
            assert(dl[a] == s[a] && dl[b] == s[b]);
        }
        assert(dl[i] == s[i]);
        lemma_pairs_map_update(dl, i, e);
        assert(s.last().0@ != e.0@);
        assert(pairs_map(dl).insert(e.0@, e.1).insert(s.last().0@, s.last().1) =~= pairs_map(
            dl,
        ).insert(s.last().0@, s.last().1).insert(e.0@, e.1));
    }
}

impl Analyser {
    /// Records the computed score of a visited page, overwriting any
    /// earlier record for the same URL.
    fn record_visited(&mut self, url: &String, score: usize)
        requires
            old(self).wf(),
        ensures
            final(self).wf(),
            final(self)@ == record_visited_spec(old(self)@, url@, score),
    {
        let mut i: usize = 0;
        while i < self.visited.len()
            invariant
                0 <= i <= self.visited@.len(),
                *self == *old(self),
                old(self).wf(),
                forall|k: int| 0 <= k < i ==> #[trigger] self.visited@[k].0@ != url@,
            decreases self.visited@.len() - i,
        {
            if self.visited[i].0.eq(url) {
                let ghost v0 = self.visited@;
                self.visited.set(i, (url.clone(), score));
                proof {
                    lemma_pairs_map_update(v0, i as int, (self.visited@[i as int].0, score));
                    assert forall|a: int, b: int| 0 <= a < b < self.visited@.len() implies
                        #[trigger] self.visited@[a].0@ != #[trigger] self.visited@[b].0@ by {
                        if a != i && b != i {
                            assert(self.visited@[a] == v0[a] && self.visited@[b] == v0[b]);
                        } else if a == i {
                            assert(self.visited@[b] == v0[b] && v0[i as int].0@ == url@);
                        } else {
                            assert(self.visited@[a] == v0[a] && v0[i as int].0@ == url@);
                        }
                    }
                }
                return ;
            }
            i = i + 1;
        }
        let ghost v0 = self.visited@;
        self.visited.push((url.clone(), score));
        proof {
            assert(self.visited@.drop_last() =~= v0);
            assert(self.visited@.last().0@ == url@);
            assert forall|a: int, b: int| 0 <= a < b < self.visited@.len() implies
                #[trigger] self.visited@[a].0@ != #[trigger] self.visited@[b].0@ by {
                if b < self.visited@.len() - 1 {
                    assert(self.visited@[a] == v0[a] && self.visited@[b] == v0[b]);
                } else {
                    assert(self.visited@[a] == v0[a]);
                }
            }
        }
    }

    /// Scores a fetched page, extracts and resolves its links, offers
    /// the new ones to the frontier with the page's fresh score, and
    /// records the page as visited. A page whose markup is rejected —
    /// by the parser, or before it for the family of documents the
    /// parser cannot survive — is still recorded, an error description
    /// is returned, and the crawl is unaffected.
    pub fn analyse_html(&mut self, url: &String, html: &str) -> (r: Result<usize, String>)
        requires
            old(self).wf(),
        ensures
            final(self).wf(),
            ({
                let sc = page_score(html@);
                if comment_abuts_tag(html@) {
                    final(self)@ == record_visited_spec(old(self)@, url@, sc) && r is Err
                } else {
                    match anchors_of(html@) {
                        Some(tree) => final(self)@ == record_visited_spec(
                            ingest_links_spec(old(self)@, hrefs_of(tree), url@, sc),
                            url@,
                            sc,
                        ) && r == Ok::<usize, String>(sc),
                        None => final(self)@ == record_visited_spec(old(self)@, url@, sc) && r
                            is Err,
                    }
                }
            }),
    {
        let score = html_to_score(html);
        if check_comment_abuts_tag(html) {
            self.record_visited(url, score);
            return Err(
                String::from_str("unsupported markup: a comment runs straight into the next tag"),
            );
        }
        match parse_anchors(html) {
            Ok(tree) => {
                let ghost hs = hrefs_of(tree);
                let hrefs = extract_hrefs(tree);
                let ghost st0 = self@;
                let mut i: usize = 0;
                assert(hs.skip(0) =~= hs);
                while i < hrefs.len()
                    invariant
                        0 <= i <= hrefs@.len(),
                        views_of(hrefs@) == hs,
                        self.wf(),
                        ingest_links_spec(st0, hs, url@, score) == ingest_links_spec(
                            self@,
                            hs.skip(i as int),
                            url@,
                            score,
                        ),
                    decreases hrefs@.len() - i,
                {
                    assert(hs.skip(i as int)[0] == hrefs@[i as int]@);
                    assert(hs.skip(i as int).skip(1) =~= hs.skip(i + 1));
                    self.push_link(hrefs[i].as_str(), score, url);
                    i = i + 1;
                }
                assert(hs.skip(i as int) =~= Seq::<Seq<char>>::empty());
                self.record_visited(url, score);
                Ok(score)
            },
            Err(e) => {
                self.record_visited(url, score);
                Err(e)
            },
        }
    }

    /// Atomically pops the highest-score pending entry, or returns
    /// nothing when the frontier is momentarily exhausted — it never
    /// blocks; the caller decides the idle policy.
    pub fn next_link(&mut self) -> (r: Option<ScoredValue<String>>)
        requires
            old(self).wf(),
        ensures
            final(self).wf(),
            final(self)@.discovered == old(self)@.discovered,
            final(self)@.visited == old(self)@.visited,
            old(self)@.pending.len() == 0 ==> r is None && final(self)@ == old(self)@,
            old(self)@.pending.len() > 0 ==> ({
                let k = pair_first_max(old(self)@.pending);
                &&& (r matches Some(sv) && (sv.value@, sv.score) == old(self)@.pending[k])
                &&& final(self)@.pending == old(self)@.pending.remove(k)
                &&& forall|j: int|
                    0 <= j < old(self)@.pending.len() ==> (#[trigger] old(self)@.pending[j]).1
                        <= old(self)@.pending[k].1
            }),
    {
        let ghost q0 = self.pending@;
        let r = self.pending.pop_max();
        proof {
            if q0.len() > 0 {
                lemma_pair_first_max_map(q0);
                lemma_first_max_is_max(q0);
                let k = first_max_index(q0);
                assert(pending_view(self.pending@) =~= pending_view(q0).remove(k));
                assert forall|j: int| 0 <= j < pending_view(q0).len() implies (
                #[trigger] pending_view(q0)[j]).1 <= pending_view(q0)[k].1 by {
                    assert(pending_view(q0)[j].1 == q0[j].score);
                    assert(pending_view(q0)[k].1 == q0[k].score);
                }
                assert forall|j: int| 0 <= j < self.pending@.len() implies urls_set(
                    self.discovered@,
                ).contains(#[trigger] self.pending@[j].value@) by {
                    assert(self.pending@ == q0.remove(k));
                    if j < k {
                        assert(self.pending@[j] == q0[j]);
                    } else {
                        assert(self.pending@[j] == q0[j + 1]);
                    }
                }
            }
        }
        r
    }
}

/// The index that a pop takes from the pending pairs: the first entry
/// of maximal score.
pub open spec fn pair_first_max(s: Seq<(Seq<char>, usize)>) -> int
    decreases s.len(),
{
    if s.len() <= 1 {
        0
    } else {
        let k = pair_first_max(s.drop_last());
        if s.last().1 > s[k].1 {
            s.len() - 1
        } else {
            k
        }
    }
}

/// The first maximal pending pair is the first maximal queue entry.
proof fn lemma_pair_first_max_map(q: Seq<ScoredValue<String>>)
    requires
        q.len() > 0,
    ensures
        pair_first_max(pending_view(q)) == first_max_index(q),
    decreases q.len(),
{
    assert(pending_view(q).len() == q.len());
    if q.len() > 1 {
        lemma_pair_first_max_map(q.drop_last());
        lemma_first_max_is_max(q.drop_last());
        assert(pending_view(q).drop_last() =~= pending_view(q.drop_last()));
        assert(pending_view(q).last().1 == q.last().score);
        let k = first_max_index(q.drop_last());
        assert(pending_view(q)[k].1 == q[k].score);
    }
}

/// The decimal digit character for `d`.
pub open spec fn digit_char(d: nat) -> char {
    if d == 0 {
        '0'
    } else if d == 1 {
        '1'
    } else if d == 2 {
        '2'
    } else if d == 3 {
        '3'
    } else if d == 4 {
        '4'
    } else if d == 5 {
        '5'
    } else if d == 6 {
        '6'
    } else if d == 7 {
        '7'
    } else if d == 8 {
        '8'
    } else {
        '9'
    }
}

/// The decimal digits of `n`, most significant first.
pub open spec fn dec_digits(n: nat) -> Seq<char>
    decreases n,
{
    if n < 10 {
        seq![digit_char(n)]
    } else {
        dec_digits(n / 10).push(digit_char(n % 10))
    }
}

fn digit_exec(d: usize) -> (c: char)
    requires
        d < 10,
    ensures
        c == digit_char(d as nat),
{
    if d == 0 {
        '0'
    } else if d == 1 {
        '1'
    } else if d == 2 {
        '2'
    } else if d == 3 {
        '3'
    } else if d == 4 {
        '4'
    } else if d == 5 {
        '5'
    } else if d == 6 {
        '6'
    } else if d == 7 {
        '7'
    } else if d == 8 {
        '8'
    } else {
        '9'
    }
}

/// Appends the decimal form of `n` to `out`.
fn push_decimal(out: &mut Vec<char>, n: usize)
    ensures
        final(out)@ == old(out)@ + dec_digits(n as nat),
{
    let mut rev: Vec<char> = Vec::new();
    let mut m: usize = n / 10;
    rev.push(digit_exec(n % 10));
    assert(rev@ =~= seq![digit_char(n as nat % 10)]);
    assert(rev@.reverse() =~= rev@);
    while m > 0
        invariant
            dec_digits(n as nat) == if m > 0 {
                dec_digits(m as nat) + rev@.reverse()
            } else {
                rev@.reverse()
            },
        decreases m,
    {
        let ghost rev0 = rev@;
        let d = m % 10;
        rev.push(digit_exec(d));
        assert(rev@.reverse() =~= seq![digit_char(d as nat)] + rev0.reverse());
        let m2 = m / 10;
        assert(dec_digits(m as nat) == if m2 > 0 {
            dec_digits(m2 as nat).push(digit_char(d as nat))
        } else {
            seq![digit_char(d as nat)]
        });
        assert(dec_digits(m as nat) + rev0.reverse() =~= (if m2 > 0 {
            dec_digits(m2 as nat)
        } else {
            Seq::<char>::empty()
        }) + rev@.reverse());
        assert(Seq::<char>::empty() + rev@.reverse() =~= rev@.reverse());
        m = m2;
    }
    let ghost out0 = out@;
    let mut k: usize = 0;
    let rl = rev.len();
    assert(out@ =~= out0 + rev@.reverse().take(0));
    while k < rl
        invariant
            0 <= k <= rl,
            rl == rev@.len(),
            out@ == out0 + rev@.reverse().take(k as int),
            dec_digits(n as nat) == rev@.reverse(),
        decreases rl - k,
    {
        out.push(rev[rl - 1 - k]);
        assert(rev@.reverse()[k as int] == rev@[rl - 1 - k]);
        assert(rev@.reverse().take(k + 1) =~= rev@.reverse().take(k as int).push(
            rev@.reverse()[k as int],
        ));
        assert(out@ =~= out0 + rev@.reverse().take(k + 1));
        k = k + 1;
    }
    assert(rev@.reverse().take(rl as int) =~= rev@.reverse());
}

/// The report text of the visited pages, one `url score` line each, in
/// the order the pages were recorded.
pub open spec fn report_of(entries: Seq<(Seq<char>, usize)>) -> Seq<char>
    decreases entries.len(),
{
    if entries.len() == 0 {
        Seq::<char>::empty()
    } else {
        report_of(entries.drop_last()) + entries.last().0 + seq![' '] + dec_digits(
            entries.last().1 as nat,
        ) + seq!['\n']
    }
}

impl Analyser {
    /// The report text for every visited page: one line per page with
    /// its URL and recorded score.
    pub fn create_report(&self) -> (r: String)
        ensures
            r@ == report_of(self.visited_entries()),
    {
        let ghost entries = self.visited_entries();
        let mut out: Vec<char> = Vec::new();
        let mut i: usize = 0;
        assert(entries.take(0) =~= Seq::<(Seq<char>, usize)>::empty());
        assert(out@ =~= report_of(entries.take(0)));
        while i < self.visited.len()
            invariant
                0 <= i <= self.visited@.len(),
                entries == self.visited_entries(),
                out@ == report_of(entries.take(i as int)),
            decreases self.visited@.len() - i,
        {
            let ghost o0 = out@;
            let url_chars = chars_of(self.visited[i].0.as_str());
            let mut uc = url_chars;
            out.append(&mut uc);
            out.push(' ');
            push_decimal(&mut out, self.visited[i].1);
            out.push('\n');
            proof {
                assert(entries.take(i + 1).drop_last() =~= entries.take(i as int));
                assert(entries.take(i + 1).last() == entries[i as int]);
                assert(entries[i as int].0 == self.visited@[i as int].0@);
                assert(entries[i as int].1 == self.visited@[i as int].1);
                assert(out@ =~= o0 + entries[i as int].0 + seq![' '] + dec_digits(
                    entries[i as int].1 as nat,
                ) + seq!['\n']);
            }
            i = i + 1;
        }
        assert(entries.take(i as int) =~= entries);
        string_of(&out)
    }

    /// A snapshot of the visited pages and their scores, suitable for
    /// serialization: the same entries, the same mapping.
    pub fn report(&self) -> (r: Vec<(String, usize)>)
        ensures
            r@.map(|i: int, e: (String, usize)| (e.0@, e.1)) == self.visited_entries(),
            pairs_map(r@) == self@.visited,
    {
        let mut r: Vec<(String, usize)> = Vec::new();
        let mut i: usize = 0;
        while i < self.visited.len()
            invariant
                0 <= i <= self.visited@.len(),
                r@ =~= self.visited@.take(i as int),
            decreases self.visited@.len() - i,
        {
            r.push((self.visited[i].0.clone(), self.visited[i].1));
            assert(r@ =~= self.visited@.take(i + 1));
            i = i + 1;
        }
        assert(r@ =~= self.visited@);
        assert(r@.map(|i: int, e: (String, usize)| (e.0@, e.1)) =~= self.visited_entries());
        r
    }
}

/// Every page in the visited record stands in the report snapshot with
/// its recorded score, and nothing else does.
pub proof fn lemma_report_complete(a: &Analyser)
    requires
        a.wf(),
    ensures
        forall|i: int|
            0 <= i < a.visited_entries().len() ==> a@.visited.contains_key(
                (#[trigger] a.visited_entries()[i]).0,
            ) && a@.visited[a.visited_entries()[i].0] == a.visited_entries()[i].1,
        forall|u: Seq<char>|
            a@.visited.contains_key(u) ==> exists|i: int|
                0 <= i < a.visited_entries().len() && (#[trigger] a.visited_entries()[i]).0 == u,
{
    lemma_pairs_map_entries(a.visited@);
    assert forall|i: int| 0 <= i < a.visited_entries().len() implies a@.visited.contains_key(
        (#[trigger] a.visited_entries()[i]).0,
    ) && a@.visited[a.visited_entries()[i].0] == a.visited_entries()[i].1 by {
        assert(a.visited_entries()[i].0 == a.visited@[i].0@);
        assert(a.visited_entries()[i].1 == a.visited@[i].1);
    }
    assert forall|u: Seq<char>| a@.visited.contains_key(u) implies exists|i: int|
        0 <= i < a.visited_entries().len() && (#[trigger] a.visited_entries()[i]).0 == u by {
        let i = choose|i: int| 0 <= i < a.visited@.len() && #[trigger] a.visited@[i].0@ == u;
        assert(a.visited_entries()[i].0 == u);
    }
}

/// Every URL awaiting download is already in the discovered set.
pub proof fn lemma_pending_discovered(a: &Analyser)
    requires
        a.wf(),
    ensures
        forall|k: int|
            0 <= k < a@.pending.len() ==> a@.discovered.contains((#[trigger] a@.pending[k]).0),
{
    assert forall|k: int| 0 <= k < a@.pending.len() implies a@.discovered.contains(
        (#[trigger] a@.pending[k]).0,
    ) by {
        assert(a@.pending[k].0 == a.pending@[k].value@);
    }
}

/// A URL already discovered is never discovered or enqueued again:
/// offering it changes nothing, however many pages reference it.
pub proof fn lemma_discovered_at_most_once(st: AnalyserView, u: Seq<char>, score: usize)
    requires
        st.discovered.contains(u),
    ensures
        insert_url_spec(st, u, score) == st,
{
}

/// Ingesting a page only grows the discovered set, only appends to the
/// pending frontier, and every appended entry carries a URL that was
/// not discovered before the ingest, is discovered after it, and
/// differs from the URL of every other appended entry: across the
/// ingest each URL gains at most one frontier entry.
pub proof fn lemma_ingest_gains_once(
    st: AnalyserView,
    hrefs: Seq<Seq<char>>,
    base: Seq<char>,
    score: usize,
)
    ensures
        ({
            let r = ingest_links_spec(st, hrefs, base, score);
            &&& r.pending.len() >= st.pending.len()
            &&& forall|i: int| 0 <= i < st.pending.len() ==> r.pending[i] == st.pending[i]
            &&& st.discovered.subset_of(r.discovered)
            &&& r.visited == st.visited
            &&& forall|i: int, j: int|
                st.pending.len() <= i < j < r.pending.len() ==> (#[trigger] r.pending[i]).0 != (
                #[trigger] r.pending[j]).0
            &&& forall|i: int|
                st.pending.len() <= i < r.pending.len() ==> !st.discovered.contains(
                    (#[trigger] r.pending[i]).0,
                ) && r.discovered.contains(r.pending[i].0) && r.pending[i].1 == score
        }),
    decreases hrefs.len(),
{
    if hrefs.len() > 0 {
        let st1 = push_link_spec(st, base, hrefs[0], score);
        lemma_ingest_gains_once(st1, hrefs.skip(1), base, score);
        let r = ingest_links_spec(st1, hrefs.skip(1), base, score);
        assert(ingest_links_spec(st, hrefs, base, score) == r);
        assert forall|i: int, j: int|
            st.pending.len() <= i < j < r.pending.len() implies (#[trigger] r.pending[i]).0 != (
        #[trigger] r.pending[j]).0 by {
            if i >= st1.pending.len() {
            } else {
                assert(st1.pending.len() <= st.pending.len() + 1);
                assert(i == st.pending.len() && st1.pending.len() == st.pending.len() + 1);
                assert(r.pending[i] == st1.pending[i]);
                assert(st1.discovered.contains(st1.pending[i].0));
                assert(!st1.discovered.contains(r.pending[j].0));
            }
        }
        assert forall|i: int|
            st.pending.len() <= i < r.pending.len() implies !st.discovered.contains(
            (#[trigger] r.pending[i]).0,
        ) && r.discovered.contains(r.pending[i].0) && r.pending[i].1 == score by {
            if i < st1.pending.len() {
                assert(r.pending[i] == st1.pending[i]);
            }
        }
    }
}

/// Every href of an ingested page that resolves to a URL not already
/// discovered ends up in the pending frontier, paired with the page's
/// freshly computed score.
pub proof fn lemma_ingest_enqueues_new(
    st: AnalyserView,
    hrefs: Seq<Seq<char>>,
    base: Seq<char>,
    score: usize,
    k: int,
    u: Seq<char>,
)
    requires
        0 <= k < hrefs.len(),
        resolve_spec(base, hrefs[k]) == Some(u),
        !st.discovered.contains(u),
    ensures
        ingest_links_spec(st, hrefs, base, score).pending.contains((u, score)),
    decreases hrefs.len(),
{
    let st1 = push_link_spec(st, base, hrefs[0], score);
    let r = ingest_links_spec(st1, hrefs.skip(1), base, score);
    assert(ingest_links_spec(st, hrefs, base, score) == r);
    lemma_ingest_gains_once(st1, hrefs.skip(1), base, score);
    if k == 0 {
        assert(st1.pending.last() == (u, score));
        let i = st1.pending.len() - 1;
        assert(r.pending[i] == st1.pending[i]);
    } else {
        assert(hrefs.skip(1)[k - 1] == hrefs[k]);
        if st1.discovered.contains(u) {
            assert(st1.pending.last() == (u, score));
            let i = st1.pending.len() - 1;
            assert(r.pending[i] == st1.pending[i]);
        } else {
            lemma_ingest_enqueues_new(st1, hrefs.skip(1), base, score, k - 1, u);
        }
    }
}

/// The post-state of a full page ingest keeps every frontier entry the
/// link pass added: each href that resolves to a URL not already
/// discovered stands in the pending frontier, under the page's freshly
/// computed score, after the page itself is recorded as visited.
pub proof fn lemma_page_links_enqueued(
    st: AnalyserView,
    hrefs: Seq<Seq<char>>,
    base: Seq<char>,
    score: usize,
    k: int,
    u: Seq<char>,
)
    requires
        0 <= k < hrefs.len(),
        resolve_spec(base, hrefs[k]) == Some(u),
        !st.discovered.contains(u),
    ensures
        record_visited_spec(
            ingest_links_spec(st, hrefs, base, score),
            base,
            score,
        ).pending.contains((u, score)),
{
    lemma_ingest_enqueues_new(st, hrefs, base, score, k, u);
}

} // verus!
