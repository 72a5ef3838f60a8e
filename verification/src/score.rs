use vstd::prelude::*;
use vstd::string::StringExecFns;

use crate::text::chars_of;

verus! {

/// The case-folded form of a character sequence.
pub uninterp spec fn lower_of(s: Seq<char>) -> Seq<char>;

/// Relies on `str::to_lowercase`: the result depends on the characters
/// of the input alone, and lowercasing the empty string yields the
/// empty string.
#[verifier::external_body]
pub(crate) fn lowercased(s: &str) -> (r: String)
    ensures
        r@ == lower_of(s@),
        s@.len() == 0 ==> r@.len() == 0,
{
    s.to_lowercase()
}

/// Number of non-overlapping occurrences of `p` in `t`, counted greedily
/// from the left. An empty pattern counts as zero occurrences.
pub open spec fn count_occurrences(t: Seq<char>, p: Seq<char>) -> nat
    decreases t.len(),
{
    if p.len() == 0 || t.len() < p.len() {
        0
    } else if t.subrange(0, p.len() as int) == p {
        1 + count_occurrences(t.skip(p.len() as int), p)
    } else {
        count_occurrences(t.skip(1), p)
    }
}

/// Total weighted score of `t` under the lexicon `lex`: the sum over the
/// entries of occurrence count times weight.
pub open spec fn score_of(lex: Seq<(Seq<char>, nat)>, t: Seq<char>) -> nat
    decreases lex.len(),
{
    if lex.len() == 0 {
        0
    } else {
        score_of(lex.drop_last(), t) + count_occurrences(t, lex.last().0) * lex.last().1
    }
}

/// The mathematical lexicon that an executable lexicon stands for.
pub open spec fn lex_view(l: Seq<(String, usize)>) -> Seq<(Seq<char>, nat)> {
    l.map(|i: int, e: (String, usize)| (e.0@, e.1 as nat))
}

/// The score distributes over a split of the lexicon: entries contribute
/// independently of what other entries surround them.
pub proof fn lemma_score_split(lex1: Seq<(Seq<char>, nat)>, lex2: Seq<(Seq<char>, nat)>, t: Seq<char>)
    ensures
        score_of(lex1 + lex2, t) == score_of(lex1, t) + score_of(lex2, t),
    decreases lex2.len(),
{
    if lex2.len() == 0 {
        assert(lex1 + lex2 =~= lex1);
    } else {
        lemma_score_split(lex1, lex2.drop_last(), t);
        assert((lex1 + lex2).drop_last() =~= lex1 + lex2.drop_last());
        assert((lex1 + lex2).last() == lex2.last());
    }
}

/// Each lexicon entry contributes exactly its occurrence count times its
/// weight to the total, independently of every other entry and of where
/// in the lexicon it stands.
pub proof fn lemma_score_contribution(lex: Seq<(Seq<char>, nat)>, i: int, t: Seq<char>)
    requires
        0 <= i < lex.len(),
    ensures
        score_of(lex, t) == score_of(lex.remove(i), t) + count_occurrences(t, lex[i].0)
            * lex[i].1,
{
    let front = lex.take(i);
    let mid = seq![lex[i]];
    let back = lex.skip(i + 1);
    assert(lex =~= front + (mid + back));
    lemma_score_split(front, mid + back, t);
    lemma_score_split(mid, back, t);
    assert(lex.remove(i) =~= front + back);
    lemma_score_split(front, back, t);
    assert(mid.drop_last() =~= Seq::<(Seq<char>, nat)>::empty());
    assert(score_of(mid.drop_last(), t) == 0);
    assert(mid.last() == lex[i]);
    assert(score_of(mid, t) == count_occurrences(t, lex[i].0) * lex[i].1);
}

/// Empty text scores zero under every lexicon.
pub proof fn lemma_score_of_empty_text(lex: Seq<(Seq<char>, nat)>, t: Seq<char>)
    requires
        t.len() == 0,
    ensures
        score_of(lex, t) == 0,
    decreases lex.len(),
{
    if lex.len() > 0 {
        lemma_score_of_empty_text(lex.drop_last(), t);
        assert(count_occurrences(t, lex.last().0) == 0);
        assert(count_occurrences(t, lex.last().0) * lex.last().1 == 0) by (nonlinear_arith)
            requires
                count_occurrences(t, lex.last().0) == 0,
        ;
    }
}

/// Whether `p` occurs in `t` at position `i`.
fn is_match_at(t: &Vec<char>, p: &Vec<char>, i: usize) -> (b: bool)
    requires
        i + p@.len() <= t@.len(),
    ensures
        b == (t@.subrange(i as int, i + p@.len()) == p@),
{
    let tl: usize = t.len();
    assert(i + p@.len() <= tl);
    let mut j: usize = 0;
    while j < p.len()
        invariant
            i + p@.len() <= t@.len(),
            t@.len() <= usize::MAX,
            0 <= j <= p@.len(),
            forall|k: int| 0 <= k < j ==> t@[i + k] == p@[k],
        decreases p@.len() - j,
    {
        assert(i + j < t@.len());
        if t[i + j] != p[j] {
            assert(t@.subrange(i as int, i + p@.len())[j as int] != p@[j as int]);
            return false;
        }
        j = j + 1;
    }
    assert(t@.subrange(i as int, i + p@.len()) =~= p@);
    true
}

/// Number of non-overlapping occurrences of `p` in `t`, counted greedily
/// from the left.
pub fn count_matches(t: &Vec<char>, p: &Vec<char>) -> (n: usize)
    ensures
        n == count_occurrences(t@, p@),
    decreases t@.len(),
{
    if p.len() == 0 || p.len() > t.len() {
        return 0;
    }
    let mut i: usize = 0;
    let mut n: usize = 0;
    assert(t@.skip(0) =~= t@);
    while i <= t.len() - p.len()
        invariant
            1 <= p@.len() <= t@.len(),
            0 <= i <= t@.len(),
            n <= i,
            count_occurrences(t@, p@) == n + count_occurrences(t@.skip(i as int), p@),
        decreases t@.len() - i,
    {
        assert(i + p@.len() <= t@.len());
        let ghost rest = t@.skip(i as int);
        assert(rest.len() == t@.len() - i >= p@.len());
        assert(rest.subrange(0, p@.len() as int) =~= t@.subrange(i as int, i + p@.len()));
        if is_match_at(t, p, i) {
            assert(rest.skip(p@.len() as int) =~= t@.skip(i + p@.len()));
            n = n + 1;
            i = i + p.len();
        } else {
            assert(rest.skip(1) =~= t@.skip(i + 1));
            i = i + 1;
        }
    }
    assert(count_occurrences(t@.skip(i as int), p@) == 0);
    n
}

/// Weighted keyword score of `content` under the lexicon `lex`.
///
/// The content is case-folded once, and every lexicon entry contributes
/// the number of its non-overlapping occurrences times its weight. The
/// mathematical total is returned exactly whenever it fits in `usize`,
/// and saturates at `usize::MAX` otherwise.
pub fn score_with(lex: &Vec<(String, usize)>, content: &str) -> (r: usize)
    ensures
        score_of(lex_view(lex@), lower_of(content@)) <= usize::MAX ==> r == score_of(
            lex_view(lex@),
            lower_of(content@),
        ),
        score_of(lex_view(lex@), lower_of(content@)) > usize::MAX ==> r == usize::MAX,
        content@.len() == 0 ==> r == 0,
{
    let low = lowercased(content);
    proof {
        if content@.len() == 0 {
            lemma_score_of_empty_text(lex_view(lex@), lower_of(content@));
        }
    }
    let lowv = chars_of(low.as_str());
    let ghost t = lower_of(content@);
    let ghost full = lex_view(lex@);
    let cap: u128 = usize::MAX as u128 + 1;
    let mut acc: u128 = 0;
    let mut i: usize = 0;
    while i < lex.len()
        invariant
            lowv@ == t,
            full == lex_view(lex@),
            cap == usize::MAX as u128 + 1,
            0 <= i <= lex@.len(),
            acc as nat == if score_of(full.take(i as int), t) <= usize::MAX as nat {
                score_of(full.take(i as int), t)
            } else {
                usize::MAX as nat + 1
            },
        decreases lex@.len() - i,
    {
        let pat = chars_of(lex[i].0.as_str());
        let count = count_matches(&lowv, &pat);
        let w: usize = lex[i].1;
        assert(count as u128 * (w as u128) <= u64::MAX as u128 * u64::MAX as u128)
            by (nonlinear_arith)
            requires
                count as u128 <= u64::MAX as u128,
                w as u128 <= u64::MAX as u128,
        ;
        let term: u128 = count as u128 * w as u128;
        let ghost partial = score_of(full.take(i as int), t);
        assert(full.take(i + 1).drop_last() =~= full.take(i as int));
        assert(full.take(i + 1).last() == full[i as int]);
        assert(full[i as int] == (lex@[i as int].0@, lex@[i as int].1 as nat));
        assert(acc <= cap);
        acc = acc + term;
        if acc > cap {
            acc = cap;
        }
        i = i + 1;
    }
    assert(full.take(i as int) =~= full);
    if acc <= usize::MAX as u128 {
        acc as usize
    } else {
        usize::MAX
    }
}

/// The fixed weighted lexicon that page relevance is measured against.
pub open spec fn spec_weights() -> Seq<(Seq<char>, nat)> {
    seq![
        ("rust"@, 5nat),
        ("linux"@, 5nat),
        ("stage"@, 13nat),
        ("intern"@, 15nat),
        ("stagiaire"@, 14nat),
        ("internship"@, 5nat),
        ("c++"@, 4nat),
        ("assembl"@, 4nat),
        ("embedded"@, 4nat),
        ("kernel"@, 4nat),
        ("operating system"@, 3nat),
        ("software"@, 3nat),
        ("engineer"@, 3nat),
        ("science"@, 1nat),
        ("techonology"@, 1nat),
        ("architecture"@, 1nat),
        ("processor"@, 5nat),
        ("distributed system"@, 5nat),
    ]
}

/// The fixed weighted lexicon, as an executable value.
pub fn default_lexicon() -> (l: Vec<(String, usize)>)
    ensures
        lex_view(l@) == spec_weights(),
{
    let mut l: Vec<(String, usize)> = Vec::new();
    l.push((String::from_str("rust"), 5));
    l.push((String::from_str("linux"), 5));
    l.push((String::from_str("stage"), 13));
    l.push((String::from_str("intern"), 15));
    l.push((String::from_str("stagiaire"), 14));
    l.push((String::from_str("internship"), 5));
    l.push((String::from_str("c++"), 4));
    l.push((String::from_str("assembl"), 4));
    l.push((String::from_str("embedded"), 4));
    l.push((String::from_str("kernel"), 4));
    l.push((String::from_str("operating system"), 3));
    l.push((String::from_str("software"), 3));
    l.push((String::from_str("engineer"), 3));
    l.push((String::from_str("science"), 1));
    l.push((String::from_str("techonology"), 1));
    l.push((String::from_str("architecture"), 1));
    l.push((String::from_str("processor"), 5));
    l.push((String::from_str("distributed system"), 5));
    assert(lex_view(l@) =~= spec_weights());
    l
}

/// The score that the crawler records for a page body: the weighted
/// keyword total under the fixed lexicon, saturated at `usize::MAX`.
pub open spec fn page_score(h: Seq<char>) -> usize {
    if score_of(spec_weights(), lower_of(h)) <= usize::MAX {
        score_of(spec_weights(), lower_of(h)) as usize
    } else {
        usize::MAX
    }
}

/// Relevance score of a page body under the fixed lexicon.
///
/// Returns the mathematical total exactly whenever it fits in `usize`,
/// and saturates at `usize::MAX` otherwise.
pub fn html_to_score(html: &str) -> (r: usize)
    ensures
        r == page_score(html@),
        html@.len() == 0 ==> r == 0,
{
    let lex = default_lexicon();
    score_with(&lex, html)
}

} // verus!
