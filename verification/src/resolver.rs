use vstd::prelude::*;

use crate::text::chars_of;
use crate::text::string_of;

verus! {

/// Position of the first character of `stops` in `s` at or after `from`,
/// or the length of `s` when none occurs there.
pub open spec fn scan_until(s: Seq<char>, from: int, stops: Seq<char>) -> int
    decreases s.len() - from,
{
    if from < 0 || from >= s.len() {
        s.len() as int
    } else if stops.contains(s[from]) {
        from
    } else {
        scan_until(s, from + 1, stops)
    }
}

/// The scan result lies between `from` and the length, stops on a stop
/// character, and skips no stop character.
pub proof fn lemma_scan_until(s: Seq<char>, from: int, stops: Seq<char>)
    requires
        0 <= from <= s.len(),
    ensures
        from <= scan_until(s, from, stops) <= s.len(),
        scan_until(s, from, stops) < s.len() ==> stops.contains(s[scan_until(s, from, stops)]),
        forall|k: int| from <= k < scan_until(s, from, stops) ==> !stops.contains(#[trigger] s[k]),
    decreases s.len() - from,
{
    if from < s.len() && !stops.contains(s[from]) {
        lemma_scan_until(s, from + 1, stops);
    }
}

fn has_char(stops: &Vec<char>, c: char) -> (b: bool)
    ensures
        b == stops@.contains(c),
{
    let mut i: usize = 0;
    while i < stops.len()
        invariant
            0 <= i <= stops@.len(),
            forall|k: int| 0 <= k < i ==> stops@[k] != c,
        decreases stops@.len() - i,
    {
        if stops[i] == c {
            return true;
        }
        i = i + 1;
    }
    false
}

/// First position of any of `stops` in `v` at or after `from`.
fn find_from(v: &Vec<char>, from: usize, stops: &Vec<char>) -> (r: usize)
    requires
        from <= v@.len(),
    ensures
        r == scan_until(v@, from as int, stops@),
{
    let mut i: usize = from;
    while i < v.len()
        invariant
            from <= i <= v@.len(),
            scan_until(v@, from as int, stops@) == scan_until(v@, i as int, stops@),
        decreases v@.len() - i,
    {
        if has_char(stops, v[i]) {
            return i;
        }
        i = i + 1;
    }
    i
}

/// Copy of `v[a..b]`.
fn subvec(v: &Vec<char>, a: usize, b: usize) -> (r: Vec<char>)
    requires
        a <= b <= v@.len(),
    ensures
        r@ == v@.subrange(a as int, b as int),
{
    let mut r: Vec<char> = Vec::new();
    let mut i: usize = a;
    while i < b
        invariant
            a <= i <= b <= v@.len(),
            r@ == v@.subrange(a as int, i as int),
        decreases b - i,
    {
        r.push(v[i]);
        assert(v@.subrange(a as int, i + 1) =~= v@.subrange(a as int, i as int).push(v@[i as int]));
        i = i + 1;
    }
    r
}

/// The components of a URI reference: an optional scheme, an optional
/// authority, a path, an optional query and an optional fragment.
pub ghost struct UrlView {
    pub scheme: Option<Seq<char>>,
    pub authority: Option<Seq<char>>,
    pub path: Seq<char>,
    pub query: Option<Seq<char>>,
    pub fragment: Option<Seq<char>>,
}

/// The components of a URI reference, as executable values.
pub struct UrlParts {
    pub scheme: Option<Vec<char>>,
    pub authority: Option<Vec<char>>,
    pub path: Vec<char>,
    pub query: Option<Vec<char>>,
    pub fragment: Option<Vec<char>>,
}

pub open spec fn opt_view(o: Option<Vec<char>>) -> Option<Seq<char>> {
    match o {
        Some(v) => Some(v@),
        None => None,
    }
}

impl View for UrlParts {
    type V = UrlView;

    open spec fn view(&self) -> UrlView {
        UrlView {
            scheme: opt_view(self.scheme),
            authority: opt_view(self.authority),
            path: self.path@,
            query: opt_view(self.query),
            fragment: opt_view(self.fragment),
        }
    }
}

pub open spec fn is_alpha(c: char) -> bool {
    ('a' <= c && c <= 'z') || ('A' <= c && c <= 'Z')
}

pub open spec fn is_scheme_char(c: char) -> bool {
    is_alpha(c) || ('0' <= c && c <= '9') || c == '+' || c == '-' || c == '.'
}

/// A scheme is one letter followed by letters, digits, `+`, `-` or `.`.
pub open spec fn valid_scheme(s: Seq<char>) -> bool {
    &&& s.len() > 0
    &&& is_alpha(s[0])
    &&& forall|i: int| 0 <= i < s.len() ==> is_scheme_char(#[trigger] s[i])
}

/// The scheme of `s` and the position where the rest begins: a reference
/// has a scheme exactly when a `:` stands before any `/`, `?` or `#` and
/// what precedes it is grammatically a scheme.
pub open spec fn scheme_split(s: Seq<char>) -> (Option<Seq<char>>, int) {
    let ci = scan_until(s, 0, seq![':', '/', '?', '#']);
    if ci < s.len() && s[ci] == ':' && valid_scheme(s.take(ci)) {
        (Some(s.take(ci)), ci + 1)
    } else {
        (None, 0)
    }
}

/// The authority of `s` starting at `p0`, and the position after it: an
/// authority is announced by `//` and runs to the next `/`, `?` or `#`.
pub open spec fn authority_split(s: Seq<char>, p0: int) -> (Option<Seq<char>>, int) {
    if p0 + 2 <= s.len() && s[p0] == '/' && s[p0 + 1] == '/' {
        let ae = scan_until(s, p0 + 2, seq!['/', '?', '#']);
        (Some(s.subrange(p0 + 2, ae)), ae)
    } else {
        (None, p0)
    }
}

/// Splits a URI reference into its five components.
pub open spec fn split_ref(s: Seq<char>) -> UrlView {
    let sch = scheme_split(s);
    let auth = authority_split(s, sch.1);
    let pe = scan_until(s, auth.1, seq!['?', '#']);
    let path = s.subrange(auth.1, pe);
    let q = if pe < s.len() && s[pe] == '?' {
        let qe = scan_until(s, pe + 1, seq!['#']);
        (Some(s.subrange(pe + 1, qe)), qe)
    } else {
        (None::<Seq<char>>, pe)
    };
    let frag = if q.1 < s.len() && s[q.1] == '#' {
        Some(s.subrange(q.1 + 1, s.len() as int))
    } else {
        None
    };
    UrlView { scheme: sch.0, authority: auth.0, path, query: q.0, fragment: frag }
}

fn check_scheme(v: &Vec<char>, end: usize) -> (b: bool)
    requires
        end <= v@.len(),
    ensures
        b == valid_scheme(v@.take(end as int)),
{
    if end == 0 {
        return false;
    }
    let c0 = v[0];
    if !(('a' <= c0 && c0 <= 'z') || ('A' <= c0 && c0 <= 'Z')) {
        assert(!is_alpha(v@.take(end as int)[0]));
        return false;
    }
    let mut i: usize = 0;
    while i < end
        invariant
            0 < end <= v@.len(),
            0 <= i <= end,
            is_alpha(v@[0]),
            forall|k: int| 0 <= k < i ==> is_scheme_char(#[trigger] v@[k]),
        decreases end - i,
    {
        let c = v[i];
        if !(('a' <= c && c <= 'z') || ('A' <= c && c <= 'Z') || ('0' <= c && c <= '9') || c == '+'
            || c == '-' || c == '.') {
            assert(!is_scheme_char(v@.take(end as int)[i as int]));
            return false;
        }
        i = i + 1;
    }
    assert forall|k: int| 0 <= k < end implies is_scheme_char(#[trigger] v@.take(end as int)[k]) by {
        assert(v@.take(end as int)[k] == v@[k]);
    }
    true
}

fn stops_scheme() -> (r: Vec<char>)
    ensures
        r@ == seq![':', '/', '?', '#'],
{
    let mut r: Vec<char> = Vec::new();
    r.push(':');
    r.push('/');
    r.push('?');
    r.push('#');
    assert(r@ =~= seq![':', '/', '?', '#']);
    r
}

fn stops_authority() -> (r: Vec<char>)
    ensures
        r@ == seq!['/', '?', '#'],
{
    let mut r: Vec<char> = Vec::new();
    r.push('/');
    r.push('?');
    r.push('#');
    assert(r@ =~= seq!['/', '?', '#']);
    r
}

fn stops_path() -> (r: Vec<char>)
    ensures
        r@ == seq!['?', '#'],
{
    let mut r: Vec<char> = Vec::new();
    r.push('?');
    r.push('#');
    assert(r@ =~= seq!['?', '#']);
    r
}

fn stops_query() -> (r: Vec<char>)
    ensures
        r@ == seq!['#'],
{
    let mut r: Vec<char> = Vec::new();
    r.push('#');
    assert(r@ =~= seq!['#']);
    r
}

/// Splits a URI reference into its five components.
pub fn split_url(v: &Vec<char>) -> (p: UrlParts)
    ensures
        p@ == split_ref(v@),
{
    let ghost s = v@;
    let ci = find_from(v, 0, &stops_scheme());
    proof {
        lemma_scan_until(s, 0, seq![':', '/', '?', '#']);
    }
    let (scheme, p0): (Option<Vec<char>>, usize) = if ci < v.len() && v[ci] == ':'
        && check_scheme(v, ci) {
        (Some(subvec(v, 0, ci)), ci + 1)
    } else {
        (None, 0)
    };
    assert(opt_view(scheme) == scheme_split(s).0 && p0 == scheme_split(s).1);
    let (authority, p1): (Option<Vec<char>>, usize) = if p0 < v.len() && p0 + 1 < v.len()
        && v[p0] == '/' && v[p0 + 1] == '/' {
        let ae = find_from(v, p0 + 2, &stops_authority());
        proof {
            lemma_scan_until(s, p0 + 2, seq!['/', '?', '#']);
        }
        (Some(subvec(v, p0 + 2, ae)), ae)
    } else {
        (None, p0)
    };
    assert(opt_view(authority) == authority_split(s, p0 as int).0 && p1 == authority_split(
        s,
        p0 as int,
    ).1);
    let pe = find_from(v, p1, &stops_path());
    proof {
        lemma_scan_until(s, p1 as int, seq!['?', '#']);
    }
    let path = subvec(v, p1, pe);
    let (query, p2): (Option<Vec<char>>, usize) = if pe < v.len() && v[pe] == '?' {
        let qe = find_from(v, pe + 1, &stops_query());
        proof {
            lemma_scan_until(s, pe + 1, seq!['#']);
        }
        (Some(subvec(v, pe + 1, qe)), qe)
    } else {
        (None, pe)
    };
    let fragment: Option<Vec<char>> = if p2 < v.len() && v[p2] == '#' {
        Some(subvec(v, p2 + 1, v.len()))
    } else {
        None
    };
    UrlParts { scheme, authority, path, query, fragment }
}

/// Index of the last `/` in `s`, or `-1` when there is none.
pub open spec fn last_slash(s: Seq<char>) -> int
    decreases s.len(),
{
    if s.len() == 0 {
        -1
    } else if s.last() == '/' {
        s.len() - 1
    } else {
        last_slash(s.drop_last())
    }
}

/// The output buffer with its last path segment and the `/` before it
/// removed.
pub open spec fn pop_segment(out: Seq<char>) -> Seq<char> {
    if last_slash(out) >= 0 {
        out.take(last_slash(out))
    } else {
        Seq::empty()
    }
}

/// One pass of dot-segment removal, as standard relative-reference
/// resolution prescribes: interprets the leading `.` and `..` segments
/// of `input` against the segments already moved to `out`. Replacing a
/// leading `/.` or `/..` by `/` is taken as skipping up to the `/` that
/// follows it, which is the same suffix.
pub open spec fn rds_loop(input: Seq<char>, out: Seq<char>) -> Seq<char>
    decreases input.len()
        via rds_loop_decreases
{
    if input.len() == 0 {
        out
    } else if input.len() >= 3 && input[0] == '.' && input[1] == '.' && input[2] == '/' {
        rds_loop(input.skip(3), out)
    } else if input.len() >= 2 && input[0] == '.' && input[1] == '/' {
        rds_loop(input.skip(2), out)
    } else if input.len() >= 3 && input[0] == '/' && input[1] == '.' && input[2] == '/' {
        rds_loop(input.skip(2), out)
    } else if input.len() == 2 && input[0] == '/' && input[1] == '.' {
        rds_loop(seq!['/'], out)
    } else if input.len() >= 4 && input[0] == '/' && input[1] == '.' && input[2] == '.'
        && input[3] == '/' {
        rds_loop(input.skip(3), pop_segment(out))
    } else if input.len() == 3 && input[0] == '/' && input[1] == '.' && input[2] == '.' {
        rds_loop(seq!['/'], pop_segment(out))
    } else if input[0] == '.' && (input.len() == 1 || (input.len() == 2 && input[1] == '.')) {
        out
    } else {
        let e = if input[0] == '/' {
            scan_until(input, 1, seq!['/'])
        } else {
            scan_until(input, 0, seq!['/'])
        };
        rds_loop(input.skip(e), out + input.take(e))
    }
}

#[via_fn]
proof fn rds_loop_decreases(input: Seq<char>, out: Seq<char>) {
    if input.len() > 0 {
        if input[0] == '/' {
            lemma_scan_until(input, 1, seq!['/']);
        } else {
            lemma_scan_until(input, 0, seq!['/']);
        }
    }
}

/// Dot-segment removal of a whole path.
pub open spec fn rds(path: Seq<char>) -> Seq<char> {
    rds_loop(path, Seq::empty())
}

/// Scanning a suffix is scanning the whole, shifted.
proof fn lemma_scan_shift(s: Seq<char>, i: int, j: int, stops: Seq<char>)
    requires
        0 <= i <= s.len(),
        0 <= j,
    ensures
        scan_until(s.skip(i), j, stops) == scan_until(s, i + j, stops) - i,
    decreases s.len() - i - j,
{
    if i + j < s.len() {
        assert(s.skip(i)[j] == s[i + j]);
        if !stops.contains(s[i + j]) {
            lemma_scan_shift(s, i, j + 1, stops);
        }
    }
}

/// A lone `/` in the input moves to the output and ends the pass.
proof fn lemma_rds_loop_slash(out: Seq<char>) 
    ensures
        rds_loop(seq!['/'], out) == out + seq!['/'],
{
    let sl = seq!['/'];
    assert(sl.len() == 1 && sl[0] == '/');
    assert(scan_until(sl, 1, seq!['/']) == 1);
    assert(rds_loop(sl, out) == rds_loop(sl.skip(1), out + sl.take(1)));
    assert(sl.skip(1) =~= Seq::<char>::empty());
    assert(sl.take(1) =~= sl);
    assert(rds_loop(sl.skip(1), out + sl.take(1)) == out + sl.take(1));
}

fn last_slash_pos(v: &Vec<char>) -> (r: Option<usize>)
    ensures
        match r {
            Some(k) => last_slash(v@) == k as int && (k as int) < v@.len(),
            None => last_slash(v@) == -1,
        },
{
    let mut j: usize = v.len();
    assert(v@.take(v@.len() as int) =~= v@);
    while j > 0
        invariant
            0 <= j <= v@.len(),
            last_slash(v@) == last_slash(v@.take(j as int)),
        decreases j,
    {
        assert(v@.take(j as int).last() == v@[j - 1]);
        assert(v@.take(j as int).drop_last() =~= v@.take(j - 1));
        if v[j - 1] == '/' {
            return Some(j - 1);
        }
        j = j - 1;
    }
    None
}

/// Removes the last segment and its preceding `/` from the output buffer.
fn pop_segment_exec(out: &mut Vec<char>)
    ensures
        final(out)@ == pop_segment(old(out)@),
{
    match last_slash_pos(out) {
        Some(k) => {
            out.truncate(k);
            assert(final(out)@ =~= pop_segment(old(out)@));
        },
        None => {
            out.clear();
            assert(final(out)@ =~= pop_segment(old(out)@));
        },
    }
}

/// Removes the `.` and `..` segments of a path, composing the segments
/// that remain, as standard relative-reference resolution prescribes.
pub fn remove_dot_segments(p: &Vec<char>) -> (r: Vec<char>)
    ensures
        r@ == rds(p@),
{
    let mut out: Vec<char> = Vec::new();
    let mut i: usize = 0;
    assert(p@.skip(0) =~= p@);
    while i < p.len()
        invariant
            0 <= i <= p@.len(),
            rds(p@) == rds_loop(p@.skip(i as int), out@),
        decreases p@.len() - i,
    {
        let ghost rem = p@.skip(i as int);
        proof {
            assert(rem.len() == p@.len() - i);
            assert forall|k: int| 0 <= k < rem.len() implies #[trigger] rem[k] == p@[i + k] by {}
        }
        let n = p.len() - i;
        if n >= 3 && p[i] == '.' && p[i + 1] == '.' && p[i + 2] == '/' {
            assert(rem.skip(3) =~= p@.skip(i + 3));
            i = i + 3;
        } else if n >= 2 && p[i] == '.' && p[i + 1] == '/' {
            assert(rem.skip(2) =~= p@.skip(i + 2));
            i = i + 2;
        } else if n >= 3 && p[i] == '/' && p[i + 1] == '.' && p[i + 2] == '/' {
            assert(rem.skip(2) =~= p@.skip(i + 2));
            i = i + 2;
        } else if n == 2 && p[i] == '/' && p[i + 1] == '.' {
            proof {
                lemma_rds_loop_slash(out@);
            }
            out.push('/');
            i = i + 2;
            assert(p@.skip(i as int) =~= Seq::<char>::empty());
            assert(out@ =~= rds_loop(p@.skip(i as int), out@));
        } else if n >= 4 && p[i] == '/' && p[i + 1] == '.' && p[i + 2] == '.' && p[i + 3] == '/' {
            assert(rem.skip(3) =~= p@.skip(i + 3));
            pop_segment_exec(&mut out);
            i = i + 3;
        } else if n == 3 && p[i] == '/' && p[i + 1] == '.' && p[i + 2] == '.' {
            let ghost out0 = out@;
            pop_segment_exec(&mut out);
            proof {
                lemma_rds_loop_slash(out@);
            }
            assert(rds_loop(rem, out0) == rds_loop(seq!['/'], out@));
            out.push('/');
            i = i + 3;
            assert(p@.skip(i as int) =~= Seq::<char>::empty());
            assert(out@ =~= rds_loop(p@.skip(i as int), out@));
        } else if (n == 1 && p[i] == '.') || (n == 2 && p[i] == '.' && p[i + 1] == '.') {
            i = p.len();
            assert(p@.skip(i as int) =~= Seq::<char>::empty());
            assert(rds_loop(p@.skip(i as int), out@) == out@);
        } else {
            let start = if p[i] == '/' {
                i + 1
            } else {
                i
            };
            let slash: Vec<char> = vec!['/'];
            assert(slash@ =~= seq!['/']);
            let e = find_from(p, start, &slash);
            proof {
                lemma_scan_until(p@, start as int, seq!['/']);
                lemma_scan_shift(p@, i as int, start - i, seq!['/']);
            }
            assert(i <= e <= p@.len());
            let ghost erel = e - i;
            assert(erel == if rem[0] == '/' {
                scan_until(rem, 1, seq!['/'])
            } else {
                scan_until(rem, 0, seq!['/'])
            });
            let mut seg = subvec(p, i, e);
            assert(seg@ =~= rem.take(erel));
            assert(rem.skip(erel) =~= p@.skip(e as int));
            let ghost out0 = out@;
            out.append(&mut seg);
            assert(out@ =~= out0 + rem.take(erel));
            i = e;
        }
    }
    assert(p@.skip(i as int) =~= Seq::<char>::empty());
    out
}

/// Merge of a relative path with the base path, per standard
/// relative-reference resolution.
pub open spec fn merge_paths(base: UrlView, rpath: Seq<char>) -> Seq<char> {
    if base.authority is Some && base.path.len() == 0 {
        seq!['/'] + rpath
    } else if last_slash(base.path) >= 0 {
        base.path.take(last_slash(base.path) + 1) + rpath
    } else {
        rpath
    }
}

/// The target components of resolving reference `r` against `base`:
/// an absolute reference keeps its own components; otherwise the missing
/// ones are inherited from the base and relative paths are merged, with
/// dot segments removed from every composed path.
pub open spec fn resolve_view(base: UrlView, r: UrlView) -> UrlView {
    if r.scheme is Some {
        UrlView {
            scheme: r.scheme,
            authority: r.authority,
            path: rds(r.path),
            query: r.query,
            fragment: r.fragment,
        }
    } else if r.authority is Some {
        UrlView {
            scheme: base.scheme,
            authority: r.authority,
            path: rds(r.path),
            query: r.query,
            fragment: r.fragment,
        }
    } else if r.path.len() == 0 {
        UrlView {
            scheme: base.scheme,
            authority: base.authority,
            path: base.path,
            query: if r.query is Some {
                r.query
            } else {
                base.query
            },
            fragment: r.fragment,
        }
    } else if r.path[0] == '/' {
        UrlView {
            scheme: base.scheme,
            authority: base.authority,
            path: rds(r.path),
            query: r.query,
            fragment: r.fragment,
        }
    } else {
        UrlView {
            scheme: base.scheme,
            authority: base.authority,
            path: rds(merge_paths(base, r.path)),
            query: r.query,
            fragment: r.fragment,
        }
    }
}

/// The string form of URL components.
pub open spec fn recompose(u: UrlView) -> Seq<char> {
    (match u.scheme {
        Some(sc) => sc + seq![':'],
        None => Seq::<char>::empty(),
    }) + (match u.authority {
        Some(a) => seq!['/', '/'] + a,
        None => Seq::<char>::empty(),
    }) + u.path + (match u.query {
        Some(q) => seq!['?'] + q,
        None => Seq::<char>::empty(),
    }) + (match u.fragment {
        Some(f) => seq!['#'] + f,
        None => Seq::<char>::empty(),
    })
}

fn copy_chars(v: &Vec<char>) -> (r: Vec<char>)
    ensures
        r@ == v@,
{
    let r = subvec(v, 0, v.len());
    assert(r@ =~= v@);
    r
}

fn copy_opt(o: &Option<Vec<char>>) -> (r: Option<Vec<char>>)
    ensures
        opt_view(r) == opt_view(*o),
{
    match o {
        Some(v) => Some(copy_chars(v)),
        None => None,
    }
}

fn merge_exec(base: &UrlParts, rpath: &Vec<char>) -> (m: Vec<char>)
    ensures
        m@ == merge_paths(base@, rpath@),
{
    if base.authority.is_some() && base.path.len() == 0 {
        let mut m: Vec<char> = Vec::new();
        m.push('/');
        let mut t = copy_chars(rpath);
        m.append(&mut t);
        assert(m@ =~= seq!['/'] + rpath@);
        m
    } else {
        let bl: usize = base.path.len();
        match last_slash_pos(&base.path) {
            Some(k) => {
                assert(k < bl);
                let mut m = subvec(&base.path, 0, k + 1);
                let mut t = copy_chars(rpath);
                m.append(&mut t);
                m
            },
            None => copy_chars(rpath),
        }
    }
}

/// Resolves the components of a reference against those of a base.
pub fn resolve_parts(base: &UrlParts, r: &UrlParts) -> (t: UrlParts)
    ensures
        t@ == resolve_view(base@, r@),
{
    if r.scheme.is_some() {
        UrlParts {
            scheme: copy_opt(&r.scheme),
            authority: copy_opt(&r.authority),
            path: remove_dot_segments(&r.path),
            query: copy_opt(&r.query),
            fragment: copy_opt(&r.fragment),
        }
    } else if r.authority.is_some() {
        UrlParts {
            scheme: copy_opt(&base.scheme),
            authority: copy_opt(&r.authority),
            path: remove_dot_segments(&r.path),
            query: copy_opt(&r.query),
            fragment: copy_opt(&r.fragment),
        }
    } else if r.path.len() == 0 {
        UrlParts {
            scheme: copy_opt(&base.scheme),
            authority: copy_opt(&base.authority),
            path: copy_chars(&base.path),
            query: if r.query.is_some() {
                copy_opt(&r.query)
            } else {
                copy_opt(&base.query)
            },
            fragment: copy_opt(&r.fragment),
        }
    } else if r.path[0] == '/' {
        UrlParts {
            scheme: copy_opt(&base.scheme),
            authority: copy_opt(&base.authority),
            path: remove_dot_segments(&r.path),
            query: copy_opt(&r.query),
            fragment: copy_opt(&r.fragment),
        }
    } else {
        let merged = merge_exec(base, &r.path);
        UrlParts {
            scheme: copy_opt(&base.scheme),
            authority: copy_opt(&base.authority),
            path: remove_dot_segments(&merged),
            query: copy_opt(&r.query),
            fragment: copy_opt(&r.fragment),
        }
    }
}

/// The string form of URL components.
pub fn recompose_parts(u: &UrlParts) -> (r: Vec<char>)
    ensures
        r@ == recompose(u@),
{
    let mut r: Vec<char> = Vec::new();
    match &u.scheme {
        Some(sc) => {
            let mut t = copy_chars(sc);
            r.append(&mut t);
            r.push(':');
        },
        None => {},
    }
    let ghost part1 = r@;
    match &u.authority {
        Some(a) => {
            r.push('/');
            r.push('/');
            let mut t = copy_chars(a);
            r.append(&mut t);
        },
        None => {},
    }
    let mut t = copy_chars(&u.path);
    r.append(&mut t);
    let ghost part3 = r@;
    match &u.query {
        Some(q) => {
            r.push('?');
            let mut t = copy_chars(q);
            r.append(&mut t);
        },
        None => {},
    }
    match &u.fragment {
        Some(f) => {
            r.push('#');
            let mut t = copy_chars(f);
            r.append(&mut t);
        },
        None => {},
    }
    assert(r@ =~= recompose(u@));
    r
}

/// Why a reference could not be resolved to an absolute URL.
#[derive(Clone, Copy, PartialEq, Eq, Structural, Debug)]
pub enum ResolutionError {
    /// The reference was the empty string.
    EmptyHref,
    /// Neither the reference nor the base carries a scheme, so no
    /// absolute URL can be composed.
    NotAbsolute,
    /// The composed string holds a character that no valid URL may
    /// hold, such as a space or a control character.
    ForbiddenCharacter,
}

/// Whether every character of `s` may stand in a URL: anything above
/// the space character except delete. Control characters and spaces are
/// never valid in a URL; characters outside ASCII are left to the
/// transport layer, which takes internationalized references.
pub open spec fn url_chars_ok(s: Seq<char>) -> bool {
    forall|i: int| 0 <= i < s.len() ==> ' ' < #[trigger] s[i] && s[i] != '\u{7f}'
}

fn check_url_chars(v: &Vec<char>) -> (b: bool)
    ensures
        b == url_chars_ok(v@),
{
    let mut i: usize = 0;
    while i < v.len()
        invariant
            0 <= i <= v@.len(),
            forall|k: int| 0 <= k < i ==> ' ' < #[trigger] v@[k] && v@[k] != '\u{7f}',
        decreases v@.len() - i,
    {
        let c = v[i];
        if c <= ' ' || c == '\u{7f}' {
            return false;
        }
        i = i + 1;
    }
    true
}

/// The canonical absolute URL that `raw` resolves to against `base`,
/// or nothing when `raw` is empty, no absolute URL can be composed, or
/// the composition holds a character that no valid URL may hold.
pub open spec fn resolve_spec(base: Seq<char>, raw: Seq<char>) -> Option<Seq<char>> {
    if raw.len() == 0 {
        None
    } else {
        let rv = split_ref(raw);
        let bv = split_ref(base);
        if rv.scheme is None && bv.scheme is None {
            None
        } else {
            let u = recompose(resolve_view(bv, rv));
            if url_chars_ok(u) {
                Some(u)
            } else {
                None
            }
        }
    }
}

/// Resolves the reference `raw` against the page URL `base` into a
/// canonical absolute URL, by standard relative-reference resolution:
/// an absolute reference is kept (its path normalized); otherwise the
/// reference is composed with the base. An empty reference, a
/// composition that yields no scheme, and a composition holding a
/// character that no valid URL may hold are rejected, each with its own
/// error.
pub fn resolve(base: &str, raw: &str) -> (res: Result<String, ResolutionError>)
    ensures
        match resolve_spec(base@, raw@) {
            Some(u) => res matches Ok(s) && s@ == u,
            None => res is Err,
        },
        raw@.len() == 0 ==> res == Err::<String, ResolutionError>(ResolutionError::EmptyHref),
        raw@.len() > 0 && split_ref(raw@).scheme is None && split_ref(base@).scheme is None
            ==> res == Err::<String, ResolutionError>(ResolutionError::NotAbsolute),
        raw@.len() > 0 && !(split_ref(raw@).scheme is None && split_ref(base@).scheme is None)
            && resolve_spec(base@, raw@) is None ==> res == Err::<
            String,
            ResolutionError,
        >(ResolutionError::ForbiddenCharacter),
{
    if raw.is_empty() {
        return Err(ResolutionError::EmptyHref);
    }
    let rawv = chars_of(raw);
    let basev = chars_of(base);
    let rp = split_url(&rawv);
    let bp = split_url(&basev);
    if rp.scheme.is_none() && bp.scheme.is_none() {
        return Err(ResolutionError::NotAbsolute);
    }
    let t = resolve_parts(&bp, &rp);
    let out = recompose_parts(&t);
    if !check_url_chars(&out) {
        return Err(ResolutionError::ForbiddenCharacter);
    }
    Ok(string_of(&out))
}

/// An absolute reference resolves the same against every base: the base
/// plays no part in it.
pub proof fn lemma_absolute_ref_ignores_base(base1: Seq<char>, base2: Seq<char>, raw: Seq<char>)
    requires
        raw.len() > 0,
        split_ref(raw).scheme is Some,
    ensures
        resolve_spec(base1, raw) == resolve_spec(base2, raw),
{
}

/// An absolute reference whose characters are acceptable is returned as
/// it stands, apart from the removal of dot segments from its path.
pub proof fn lemma_absolute_ref_normalized(base: Seq<char>, raw: Seq<char>)
    requires
        raw.len() > 0,
        split_ref(raw).scheme is Some,
        url_chars_ok(recompose(UrlView { path: rds(split_ref(raw).path), ..split_ref(raw) })),
    ensures
        resolve_spec(base, raw) == Some(
            recompose(UrlView { path: rds(split_ref(raw).path), ..split_ref(raw) }),
        ),
{
}

} // verus!
