use vstd::prelude::*;

use crate::text::chars_of;

verus! {

/// A parsed HTML node, restricted to what link extraction reads: an
/// element with an optional `href` attribute value and its content, a
/// flat list of sibling nodes, or a leaf without children.
pub enum AnchorNode {
    Tag { href: Option<String>, child: Box<AnchorNode> },
    List(Vec<AnchorNode>),
    Leaf,
}

/// The href values in the node and everything below it, in the order
/// that the extraction worklist yields them: a tag's own href first,
/// then its content; a list from its last element to its first.
pub open spec fn hrefs_of(n: AnchorNode) -> Seq<Seq<char>>
    decreases n,
{
    match n {
        AnchorNode::Tag { href, child } => (match href {
            Some(h) => seq![h@],
            None => Seq::<Seq<char>>::empty(),
        }) + hrefs_of(*child),
        AnchorNode::List(v) => hrefs_of_list(v@),
        AnchorNode::Leaf => Seq::<Seq<char>>::empty(),
    }
}

/// The href values of a worklist of nodes, yielded from the last node
/// to the first.
pub open spec fn hrefs_of_list(s: Seq<AnchorNode>) -> Seq<Seq<char>>
    decreases s,
{
    if s.len() == 0 {
        Seq::<Seq<char>>::empty()
    } else {
        hrefs_of(s.last()) + hrefs_of_list(s.drop_last())
    }
}

/// Size of a node, for the termination of the extraction worklist.
pub open spec fn node_size(n: AnchorNode) -> nat
    decreases n,
{
    match n {
        AnchorNode::Tag { href, child } => 1 + node_size(*child),
        AnchorNode::List(v) => 1 + list_size(v@),
        AnchorNode::Leaf => 1,
    }
}

/// Total size of a worklist of nodes.
pub open spec fn list_size(s: Seq<AnchorNode>) -> nat
    decreases s,
{
    if s.len() == 0 {
        0
    } else {
        node_size(s.last()) + list_size(s.drop_last())
    }
}

/// The views of a list of extracted href strings.
pub open spec fn views_of(s: Seq<String>) -> Seq<Seq<char>> {
    s.map(|i: int, h: String| h@)
}

/// Worklist measures distribute over concatenation; hrefs of a
/// concatenation are those of the top part followed by the rest.
proof fn lemma_list_concat(a: Seq<AnchorNode>, b: Seq<AnchorNode>)
    ensures
        hrefs_of_list(a + b) == hrefs_of_list(b) + hrefs_of_list(a),
        list_size(a + b) == list_size(a) + list_size(b),
    decreases b.len(),
{
    if b.len() == 0 {
        assert(a + b =~= a);
        assert(hrefs_of_list(b) + hrefs_of_list(a) =~= hrefs_of_list(a));
    } else {
        lemma_list_concat(a, b.drop_last());
        assert((a + b).drop_last() =~= a + b.drop_last());
        assert((a + b).last() == b.last());
    }
}

/// Walks the tree with an explicit worklist — never by recursion, so
/// arbitrarily deep markup cannot exhaust the stack — and returns every
/// href value it holds, each node visited exactly once.
pub fn extract_hrefs(tree: AnchorNode) -> (r: Vec<String>)
    ensures
        views_of(r@) == hrefs_of(tree),
{
    let ghost whole = hrefs_of(tree);
    let mut out: Vec<String> = Vec::new();
    let mut stack: Vec<AnchorNode> = Vec::new();
    stack.push(tree);
    proof {
        assert(stack@.drop_last() =~= Seq::<AnchorNode>::empty());
        assert(hrefs_of_list(stack@) == hrefs_of(tree) + hrefs_of_list(Seq::<AnchorNode>::empty()));
        assert(hrefs_of(tree) + Seq::<Seq<char>>::empty() =~= hrefs_of(tree));
        assert(views_of(out@) =~= Seq::<Seq<char>>::empty());
        assert(Seq::<Seq<char>>::empty() + hrefs_of_list(stack@) =~= hrefs_of_list(stack@));
    }
    while stack.len() > 0
        invariant
            views_of(out@) + hrefs_of_list(stack@) == whole,
        decreases list_size(stack@),
    {
        let ghost stack0 = stack@;
        let node = stack.pop().unwrap();
        let ghost popped = stack@;
        proof {
            assert(stack0.last() == node && popped == stack0.drop_last());
            assert(hrefs_of_list(stack0) == hrefs_of(node) + hrefs_of_list(popped));
            assert(list_size(stack0) == node_size(node) + list_size(popped));
        }
        match node {
            AnchorNode::Tag { href, child } => {
                let ghost ch = *child;
                proof {
                    assert(node_size(node) == 1 + node_size(ch));
                }
                match href {
                    Some(h) => {
                        proof {
                            assert(hrefs_of(node) == seq![h@] + hrefs_of(ch));
                        }
                        let ghost out0 = out@;
                        out.push(h);
                        proof {
                            assert(views_of(out@) =~= views_of(out0).push(h@));
                            assert(views_of(out0) + (hrefs_of(node) + hrefs_of_list(popped))
                                =~= views_of(out@) + (hrefs_of(ch) + hrefs_of_list(popped)));
                        }
                    },
                    None => {
                        proof {
                            assert(hrefs_of(node) == Seq::<Seq<char>>::empty() + hrefs_of(ch));
                            assert(Seq::<Seq<char>>::empty() + hrefs_of(ch) =~= hrefs_of(ch));
                        }
                    },
                }
                stack.push(*child);
                proof {
                    assert(stack@.drop_last() =~= popped);
                    assert(stack@.last() == ch);
                    assert(hrefs_of_list(stack@) == hrefs_of(ch) + hrefs_of_list(popped));
                    assert(list_size(stack@) == node_size(ch) + list_size(popped));
                }
            },
            AnchorNode::List(mut v) => {
                let ghost vs = v@;
                proof {
                    assert(hrefs_of(node) == hrefs_of_list(vs));
                    assert(node_size(node) == 1 + list_size(vs));
                }
                stack.append(&mut v);
                proof {
                    lemma_list_concat(popped, vs);
                    assert(hrefs_of_list(stack@) == hrefs_of_list(vs) + hrefs_of_list(popped));
                    assert(views_of(out@) + (hrefs_of_list(vs) + hrefs_of_list(popped)) =~= views_of(
                        out@,
                    ) + (hrefs_of(node) + hrefs_of_list(popped)));
                }
            },
            AnchorNode::Leaf => {
                proof {
                    assert(hrefs_of(node) =~= Seq::<Seq<char>>::empty());
                    assert(views_of(out@) + hrefs_of_list(popped) =~= views_of(out@) + (hrefs_of(
                        node,
                    ) + hrefs_of_list(popped)));
                }
            },
        }
    }
    proof {
        assert(stack@.len() == 0);
        assert(hrefs_of_list(stack@) == Seq::<Seq<char>>::empty());
        assert(views_of(out@) + hrefs_of_list(stack@) =~= views_of(out@));
    }
    out
}

#[verifier::external_type_specification]
#[verifier::external_body]
pub struct ExHtml(html_filter::Html);

/// Whether a comment close runs straight into the opening of another
/// node at position `i`: the characters `-->` immediately followed by
/// `<`.
pub open spec fn seam_at(s: Seq<char>, i: int) -> bool {
    s[i] == '-' && s[i + 1] == '-' && s[i + 2] == '>' && s[i + 3] == '<'
}

/// A page body in which a comment close butts directly against a `<`.
/// html_filter's builder aborts only when a node is pushed while the
/// insertion point is a closed comment, and a comment becomes the
/// insertion point only until any character follows its close: every
/// character between a `-->` and the next `<` is appended to the tree
/// first — dashes are buffered but flushed before the `<` is handled —
/// and turns the comment into a list that later pushes replace safely.
/// So every abort needs the literal sequence `--><` in the body, and a
/// body without it is parsed without aborting. The predicate errs on the
/// safe side: a seam whose comment is not the first content of its
/// element would in fact be survived, but telling those apart would
/// mean re-implementing the builder's insertion discipline.
pub open spec fn comment_abuts_tag(s: Seq<char>) -> bool {
    exists|i: int| 0 <= i && i + 3 < s.len() && #[trigger] seam_at(s, i)
}

/// Whether the page body holds a comment close glued to a `<`.
pub fn check_comment_abuts_tag(html: &str) -> (b: bool)
    ensures
        b == comment_abuts_tag(html@),
{
    let v = chars_of(html);
    if v.len() < 4 {
        assert(!comment_abuts_tag(html@));
        return false;
    }
    let mut i: usize = 0;
    while i < v.len() - 3
        invariant
            v@ == html@,
            4 <= v@.len(),
            0 <= i <= v@.len() - 3,
            forall|k: int| 0 <= k < i ==> !seam_at(v@, k),
        decreases v@.len() - i,
    {
        if v[i] == '-' && v[i + 1] == '-' && v[i + 2] == '>' && v[i + 3] == '<' {
            assert(seam_at(v@, i as int));
            return true;
        }
        i = i + 1;
    }
    assert(!comment_abuts_tag(html@));
    false
}

/// What the fixed anchor-parse step yields for a page body: the tree of
/// anchor elements carried over into `AnchorNode`, or nothing when the
/// parser rejects the markup. The parse depends on the characters of
/// the body alone.
pub uninterp spec fn anchors_of(s: Seq<char>) -> Option<AnchorNode>;

/// Relies on html_filter's `Html` variants and `Tag::find_attr_value`:
/// carries each node over with its `href` attribute value, its child
/// tree or its list of nodes; node kinds without children or links
/// become leaves.
#[verifier::external_body]
fn html_to_anchor(h: html_filter::Html) -> AnchorNode {
    match h {
        html_filter::Html::Tag { tag, child } => AnchorNode::Tag {
            href: tag.find_attr_value("href").cloned(),
            child: Box::new(html_to_anchor(*child)),
        },
        html_filter::Html::Vec(nodes) => AnchorNode::List(
            nodes.into_vec().into_iter().map(html_to_anchor).collect(),
        ),
        _ => AnchorNode::Leaf,
    }
}

/// Relies on html_filter's `Html::parse` and `Html::filter`: parsing
/// either yields a tree or an error text, and both it and the filtering
/// to anchor elements depend on the characters of the body alone.
///
/// `Html::parse` aborts on one family of inputs: a node pushed while
/// the tree's insertion point — the document root or the content of the
/// deepest open element — is a closed comment, whether the comment was
/// opened by `<!--` or by the `<!` + name + `--` form its tag reader
/// also takes for a comment. Every such push is triggered by a `<` that
/// immediately follows the comment's closing `-->`, so the precondition
/// (no `--><` in the body, see `comment_abuts_tag`) excludes every
/// aborting input. The builder's other abort arm, a list holding an
/// empty or nested-list node, is unreachable: list members only ever
/// come from text, tag, comment and doctype nodes. The anchor filter's
/// depth counters stay below the tree height, and its only other abort
/// sits in a lookup helper these calls never reach.
#[verifier::external_body]
pub(crate) fn parse_anchors(html: &str) -> (r: Result<AnchorNode, String>)
    requires
        !comment_abuts_tag(html@),
    ensures
        r is Ok <==> anchors_of(html@) is Some,
        r matches Ok(t) ==> anchors_of(html@) == Some(t),
{
    match html_filter::Html::parse(html) {
        Ok(tree) => {
            let anchors = tree.filter(&html_filter::Filter::new().tag_name("a"));
            Ok(html_to_anchor(anchors))
        },
        Err(e) => Err(e),
    }
}

} // verus!
