//! The markup parser: a strict recursive-descent parser that turns source
//! text into a tree of document nodes.
//!
//! Every executable production is specified against a mathematical mirror of
//! the grammar (`sp_element`, `sp_nodes`, ...): pure functions over the input
//! character sequence and a position that say exactly which value and end
//! position a production yields, or which error it fails with. The
//! executable parser's contracts state that it returns precisely what the
//! mirror says, so well-formedness laws can be proved once, about the
//! mirror.
//!
//! The grammar is deliberately strict: no self-closing tags, no comments, no
//! error recovery; a closing tag must repeat its opening tag's name.

use vstd::prelude::*;

use crate::ParseError;
use crate::cursor::Cursor;
use crate::cursor::is_ws_char;
use crate::cursor::lemma_scan_end;
use crate::cursor::lemma_scan_end_is;
use crate::cursor::lemma_ws_end;
use crate::cursor::scan_end;
use crate::cursor::starts_with_at;
use crate::cursor::str_eq;
use crate::cursor::ws_end;
use crate::dom::AttrMap;
use crate::dom::Node;
use crate::dom::NodeType;
use crate::dom::NodeView;
use crate::dom::lemma_views_of;
use crate::dom::map_of_pairs;
use crate::dom::lemma_map_of_pairs_at;
use crate::dom::lemma_views_of_push;
use crate::dom::nodes_wf;
use crate::dom::views_of;
use vstd::string::StringExecFns;

verus! {

/// A character of a tag or attribute name: ASCII letter or digit.
pub open spec fn is_tag_char(c: char) -> bool {
    let u = c as u32;
    (0x41 <= u && u <= 0x5A) || (0x61 <= u && u <= 0x7A) || (0x30 <= u && u <= 0x39)
}

/// Executable test for `is_tag_char`.
pub fn tag_char(c: char) -> (r: bool)
    ensures
        r == is_tag_char(c),
{
    let u = c as u32;
    (0x41 <= u && u <= 0x5A) || (0x61 <= u && u <= 0x7A) || (0x30 <= u && u <= 0x39)
}

/// Where the tag name starting at `i` ends.
pub open spec fn tag_end(s: Seq<char>, i: int) -> int {
    scan_end(s, i, |c: char| is_tag_char(c))
}

/// Where the text run starting at `i` ends: at the next `<` or end-of-input.
pub open spec fn text_end(s: Seq<char>, i: int) -> int {
    scan_end(s, i, |c: char| c != '<')
}

/// Where the attribute value starting at `i` ends: at the next quote
/// character `q` or end-of-input.
pub open spec fn quote_run_end(s: Seq<char>, i: int, q: char) -> int
    decreases s.len() - i
        when 0 <= i <= s.len()
{
    if i >= s.len() || s[i] == q {
        i
    } else {
        quote_run_end(s, i + 1, q)
    }
}

/// Bounds and boundary facts for `tag_end`.
pub proof fn lemma_tag_end(s: Seq<char>, i: int)
    requires
        0 <= i <= s.len(),
    ensures
        i <= tag_end(s, i) <= s.len(),
        forall|k: int| i <= k < tag_end(s, i) ==> is_tag_char(#[trigger] s[k]),
        tag_end(s, i) < s.len() ==> !is_tag_char(s[tag_end(s, i)]),
{
    lemma_scan_end(s, i, |c: char| is_tag_char(c));
}

/// Bounds and boundary facts for `text_end`.
pub proof fn lemma_text_end(s: Seq<char>, i: int)
    requires
        0 <= i <= s.len(),
    ensures
        i <= text_end(s, i) <= s.len(),
        forall|k: int| i <= k < text_end(s, i) ==> (#[trigger] s[k]) != '<',
        text_end(s, i) < s.len() ==> s[text_end(s, i)] == '<',
{
    lemma_scan_end(s, i, |c: char| c != '<');
}

/// Bounds and boundary facts for `quote_run_end`.
pub proof fn lemma_quote_run_end(s: Seq<char>, i: int, q: char)
    requires
        0 <= i <= s.len(),
    ensures
        i <= quote_run_end(s, i, q) <= s.len(),
        forall|k: int| i <= k < quote_run_end(s, i, q) ==> (#[trigger] s[k]) != q,
        quote_run_end(s, i, q) < s.len() ==> s[quote_run_end(s, i, q)] == q,
    decreases s.len() - i,
{
    if i < s.len() && s[i] != q {
        lemma_quote_run_end(s, i + 1, q);
    }
}

/// The end of the value run is determined by its boundary facts.
pub proof fn lemma_quote_run_end_is(s: Seq<char>, i: int, j: int, q: char)
    requires
        0 <= i <= j <= s.len(),
        forall|k: int| i <= k < j ==> (#[trigger] s[k]) != q,
        j == s.len() || s[j] == q,
    ensures
        quote_run_end(s, i, q) == j,
    decreases j - i,
{
    if i < j {
        lemma_quote_run_end_is(s, i + 1, j, q);
    }
}

/// What a quoted attribute value at `i` parses to: the opening quote (`"` or
/// `'`), the value run, and the matching closing quote; the returned
/// position sits after the closing quote.
pub open spec fn sp_attr_value(s: Seq<char>, i: int) -> Result<(Seq<char>, int), ParseError> {
    if i >= s.len() {
        Err(ParseError::UnexpectedEndOfInput)
    } else if s[i] != '"' && s[i] != '\'' {
        Err(ParseError::MalformedTag)
    } else {
        let e = quote_run_end(s, i + 1, s[i]);
        if e >= s.len() {
            Err(ParseError::UnterminatedAttributeValue)
        } else {
            Ok((s.subrange(i + 1, e), e + 1))
        }
    }
}

/// A successful attribute value parse moves strictly forward and stays in
/// bounds.
pub proof fn lemma_sp_attr_value_bounds(s: Seq<char>, i: int)
    requires
        0 <= i <= s.len(),
    ensures
        sp_attr_value(s, i) matches Ok(p) ==> i < p.1 <= s.len(),
{
    if i < s.len() && (s[i] == '"' || s[i] == '\'') {
        lemma_quote_run_end(s, i + 1, s[i]);
    }
}

/// What one `name="value"` pair at `i` parses to: a name by the tag-name
/// grammar (which may legally be empty), a literal `=`, and a quoted value.
pub open spec fn sp_attr(s: Seq<char>, i: int) -> Result<((Seq<char>, Seq<char>), int), ParseError> {
    let ne = tag_end(s, i);
    if ne >= s.len() {
        Err(ParseError::UnexpectedEndOfInput)
    } else if s[ne] != '=' {
        Err(ParseError::MalformedTag)
    } else {
        match sp_attr_value(s, ne + 1) {
            Ok((v, k)) => Ok(((s.subrange(i, ne), v), k)),
            Err(e) => Err(e),
        }
    }
}

/// A successful attribute parse moves strictly forward and stays in bounds.
pub proof fn lemma_sp_attr_bounds(s: Seq<char>, i: int)
    requires
        0 <= i <= s.len(),
    ensures
        sp_attr(s, i) matches Ok(p) ==> i < p.1 <= s.len(),
{
    lemma_tag_end(s, i);
    let ne = tag_end(s, i);
    if ne < s.len() && s[ne] == '=' {
        lemma_sp_attr_value_bounds(s, ne + 1);
    }
}

/// What an attribute list parses to, accumulated into `m`: whitespace and
/// `name="value"` pairs until the `>` that ends the opening tag, which is
/// not consumed. A later pair with an already-bound name overwrites it.
pub open spec fn sp_attributes(s: Seq<char>, i: int, m: Map<Seq<char>, Seq<char>>) -> Result<
    (Map<Seq<char>, Seq<char>>, int),
    ParseError,
>
    decreases s.len() - i
        when 0 <= i <= s.len()
        via sp_attributes_dec
{
    let j = ws_end(s, i);
    if j >= s.len() {
        Err(ParseError::UnexpectedEndOfInput)
    } else if s[j] == '>' {
        Ok((m, j))
    } else {
        match sp_attr(s, j) {
            Ok(((n, v), k)) => sp_attributes(s, k, m.insert(n, v)),
            Err(e) => Err(e),
        }
    }
}

#[via_fn]
proof fn sp_attributes_dec(s: Seq<char>, i: int, m: Map<Seq<char>, Seq<char>>) {
    if 0 <= i <= s.len() {
        lemma_ws_end(s, i);
        lemma_sp_attr_bounds(s, ws_end(s, i));
    }
}

/// A successful attribute-list parse stays in bounds and stops on a `>`.
pub proof fn lemma_sp_attributes_bounds(s: Seq<char>, i: int, m: Map<Seq<char>, Seq<char>>)
    requires
        0 <= i <= s.len(),
    ensures
        sp_attributes(s, i, m) matches Ok(p) ==> i <= p.1 < s.len() && s[p.1] == '>',
    decreases s.len() - i,
{
    lemma_ws_end(s, i);
    let j = ws_end(s, i);
    if j < s.len() && s[j] != '>' {
        lemma_sp_attr_bounds(s, j);
        if let Ok(((n, v), k)) = sp_attr(s, j) {
            lemma_sp_attributes_bounds(s, k, m.insert(n, v));
        }
    }
}

/// The next position after `lo` that a well-behaved production could have
/// returned: `j` itself when it already moved forward and stayed in bounds.
/// Recursive mirrors step through this so that their termination is evident;
/// for positions the parser actually produces it is the identity.
pub open spec fn step(s: Seq<char>, lo: int, j: int) -> int {
    if lo < j <= s.len() {
        j
    } else {
        lo + 1
    }
}

/// What a single node at `i` parses to: an element if the current character
/// is `<`, otherwise a text run (even an empty one is impossible here, since
/// the dispatch character is not `<`).
pub open spec fn sp_node(s: Seq<char>, i: int) -> Result<(NodeView, int), ParseError>
    decreases s.len() - i, 1int,
        when 0 <= i <= s.len()
{
    if i >= s.len() {
        Err(ParseError::UnexpectedEndOfInput)
    } else if s[i] == '<' {
        sp_element(s, i)
    } else {
        Ok((NodeView::Text(s.subrange(i, text_end(s, i))), text_end(s, i)))
    }
}

/// What a sibling sequence at `i` parses to: repeatedly skip whitespace and
/// parse one node, stopping at end-of-input or before a closing tag `</`.
/// The returned position sits on the stop point.
pub open spec fn sp_nodes(s: Seq<char>, i: int) -> Result<(Seq<NodeView>, int), ParseError>
    decreases s.len() - i, 2int,
        when 0 <= i <= s.len()
        via sp_nodes_dec
{
    let j = ws_end(s, i);
    if j >= s.len() || starts_with_at(s, j, seq!['<', '/']) {
        Ok((Seq::empty(), j))
    } else {
        match sp_node(s, j) {
            Ok((n, k)) => match sp_nodes(s, step(s, j, k)) {
                Ok((rest, b)) => Ok((seq![n] + rest, b)),
                Err(e) => Err(e),
            },
            Err(e) => Err(e),
        }
    }
}

#[via_fn]
proof fn sp_nodes_dec(s: Seq<char>, i: int) {
    if 0 <= i <= s.len() {
        lemma_ws_end(s, i);
    }
}

/// What an element at `i` parses to: `<`, a tag name, an attribute list,
/// `>`, the children, then the closing sequence `</`, the same tag name,
/// and `>`. A closing tag with a different name is a `TagMismatch`; any
/// other absent literal is a `MalformedTag`, or `UnexpectedEndOfInput` when
/// the input ends instead.
pub open spec fn sp_element(s: Seq<char>, i: int) -> Result<(NodeView, int), ParseError>
    decreases s.len() - i, 0int,
        when 0 <= i <= s.len()
        via sp_element_dec
{
    if i >= s.len() {
        Err(ParseError::UnexpectedEndOfInput)
    } else if s[i] != '<' {
        Err(ParseError::MalformedTag)
    } else {
        let tn = tag_end(s, i + 1);
        let tag = s.subrange(i + 1, tn);
        match sp_attributes(s, tn, Map::empty()) {
            Ok((m, a)) => if a >= s.len() {
                Err(ParseError::UnexpectedEndOfInput)
            } else if s[a] != '>' {
                Err(ParseError::MalformedTag)
            } else {
                match sp_nodes(s, a + 1) {
                    Ok((kids, b)) => if b >= s.len() {
                        Err(ParseError::UnexpectedEndOfInput)
                    } else if s[b] != '<' {
                        Err(ParseError::MalformedTag)
                    } else if b + 1 >= s.len() {
                        Err(ParseError::UnexpectedEndOfInput)
                    } else if s[b + 1] != '/' {
                        Err(ParseError::MalformedTag)
                    } else {
                        let ce = tag_end(s, b + 2);
                        if s.subrange(b + 2, ce) != tag {
                            Err(ParseError::TagMismatch)
                        } else if ce >= s.len() {
                            Err(ParseError::UnexpectedEndOfInput)
                        } else if s[ce] != '>' {
                            Err(ParseError::MalformedTag)
                        } else {
                            Ok((NodeView::Element { tag: tag, attrs: m, kids: kids }, ce + 1))
                        }
                    },
                    Err(e) => Err(e),
                }
            },
            Err(e) => Err(e),
        }
    }
}

#[via_fn]
proof fn sp_element_dec(s: Seq<char>, i: int) {
    if 0 <= i < s.len() && s[i] == '<' {
        lemma_tag_end(s, i + 1);
        lemma_sp_attributes_bounds(s, tag_end(s, i + 1), Map::empty());
    }
}

/// A successful node parse moves strictly forward; a successful sibling
/// sequence parse never moves backward; both stay in bounds.
pub proof fn lemma_sp_node_bounds(s: Seq<char>, i: int)
    requires
        0 <= i <= s.len(),
    ensures
        sp_node(s, i) matches Ok(p) ==> i < p.1 <= s.len(),
    decreases s.len() - i, 1int,
{
    if i < s.len() {
        if s[i] == '<' {
            lemma_sp_element_bounds(s, i);
        } else {
            lemma_text_end(s, i);
        }
    }
}

/// See `lemma_sp_node_bounds`.
pub proof fn lemma_sp_nodes_bounds(s: Seq<char>, i: int)
    requires
        0 <= i <= s.len(),
    ensures
        sp_nodes(s, i) matches Ok(p) ==> i <= p.1 <= s.len(),
    decreases s.len() - i, 2int,
{
    lemma_ws_end(s, i);
    let j = ws_end(s, i);
    if !(j >= s.len() || starts_with_at(s, j, seq!['<', '/'])) {
        lemma_sp_node_bounds(s, j);
        if let Ok((n, k)) = sp_node(s, j) {
            lemma_sp_nodes_bounds(s, step(s, j, k));
        }
    }
}

/// See `lemma_sp_node_bounds`.
pub proof fn lemma_sp_element_bounds(s: Seq<char>, i: int)
    requires
        0 <= i <= s.len(),
    ensures
        sp_element(s, i) matches Ok(p) ==> i < p.1 <= s.len(),
    decreases s.len() - i, 0int,
{
    if i < s.len() && s[i] == '<' {
        lemma_tag_end(s, i + 1);
        let tn = tag_end(s, i + 1);
        lemma_sp_attributes_bounds(s, tn, Map::empty());
        if let Ok((m, a)) = sp_attributes(s, tn, Map::empty()) {
            if a < s.len() && s[a] == '>' {
                lemma_sp_nodes_bounds(s, a + 1);
                if let Ok((kids, b)) = sp_nodes(s, a + 1) {
                    if b + 1 < s.len() && s[b] == '<' && s[b + 1] == '/' {
                        lemma_tag_end(s, b + 2);
                    }
                }
            }
        }
    }
}

/// What a whole document parses to: the sibling sequence of the full input;
/// a single top-level node is returned directly, anything else (none, or
/// several) is wrapped in a synthesized `html` element.
pub open spec fn sp_html(s: Seq<char>) -> Result<NodeView, ParseError> {
    match sp_nodes(s, 0) {
        Ok((kids, _)) => if kids.len() == 1 {
            Ok(kids[0])
        } else {
            Ok(NodeView::Element { tag: seq!['h', 't', 'm', 'l'], attrs: Map::empty(), kids: kids })
        },
        Err(e) => Err(e),
    }
}

/// LAW (well-formed element): every input of the shape
/// `<tag attr="v">text</tag>` — a nonempty tag name, one attribute, a
/// nonempty text run that holds no `<` and does not begin with whitespace,
/// and a closing tag with the same name — parses to an element node with
/// that tag name, exactly that one attribute binding, and the text as its
/// only child.
pub proof fn lemma_well_formed_element(s: Seq<char>, n: int, p: int, q: int, r: int)
    requires
        n >= 1,
        p >= 1,
        q >= 0,
        r >= 1,
        s.len() == 9 + 2 * n + p + q + r,
        s[0] == '<',
        forall|k: int| 1 <= k < 1 + n ==> is_tag_char(#[trigger] s[k]),
        s[1 + n] == ' ',
        forall|k: int| 2 + n <= k < 2 + n + p ==> is_tag_char(#[trigger] s[k]),
        s[2 + n + p] == '=',
        s[3 + n + p] == '"',
        forall|k: int| 4 + n + p <= k < 4 + n + p + q ==> (#[trigger] s[k]) != '"',
        s[4 + n + p + q] == '"',
        s[5 + n + p + q] == '>',
        forall|k: int| 6 + n + p + q <= k < 6 + n + p + q + r ==> (#[trigger] s[k]) != '<',
        !is_ws_char(s[6 + n + p + q]),
        s[6 + n + p + q + r] == '<',
        s[7 + n + p + q + r] == '/',
        s.subrange(8 + n + p + q + r, 8 + 2 * n + p + q + r) == s.subrange(1, 1 + n),
        s[8 + 2 * n + p + q + r] == '>',
    ensures
        sp_html(s) == Ok::<NodeView, ParseError>(
            NodeView::Element {
                tag: s.subrange(1, 1 + n),
                attrs: Map::<Seq<char>, Seq<char>>::empty().insert(
                    s.subrange(2 + n, 2 + n + p),
                    s.subrange(4 + n + p, 4 + n + p + q),
                ),
                kids: seq![NodeView::Text(s.subrange(6 + n + p + q, 6 + n + p + q + r))],
            },
        ),
{
    let tag = s.subrange(1, 1 + n);
    let w = s.subrange(2 + n, 2 + n + p);
    let v = s.subrange(4 + n + p, 4 + n + p + q);
    let t = s.subrange(6 + n + p + q, 6 + n + p + q + r);
    let m = Map::<Seq<char>, Seq<char>>::empty().insert(w, v);

    // the top-level sibling sequence starts right at the `<`
    lemma_scan_end_is(s, 0, 0, |c: char| is_ws_char(c));
    assert(!starts_with_at(s, 0, seq!['<', '/'])) by {
        if starts_with_at(s, 0, seq!['<', '/']) {
            assert(s.subrange(0, 2)[1] == s[1]);
            assert(is_tag_char(s[1]));
        }
    }
    // the opening tag name ends at the space
    lemma_scan_end_is(s, 1, 1 + n, |c: char| is_tag_char(c));
    assert(tag_end(s, 1) == 1 + n);
    // the attribute list: skip the space, read `attr="v"`, stop at `>`
    lemma_scan_end_is(s, 1 + n, 2 + n, |c: char| is_ws_char(c));
    assert(ws_end(s, 1 + n) == 2 + n);
    assert(s[2 + n] != '>');
    lemma_scan_end_is(s, 2 + n, 2 + n + p, |c: char| is_tag_char(c));
    assert(tag_end(s, 2 + n) == 2 + n + p);
    lemma_quote_run_end_is(s, 4 + n + p, 4 + n + p + q, '"');
    assert(sp_attr_value(s, 3 + n + p) == Ok::<(Seq<char>, int), ParseError>((v, 5 + n + p + q)));
    assert(sp_attr(s, 2 + n) == Ok::<((Seq<char>, Seq<char>), int), ParseError>(
        ((w, v), 5 + n + p + q),
    ));
    lemma_scan_end_is(s, 5 + n + p + q, 5 + n + p + q, |c: char| is_ws_char(c));
    assert(ws_end(s, 5 + n + p + q) == 5 + n + p + q);
    assert(sp_attributes(s, 5 + n + p + q, m) == Ok::<(Map<Seq<char>, Seq<char>>, int), ParseError>(
        (m, 5 + n + p + q),
    ));
    assert(sp_attributes(s, 1 + n, Map::empty()) == Ok::<
        (Map<Seq<char>, Seq<char>>, int),
        ParseError,
    >((m, 5 + n + p + q)));
    // the children: one text run, stopped by the closing `</`
    let c0 = 6 + n + p + q;
    lemma_scan_end_is(s, c0, c0, |c: char| is_ws_char(c));
    assert(ws_end(s, c0) == c0);
    assert(!starts_with_at(s, c0, seq!['<', '/'])) by {
        if starts_with_at(s, c0, seq!['<', '/']) {
            assert(s.subrange(c0, c0 + 2)[0] == s[c0]);
            assert(s[c0] == '<');
        }
    }
    lemma_scan_end_is(s, c0, c0 + r, |c: char| c != '<');
    assert(text_end(s, c0) == c0 + r);
    assert(sp_node(s, c0) == Ok::<(NodeView, int), ParseError>((NodeView::Text(t), c0 + r)));
    let b = c0 + r;
    lemma_scan_end_is(s, b, b, |c: char| is_ws_char(c));
    assert(ws_end(s, b) == b);
    assert(starts_with_at(s, b, seq!['<', '/'])) by {
        assert(s.subrange(b, b + 2) =~= seq!['<', '/']);
    }
    assert(sp_nodes(s, b) == Ok::<(Seq<NodeView>, int), ParseError>((Seq::empty(), b)));
    assert(step(s, c0, c0 + r) == c0 + r);
    assert(seq![NodeView::Text(t)] + Seq::<NodeView>::empty() =~= seq![NodeView::Text(t)]);
    assert(sp_nodes(s, c0) == Ok::<(Seq<NodeView>, int), ParseError>(
        (seq![NodeView::Text(t)], b),
    ));
    // the closing tag repeats the opening name, so the element succeeds
    assert forall|k: int| b + 2 <= k < b + 2 + n implies is_tag_char(#[trigger] s[k]) by {
        assert(s.subrange(b + 2, b + 2 + n)[k - (b + 2)] == s[k]);
        assert(s.subrange(1, 1 + n)[k - (b + 2)] == s[1 + k - (b + 2)]);
        assert(is_tag_char(s[1 + k - (b + 2)]));
    }
    lemma_scan_end_is(s, b + 2, b + 2 + n, |c: char| is_tag_char(c));
    assert(tag_end(s, b + 2) == b + 2 + n);
    assert(sp_element(s, 0) == Ok::<(NodeView, int), ParseError>(
        (NodeView::Element { tag: tag, attrs: m, kids: seq![NodeView::Text(t)] }, s.len() as int),
    ));
    // at the top level this is the single node, returned directly
    assert(sp_node(s, 0) == Ok::<(NodeView, int), ParseError>(
        (NodeView::Element { tag: tag, attrs: m, kids: seq![NodeView::Text(t)] }, s.len() as int),
    ));
    assert(step(s, 0, s.len() as int) == s.len() as int);
    lemma_scan_end_is(s, s.len() as int, s.len() as int, |c: char| is_ws_char(c));
    assert(sp_nodes(s, s.len() as int) == Ok::<(Seq<NodeView>, int), ParseError>(
        (Seq::empty(), s.len() as int),
    ));
    let elem = NodeView::Element { tag: tag, attrs: m, kids: seq![NodeView::Text(t)] };
    assert(seq![elem] + Seq::<NodeView>::empty() =~= seq![elem]);
    assert(sp_nodes(s, 0) == Ok::<(Seq<NodeView>, int), ParseError>((seq![elem], s.len() as int)));
    assert(seq![elem][0] == elem);
}

/// LAW (mismatched closing tag): an element whose closing tag carries a
/// different name than its opening tag always fails with `TagMismatch` —
/// never is it silently accepted. Stated for every input of the shape
/// `<a></b>`: a tag name, no attributes, no children, and a closing tag
/// name that differs.
pub proof fn lemma_tag_mismatch(s: Seq<char>, n: int, m: int)
    requires
        n >= 0,
        m >= 0,
        s.len() == n + m + 5,
        s[0] == '<',
        forall|k: int| 1 <= k < 1 + n ==> is_tag_char(#[trigger] s[k]),
        s[1 + n] == '>',
        s[2 + n] == '<',
        s[3 + n] == '/',
        forall|k: int| 4 + n <= k < 4 + n + m ==> is_tag_char(#[trigger] s[k]),
        s[4 + n + m] == '>',
        s.subrange(1, 1 + n) != s.subrange(4 + n, 4 + n + m),
    ensures
        sp_html(s) == Err::<NodeView, ParseError>(ParseError::TagMismatch),
{
    // the top-level sibling sequence starts right at the `<`
    lemma_scan_end_is(s, 0, 0, |c: char| is_ws_char(c));
    assert(ws_end(s, 0) == 0);
    assert(!starts_with_at(s, 0, seq!['<', '/'])) by {
        if starts_with_at(s, 0, seq!['<', '/']) {
            assert(s.subrange(0, 2)[1] == s[1]);
            assert(s[1] == '/');
            if n > 0 {
                assert(is_tag_char(s[1]));
            }
        }
    }
    // the opening tag: name, empty attribute list, `>`
    lemma_scan_end_is(s, 1, 1 + n, |c: char| is_tag_char(c));
    assert(tag_end(s, 1) == 1 + n);
    lemma_scan_end_is(s, 1 + n, 1 + n, |c: char| is_ws_char(c));
    assert(ws_end(s, 1 + n) == 1 + n);
    assert(sp_attributes(s, 1 + n, Map::empty()) == Ok::<_, ParseError>(
        (Map::<Seq<char>, Seq<char>>::empty(), 1 + n),
    ));
    // the children: nothing, stopped by the closing `</`
    lemma_scan_end_is(s, 2 + n, 2 + n, |c: char| is_ws_char(c));
    assert(ws_end(s, 2 + n) == 2 + n);
    assert(starts_with_at(s, 2 + n, seq!['<', '/'])) by {
        assert(s.subrange(2 + n, 4 + n) =~= seq!['<', '/']);
    }
    assert(sp_nodes(s, 2 + n) == Ok::<_, ParseError>((Seq::<NodeView>::empty(), 2 + n)));
    // the closing tag name differs, so the element fails
    lemma_scan_end_is(s, 4 + n, 4 + n + m, |c: char| is_tag_char(c));
    assert(tag_end(s, 4 + n) == 4 + n + m);
    assert(sp_element(s, 0) == Err::<(NodeView, int), ParseError>(ParseError::TagMismatch));
    assert(sp_node(s, 0) == Err::<(NodeView, int), ParseError>(ParseError::TagMismatch));
    assert(sp_nodes(s, 0) == Err::<(Seq<NodeView>, int), ParseError>(ParseError::TagMismatch));
}

/// LAW (unterminated attribute value): an attribute value whose closing
/// quote never comes — the input ends first — always fails with
/// `UnterminatedAttributeValue`, never with a silent truncation. Stated
/// for every input of the shape `<a w="v` followed by end-of-input, where
/// `v` holds no closing quote (it may well hold a `>`).
pub proof fn lemma_unterminated_attribute(s: Seq<char>, n: int, p: int, q: int)
    requires
        n >= 0,
        p >= 0,
        q >= 0,
        s.len() == n + p + q + 4,
        s[0] == '<',
        forall|k: int| 1 <= k < 1 + n ==> is_tag_char(#[trigger] s[k]),
        s[1 + n] == ' ',
        forall|k: int| 2 + n <= k < 2 + n + p ==> is_tag_char(#[trigger] s[k]),
        s[2 + n + p] == '=',
        s[3 + n + p] == '"',
        forall|k: int| 4 + n + p <= k < 4 + n + p + q ==> (#[trigger] s[k]) != '"',
    ensures
        sp_html(s) == Err::<NodeView, ParseError>(ParseError::UnterminatedAttributeValue),
{
    lemma_scan_end_is(s, 0, 0, |c: char| is_ws_char(c));
    assert(ws_end(s, 0) == 0);
    assert(!starts_with_at(s, 0, seq!['<', '/'])) by {
        if starts_with_at(s, 0, seq!['<', '/']) {
            assert(s.subrange(0, 2)[1] == s[1]);
            assert(s[1] == '/');
            if n > 0 {
                assert(is_tag_char(s[1]));
            }
        }
    }
    // the tag name ends at the space
    lemma_scan_end_is(s, 1, 1 + n, |c: char| is_tag_char(c));
    assert(tag_end(s, 1) == 1 + n);
    // the attribute list skips the space and starts on the attribute name
    lemma_scan_end_is(s, 1 + n, 2 + n, |c: char| is_ws_char(c));
    assert(ws_end(s, 1 + n) == 2 + n);
    // the attribute name ends at the `=`
    lemma_scan_end_is(s, 2 + n, 2 + n + p, |c: char| is_tag_char(c));
    assert(tag_end(s, 2 + n) == 2 + n + p);
    // the value run reaches end-of-input without a closing quote
    lemma_quote_run_end_is(s, 4 + n + p, s.len() as int, '"');
    assert(sp_attr_value(s, 3 + n + p) == Err::<(Seq<char>, int), ParseError>(
        ParseError::UnterminatedAttributeValue,
    ));
    assert(sp_attr(s, 2 + n) == Err::<((Seq<char>, Seq<char>), int), ParseError>(
        ParseError::UnterminatedAttributeValue,
    ));
    assert(sp_attributes(s, 1 + n, Map::empty()) == Err::<
        (Map<Seq<char>, Seq<char>>, int),
        ParseError,
    >(ParseError::UnterminatedAttributeValue));
    assert(sp_element(s, 0) == Err::<(NodeView, int), ParseError>(
        ParseError::UnterminatedAttributeValue,
    ));
    assert(sp_node(s, 0) == Err::<(NodeView, int), ParseError>(
        ParseError::UnterminatedAttributeValue,
    ));
    assert(sp_nodes(s, 0) == Err::<(Seq<NodeView>, int), ParseError>(
        ParseError::UnterminatedAttributeValue,
    ));
}

/// parse a tag or attribute name: the maximal run of ASCII letters and
/// digits, possibly empty
pub fn parse_tag_name(cur: &mut Cursor) -> (r: String)
    requires
        old(cur).wf(),
    ensures
        final(cur).wf(),
        final(cur).text() == old(cur).text(),
        final(cur).position() == tag_end(old(cur).text(), old(cur).position()),
        r@ == old(cur).text().subrange(old(cur).position(), final(cur).position()),
{
    let filter = |c: char| -> (b: bool)
        ensures
            b == is_tag_char(c),
        { tag_char(c) };
    cur.consume_until(filter, Ghost(|c: char| is_tag_char(c)))
}

/// parse a text node: everything up to the next `<` or end-of-input
pub fn parse_text(cur: &mut Cursor) -> (n: Node)
    requires
        old(cur).wf(),
    ensures
        final(cur).wf(),
        final(cur).text() == old(cur).text(),
        final(cur).position() == text_end(old(cur).text(), old(cur).position()),
        n@ == NodeView::Text(
            old(cur).text().subrange(old(cur).position(), final(cur).position()),
        ),
        n.wf(),
{
    let filter = |c: char| -> (b: bool)
        ensures
            b == (c != '<'),
        { c != '<' };
    let t = cur.consume_until(filter, Ghost(|c: char| c != '<'));
    Node::text(t)
}

/// parse a quoted attribute value, as `sp_attr_value` describes it
pub fn parse_attr_value(cur: &mut Cursor) -> (r: Result<String, ParseError>)
    requires
        old(cur).wf(),
    ensures
        final(cur).wf(),
        final(cur).text() == old(cur).text(),
        ({
            let r0 = sp_attr_value(old(cur).text(), old(cur).position());
            match r {
                Ok(v) => r0 matches Ok(p) && v@ == p.0 && final(cur).position() == p.1,
                Err(e) => r0 matches Err(e2) && e == e2,
            }
        }),
{
    let ghost s = old(cur).text();
    let ghost i = old(cur).position();
    proof {
        old(cur).lemma_wf_bounds();
    }
    if cur.eof() {
        return Err(ParseError::UnexpectedEndOfInput);
    }
    let q = cur.next_char();
    if q != '"' && q != '\'' {
        return Err(ParseError::MalformedTag);
    }
    cur.consume_char();
    let filter = |c: char| -> (b: bool)
        ensures
            b == (c != q),
        { c != q };
    let v = cur.consume_until(filter, Ghost(|c: char| c != q));
    proof {
        lemma_scan_end(s, i + 1, |c: char| c != q);
        lemma_quote_run_end_is(s, i + 1, cur.position(), q);
    }
    if cur.eof() {
        return Err(ParseError::UnterminatedAttributeValue);
    }
    cur.consume_char();
    Ok(v)
}

/// parse one `name="value"` pair, as `sp_attr` describes it
pub fn parse_attr(cur: &mut Cursor) -> (r: Result<(String, String), ParseError>)
    requires
        old(cur).wf(),
    ensures
        final(cur).wf(),
        final(cur).text() == old(cur).text(),
        ({
            let r0 = sp_attr(old(cur).text(), old(cur).position());
            match r {
                Ok(nv) => r0 matches Ok(p) && nv.0@ == p.0.0 && nv.1@ == p.0.1
                    && final(cur).position() == p.1,
                Err(e) => r0 matches Err(e2) && e == e2,
            }
        }),
{
    proof {
        old(cur).lemma_wf_bounds();
    }
    let name = parse_tag_name(cur);
    if cur.eof() {
        return Err(ParseError::UnexpectedEndOfInput);
    }
    if cur.next_char() != '=' {
        return Err(ParseError::MalformedTag);
    }
    cur.consume_char();
    match parse_attr_value(cur) {
        Ok(value) => Ok((name, value)),
        Err(e) => Err(e),
    }
}

/// parse the attribute list of an opening tag into `attrs`, as
/// `sp_attributes` describes it; stops before the closing `>`
fn parse_attributes_more(cur: &mut Cursor, attrs: &mut AttrMap) -> (r: Result<(), ParseError>)
    requires
        old(cur).wf(),
        old(attrs).wf(),
    ensures
        final(cur).wf(),
        final(cur).text() == old(cur).text(),
        final(attrs).wf(),
        ({
            let r0 = sp_attributes(old(cur).text(), old(cur).position(), old(attrs)@);
            match r {
                Ok(u) => r0 matches Ok(p) && final(attrs)@ == p.0 && final(cur).position() == p.1,
                Err(e) => r0 matches Err(e2) && e == e2,
            }
        }),
    decreases cur.text().len() - cur.position(),
{
    let ghost s = old(cur).text();
    let ghost i = old(cur).position();
    proof {
        old(cur).lemma_wf_bounds();
        lemma_ws_end(s, i);
    }
    cur.consume_whitespace();
    if cur.eof() {
        return Err(ParseError::UnexpectedEndOfInput);
    }
    if cur.next_char() == '>' {
        return Ok(());
    }
    match parse_attr(cur) {
        Err(e) => Err(e),
        Ok((n, v)) => {
            proof {
                lemma_sp_attr_bounds(s, ws_end(s, i));
            }
            attrs.insert(n, v);
            parse_attributes_more(cur, attrs)
        },
    }
}

/// parse an attribute list, as `sp_attributes` (seeded with the empty map)
/// describes it
pub fn parse_attributes(cur: &mut Cursor) -> (r: Result<AttrMap, ParseError>)
    requires
        old(cur).wf(),
    ensures
        final(cur).wf(),
        final(cur).text() == old(cur).text(),
        ({
            let r0 = sp_attributes(
                old(cur).text(),
                old(cur).position(),
                Map::<Seq<char>, Seq<char>>::empty(),
            );
            match r {
                Ok(m) => r0 matches Ok(p) && m@ == p.0 && m.wf() && final(cur).position() == p.1,
                Err(e) => r0 matches Err(e2) && e == e2,
            }
        }),
{
    let mut attrs = AttrMap::new();
    match parse_attributes_more(cur, &mut attrs) {
        Ok(()) => Ok(attrs),
        Err(e) => Err(e),
    }
}

/// parse a single node: an element after `<`, otherwise a text run
pub fn parse_node(cur: &mut Cursor) -> (r: Result<Node, ParseError>)
    requires
        old(cur).wf(),
    ensures
        final(cur).wf(),
        final(cur).text() == old(cur).text(),
        ({
            let r0 = sp_node(old(cur).text(), old(cur).position());
            match r {
                Ok(n) => r0 matches Ok(p) && n@ == p.0 && n.wf() && final(cur).position() == p.1,
                Err(e) => r0 matches Err(e2) && e == e2,
            }
        }),
    decreases cur.text().len() - cur.position(), 1int,
{
    proof {
        old(cur).lemma_wf_bounds();
    }
    if cur.eof() {
        return Err(ParseError::UnexpectedEndOfInput);
    }
    if cur.next_char() == '<' {
        parse_element(cur)
    } else {
        Ok(parse_text(cur))
    }
}

/// parse a sibling sequence into `acc`, as `sp_nodes` describes it
fn parse_nodes_more(cur: &mut Cursor, acc: &mut Vec<Node>) -> (r: Result<(), ParseError>)
    requires
        old(cur).wf(),
        nodes_wf(old(acc)@),
    ensures
        final(cur).wf(),
        final(cur).text() == old(cur).text(),
        ({
            let r0 = sp_nodes(old(cur).text(), old(cur).position());
            match r {
                Ok(u) => r0 matches Ok(p) && views_of(final(acc)@) == views_of(old(acc)@) + p.0
                    && nodes_wf(final(acc)@) && final(cur).position() == p.1,
                Err(e) => r0 matches Err(e2) && e == e2,
            }
        }),
    decreases cur.text().len() - cur.position(), 2int,
{
    let ghost s = old(cur).text();
    let ghost i = old(cur).position();
    proof {
        old(cur).lemma_wf_bounds();
        lemma_ws_end(s, i);
        reveal_strlit("</");
        assert("</"@ =~= seq!['<', '/']);
    }
    cur.consume_whitespace();
    let ghost j = cur.position();
    if cur.eof() || cur.starts_with("</") {
        proof {
            assert(views_of(old(acc)@) + Seq::<NodeView>::empty() =~= views_of(old(acc)@));
        }
        return Ok(());
    }
    match parse_node(cur) {
        Err(e) => Err(e),
        Ok(n) => {
            proof {
                lemma_sp_node_bounds(s, j);
                lemma_views_of_push(old(acc)@, n);
            }
            let ghost mid = views_of(acc@).push(n@);
            acc.push(n);
            match parse_nodes_more(cur, acc) {
                Err(e) => Err(e),
                Ok(()) => {
                    proof {
                        let kn = sp_node(s, j)->Ok_0.0;
                        let rest = sp_nodes(s, step(s, j, sp_node(s, j)->Ok_0.1))->Ok_0.0;
                        assert(views_of(acc@) =~= views_of(old(acc)@) + (seq![kn] + rest));
                    }
                    Ok(())
                },
            }
        },
    }
}

/// parse a sequence of sibling nodes: whitespace-separated nodes up to
/// end-of-input or a closing tag, as `sp_nodes` describes it
pub fn parse_nodes(cur: &mut Cursor) -> (r: Result<Vec<Node>, ParseError>)
    requires
        old(cur).wf(),
    ensures
        final(cur).wf(),
        final(cur).text() == old(cur).text(),
        ({
            let r0 = sp_nodes(old(cur).text(), old(cur).position());
            match r {
                Ok(ns) => r0 matches Ok(p) && views_of(ns@) == p.0 && nodes_wf(ns@)
                    && final(cur).position() == p.1,
                Err(e) => r0 matches Err(e2) && e == e2,
            }
        }),
    decreases cur.text().len() - cur.position(), 3int,
{
    let mut acc: Vec<Node> = Vec::new();
    proof {
        assert(views_of(acc@) + sp_nodes(cur.text(), cur.position())->Ok_0.0 =~= sp_nodes(
            cur.text(),
            cur.position(),
        )->Ok_0.0);
    }
    match parse_nodes_more(cur, &mut acc) {
        Ok(()) => Ok(acc),
        Err(e) => Err(e),
    }
}

/// parse a single element, including its opening tag, attributes, contents,
/// and matching closing tag, as `sp_element` describes it
pub fn parse_element(cur: &mut Cursor) -> (r: Result<Node, ParseError>)
    requires
        old(cur).wf(),
    ensures
        final(cur).wf(),
        final(cur).text() == old(cur).text(),
        ({
            let r0 = sp_element(old(cur).text(), old(cur).position());
            match r {
                Ok(n) => r0 matches Ok(p) && n@ == p.0 && n.wf() && final(cur).position() == p.1,
                Err(e) => r0 matches Err(e2) && e == e2,
            }
        }),
    decreases cur.text().len() - cur.position(), 0int,
{
    let ghost s = old(cur).text();
    let ghost i = old(cur).position();
    proof {
        old(cur).lemma_wf_bounds();
    }
    // opening tag
    if cur.eof() {
        return Err(ParseError::UnexpectedEndOfInput);
    }
    if cur.next_char() != '<' {
        return Err(ParseError::MalformedTag);
    }
    cur.consume_char();
    let tag_name = parse_tag_name(cur);
    proof {
        lemma_tag_end(s, i + 1);
        lemma_sp_attributes_bounds(s, tag_end(s, i + 1), Map::empty());
    }
    let attrs = match parse_attributes(cur) {
        Ok(m) => m,
        Err(e) => return Err(e),
    };
    if cur.eof() {
        return Err(ParseError::UnexpectedEndOfInput);
    }
    if cur.next_char() != '>' {
        return Err(ParseError::MalformedTag);
    }
    cur.consume_char();

    // contents
    let children = match parse_nodes(cur) {
        Ok(v) => v,
        Err(e) => return Err(e),
    };

    // closing tag
    if cur.eof() {
        return Err(ParseError::UnexpectedEndOfInput);
    }
    if cur.next_char() != '<' {
        return Err(ParseError::MalformedTag);
    }
    cur.consume_char();
    if cur.eof() {
        return Err(ParseError::UnexpectedEndOfInput);
    }
    if cur.next_char() != '/' {
        return Err(ParseError::MalformedTag);
    }
    cur.consume_char();
    let closing = parse_tag_name(cur);
    if !str_eq(closing.as_str(), tag_name.as_str()) {
        return Err(ParseError::TagMismatch);
    }
    if cur.eof() {
        return Err(ParseError::UnexpectedEndOfInput);
    }
    if cur.next_char() != '>' {
        return Err(ParseError::MalformedTag);
    }
    cur.consume_char();
    Ok(Node::element(tag_name, attrs, children))
}

/// The markup that an attribute list serializes to: one ` name="value"`
/// piece per stored binding, in storage order.
pub open spec fn ser_attrs(ps: Seq<(Seq<char>, Seq<char>)>) -> Seq<char>
    decreases ps.len(),
{
    if ps.len() == 0 {
        Seq::empty()
    } else {
        ser_attrs(ps.drop_last()) + seq![' '] + ps.last().0 + seq!['=', '"'] + ps.last().1
            + seq!['"']
    }
}

/// The markup that a node serializes to: a text run stands as it is, an
/// element as its opening tag with attributes, its children, and its
/// closing tag.
pub open spec fn ser_node(n: Node) -> Seq<char>
    decreases n,
{
    match n.node_type {
        NodeType::Text(t) => t@,
        NodeType::Element(ed) => seq!['<'] + ed.tag_name@ + ser_attrs(ed.attributes.pairs())
            + seq!['>'] + ser_nodes(n.children@) + seq!['<', '/'] + ed.tag_name@ + seq!['>'],
    }
}

/// The markup that a node sequence serializes to: each node's markup, in
/// order.
pub open spec fn ser_nodes(ns: Seq<Node>) -> Seq<char>
    decreases ns,
{
    if ns.len() == 0 {
        Seq::empty()
    } else {
        ser_nodes(ns.drop_last()) + ser_node(ns.last())
    }
}

/// Serialize a node tree back to markup, exactly as `ser_node` describes
/// it.
pub fn to_markup(n: &Node) -> (r: String)
    ensures
        r@ == ser_node(*n),
    decreases *n,
{
    proof {
        reveal_strlit("<");
        reveal_strlit(">");
        reveal_strlit("</");
        reveal_strlit(" ");
        reveal_strlit("=\"");
        reveal_strlit("\"");
    }
    match &n.node_type {
        NodeType::Text(t) => String::from_str(t.as_str()),
        NodeType::Element(ed) => {
            let mut r = String::from_str("<");
            r.append(ed.tag_name.as_str());
            let mut i: usize = 0;
            proof {
                assert(ser_attrs(ed.attributes.pairs().subrange(0, 0)) =~= Seq::<char>::empty());
                assert(r@ =~= seq!['<'] + ed.tag_name@ + ser_attrs(
                    ed.attributes.pairs().subrange(0, 0),
                ));
            }
            let a_len = ed.attributes.len();
            while i < a_len
                invariant
                    a_len == ed.attributes.pairs().len(),
                    i <= a_len,
                    r@ == seq!['<'] + ed.tag_name@ + ser_attrs(
                        ed.attributes.pairs().subrange(0, i as int),
                    ),
                decreases a_len - i,
            {
                proof {
                    reveal_strlit(" ");
                    reveal_strlit("=\"");
                    reveal_strlit("\"");
                }
                r.append(" ");
                r.append(ed.attributes.name_at(i).as_str());
                r.append("=\"");
                r.append(ed.attributes.value_at(i).as_str());
                r.append("\"");
                proof {
                    let ps = ed.attributes.pairs();
                    assert(ps.subrange(0, i + 1).drop_last() =~= ps.subrange(0, i as int));
                    assert(ps.subrange(0, i + 1).last() == ps[i as int]);
                    assert(r@ =~= seq!['<'] + ed.tag_name@ + ser_attrs(ps.subrange(0, i + 1)));
                }
                i = i + 1;
            }
            proof {
                let ps = ed.attributes.pairs();
                assert(ps.subrange(0, ps.len() as int) =~= ps);
            }
            r.append(">");
            let mut k: usize = 0;
            proof {
                assert(ser_nodes(n.children@.subrange(0, 0)) =~= Seq::<char>::empty());
                assert(r@ =~= seq!['<'] + ed.tag_name@ + ser_attrs(ed.attributes.pairs())
                    + seq!['>'] + ser_nodes(n.children@.subrange(0, 0)));
            }
            let c_len = n.children.len();
            while k < c_len
                invariant
                    c_len == n.children@.len(),
                    k <= c_len,
                    r@ == seq!['<'] + ed.tag_name@ + ser_attrs(ed.attributes.pairs()) + seq!['>']
                        + ser_nodes(n.children@.subrange(0, k as int)),
                decreases c_len - k,
            {
                let piece = to_markup(&n.children[k]);
                r.append(piece.as_str());
                proof {
                    assert(n.children@.subrange(0, k + 1).drop_last() =~= n.children@.subrange(
                        0,
                        k as int,
                    ));
                    assert(n.children@.subrange(0, k + 1).last() == n.children@[k as int]);
                }
                k = k + 1;
            }
            proof {
                assert(n.children@.subrange(0, n.children@.len() as int) =~= n.children@);
                reveal_strlit("</");
                reveal_strlit(">");
            }
            r.append("</");
            r.append(ed.tag_name.as_str());
            r.append(">");
            proof {
                assert(r@ =~= ser_node(*n));
            }
            r
        },
    }
}

/// A tree whose markup parses back: tag names are nonempty runs of name
/// characters, attribute names are runs of name characters, attribute
/// values hold no double quote (the serializer quotes with `"`), text runs
/// are nonempty, hold no `<`, and do not begin with whitespace, and no two
/// text nodes are adjacent (their markup would merge into one run).
pub open spec fn ser_wf_node(n: Node) -> bool
    decreases n,
{
    match n.node_type {
        NodeType::Text(t) => t@.len() > 0 && !is_ws_char(t@[0]) && (forall|k: int|
            0 <= k < t@.len() ==> (#[trigger] t@[k]) != '<'),
        NodeType::Element(ed) => ed.tag_name@.len() > 0 && (forall|k: int|
            0 <= k < ed.tag_name@.len() ==> is_tag_char(#[trigger] ed.tag_name@[k]))
            && ser_wf_pairs(ed.attributes.pairs()) && ser_wf_nodes(n.children@),
    }
}

/// See `ser_wf_node`; the attribute bindings it asks for.
pub open spec fn ser_wf_pairs(ps: Seq<(Seq<char>, Seq<char>)>) -> bool {
    forall|i: int|
        0 <= i < ps.len() ==> ((forall|k: int|
            0 <= k < (#[trigger] ps[i]).0.len() ==> is_tag_char(#[trigger] ps[i].0[k])) && (
        forall|k: int| 0 <= k < ps[i].1.len() ==> (#[trigger] ps[i].1[k]) != '"'))
}

/// See `ser_wf_node`; a sibling sequence is well-formed when each node is
/// and no two text nodes are adjacent.
pub open spec fn ser_wf_nodes(ns: Seq<Node>) -> bool
    decreases ns,
{
    (forall|i: int| 0 <= i < ns.len() ==> ser_wf_node(#[trigger] ns[i])) && (forall|i: int|
        0 <= i < ns.len() - 1 ==> !((#[trigger] ns[i]).node_type is Text
            && ns[i + 1].node_type is Text))
}

/// A well-formed node serializes to at least one character, and an element
/// always begins with `<` followed by a name character.
proof fn lemma_ser_node_head(n: Node)
    requires
        ser_wf_node(n),
    ensures
        ser_node(n).len() > 0,
        n.node_type is Text ==> ser_node(n)[0] != '<' && !is_ws_char(ser_node(n)[0]),
        n.node_type is Element ==> ser_node(n).len() >= 2 && ser_node(n)[0] == '<' && is_tag_char(
            ser_node(n)[1],
        ),
{
    match n.node_type {
        NodeType::Text(t) => {
            assert(ser_node(n)[0] == t@[0]);
        },
        NodeType::Element(ed) => {
            assert(ser_node(n)[0] == '<');
            assert(ser_node(n)[1] == ed.tag_name@[0]);
        },
    }
}

/// `ser_nodes` peels its first node off the front.
proof fn lemma_ser_nodes_first(ns: Seq<Node>)
    requires
        ns.len() > 0,
    ensures
        ser_nodes(ns) == ser_node(ns.first()) + ser_nodes(ns.drop_first()),
    decreases ns.len(),
{
    if ns.len() == 1 {
        assert(ns.drop_last() =~= Seq::<Node>::empty());
        assert(ns.drop_first() =~= Seq::<Node>::empty());
        assert(ns.last() == ns.first());
        assert(ser_nodes(ns) =~= ser_node(ns.first()) + ser_nodes(ns.drop_first()));
    } else {
        lemma_ser_nodes_first(ns.drop_last());
        assert(ns.drop_last().first() == ns.first());
        assert(ns.drop_first().drop_last() =~= ns.drop_last().drop_first());
        assert(ns.drop_first().last() == ns.last());
        assert(ser_nodes(ns.drop_first()) == ser_nodes(ns.drop_last().drop_first()) + ser_node(
            ns.last(),
        ));
        assert(ser_nodes(ns) =~= ser_node(ns.first()) + ser_nodes(ns.drop_first()));
    }
}

/// `ser_attrs` peels its first binding off the front.
proof fn lemma_ser_attrs_first(ps: Seq<(Seq<char>, Seq<char>)>)
    requires
        ps.len() > 0,
    ensures
        ser_attrs(ps) == seq![' '] + ps.first().0 + seq!['=', '"'] + ps.first().1 + seq!['"']
            + ser_attrs(ps.drop_first()),
    decreases ps.len(),
{
    if ps.len() == 1 {
        assert(ps.drop_last() =~= Seq::<(Seq<char>, Seq<char>)>::empty());
        assert(ps.drop_first() =~= Seq::<(Seq<char>, Seq<char>)>::empty());
        assert(ps.last() == ps.first());
        assert(ser_attrs(ps) =~= seq![' '] + ps.first().0 + seq!['=', '"'] + ps.first().1
            + seq!['"'] + ser_attrs(ps.drop_first()));
    } else {
        lemma_ser_attrs_first(ps.drop_last());
        assert(ps.drop_last().first() == ps.first());
        assert(ps.drop_first().drop_last() =~= ps.drop_last().drop_first());
        assert(ps.drop_first().last() == ps.last());
        assert(ser_attrs(ps.drop_first()) == ser_attrs(ps.drop_last().drop_first()) + seq![' ']
            + ps.last().0 + seq!['=', '"'] + ps.last().1 + seq!['"']);
        assert(ser_attrs(ps) =~= seq![' '] + ps.first().0 + seq!['=', '"'] + ps.first().1
            + seq!['"'] + ser_attrs(ps.drop_first()));
    }
}

/// Folding a pair list into `m` from the front, later pairs winning.
spec fn insert_all(m: Map<Seq<char>, Seq<char>>, ps: Seq<(Seq<char>, Seq<char>)>) -> Map<
    Seq<char>,
    Seq<char>,
>
    decreases ps.len(),
{
    if ps.len() == 0 {
        m
    } else {
        insert_all(m.insert(ps.first().0, ps.first().1), ps.drop_first())
    }
}

/// `insert_all` from the empty map is exactly `map_of_pairs`.
proof fn lemma_insert_all_push(m: Map<Seq<char>, Seq<char>>, ps: Seq<(Seq<char>, Seq<char>)>, p: (
    Seq<char>,
    Seq<char>,
))
    ensures
        insert_all(m, ps.push(p)) == insert_all(m, ps).insert(p.0, p.1),
    decreases ps.len(),
{
    if ps.len() == 0 {
        assert(ps.push(p).first() == p);
        assert(ps.push(p).drop_first() =~= Seq::<(Seq<char>, Seq<char>)>::empty());
        assert(insert_all(m, ps.push(p)) == insert_all(m.insert(p.0, p.1), ps.push(p).drop_first()));
        assert(insert_all(m.insert(p.0, p.1), ps.push(p).drop_first()) == m.insert(p.0, p.1));
        assert(insert_all(m, ps) == m);
    } else {
        assert(ps.push(p).first() == ps.first());
        assert(ps.push(p).drop_first() =~= ps.drop_first().push(p));
        lemma_insert_all_push(m.insert(ps.first().0, ps.first().1), ps.drop_first(), p);
        assert(insert_all(m, ps.push(p)) == insert_all(
            m.insert(ps.first().0, ps.first().1),
            ps.drop_first().push(p),
        ));
        assert(insert_all(m, ps) == insert_all(m.insert(ps.first().0, ps.first().1), ps.drop_first()));
    }
}

/// See `lemma_insert_all_push`.
proof fn lemma_insert_all_is_map_of_pairs(ps: Seq<(Seq<char>, Seq<char>)>)
    ensures
        insert_all(Map::<Seq<char>, Seq<char>>::empty(), ps) == map_of_pairs(ps),
    decreases ps.len(),
{
    if ps.len() > 0 {
        lemma_insert_all_is_map_of_pairs(ps.drop_last());
        assert(ps.drop_last().push(ps.last()) =~= ps);
        lemma_insert_all_push(Map::<Seq<char>, Seq<char>>::empty(), ps.drop_last(), ps.last());
    }
}

/// A serialized attribute list parses back to exactly its bindings,
/// folded over `m`, stopping on the `>` that follows it.
#[verifier::rlimit(60)]
proof fn lemma_ser_attrs_parses(
    s: Seq<char>,
    j: int,
    ps: Seq<(Seq<char>, Seq<char>)>,
    m: Map<Seq<char>, Seq<char>>,
)
    requires
        ser_wf_pairs(ps),
        0 <= j,
        j + ser_attrs(ps).len() < s.len(),
        s.subrange(j, j + ser_attrs(ps).len()) == ser_attrs(ps),
        s[j + ser_attrs(ps).len()] == '>',
    ensures
        sp_attributes(s, j, m) == Ok::<(Map<Seq<char>, Seq<char>>, int), ParseError>(
            (insert_all(m, ps), j + ser_attrs(ps).len()),
        ),
    decreases ps.len(),
{
    let a = ser_attrs(ps);
    assert forall|x: int| j <= x < j + a.len() implies (#[trigger] s[x]) == a[x - j] by {
        assert(s.subrange(j, j + a.len())[x - j] == s[x]);
    }
    if ps.len() == 0 {
        lemma_scan_end_is(s, j, j, |c: char| is_ws_char(c));
        assert(ws_end(s, j) == j);
    } else {
        lemma_ser_attrs_first(ps);
        let name = ps.first().0;
        let value = ps.first().1;
        let rest = ps.drop_first();
        let piece = seq![' '] + name + seq!['=', '"'] + value + seq!['"'];
        // positions within this binding's piece
        let n0 = j + 1;
        let e0 = n0 + name.len();
        let v0 = e0 + 2;
        let q1 = v0 + value.len();
        let k = q1 + 1;
        assert(a == piece + ser_attrs(rest));
        assert(s[j] == ' ') by {
            assert(a[0] == (piece + ser_attrs(rest))[0]);
            assert(piece[0] == ' ');
        }
        assert forall|x: int| n0 <= x < e0 implies is_tag_char(#[trigger] s[x]) by {
            assert(a[x - j] == (piece + ser_attrs(rest))[x - j]);
            assert(piece[x - j] == name[x - n0]);
            assert(ps[0].0[x - n0] == name[x - n0]);
        }
        assert(s[e0] == '=') by {
            assert(a[e0 - j] == (piece + ser_attrs(rest))[e0 - j]);
            assert(piece[e0 - j] == '=');
        }
        assert(s[e0 + 1] == '"') by {
            assert(a[e0 + 1 - j] == (piece + ser_attrs(rest))[e0 + 1 - j]);
            assert(piece[e0 + 1 - j] == '"');
        }
        assert forall|x: int| v0 <= x < q1 implies (#[trigger] s[x]) != '"' by {
            assert(a[x - j] == (piece + ser_attrs(rest))[x - j]);
            assert(piece[x - j] == value[x - v0]);
            assert(ps[0].1[x - v0] == value[x - v0]);
        }
        assert(s[q1] == '"') by {
            assert(a[q1 - j] == (piece + ser_attrs(rest))[q1 - j]);
            assert(piece[q1 - j] == '"');
        }
        // whitespace ends after the single space
        assert(n0 < s.len());
        assert(!is_ws_char(s[n0])) by {
            if name.len() > 0 {
                assert(is_tag_char(s[n0]));
            } else {
                assert(s[n0] == '=');
            }
        }
        lemma_scan_end_is(s, j, n0, |c: char| is_ws_char(c));
        assert(ws_end(s, j) == n0);
        assert(s[n0] != '>') by {
            if name.len() > 0 {
                assert(is_tag_char(s[n0]));
            } else {
                assert(s[n0] == '=');
            }
        }
        // the name run ends at the `=`
        lemma_scan_end_is(s, n0, e0, |c: char| is_tag_char(c));
        assert(tag_end(s, n0) == e0);
        assert(s.subrange(n0, e0) =~= name);
        // the value run ends at the closing quote
        lemma_quote_run_end_is(s, v0, q1, '"');
        assert(sp_attr_value(s, e0 + 1) == Ok::<(Seq<char>, int), ParseError>((value, k))) by {
            assert(s.subrange(v0, q1) =~= value);
        }
        assert(sp_attr(s, n0) == Ok::<((Seq<char>, Seq<char>), int), ParseError>(
            ((name, value), k),
        ));
        // the rest of the list parses behind it
        assert(ser_wf_pairs(rest)) by {
            assert forall|i: int| 0 <= i < rest.len() implies ((forall|x: int|
                0 <= x < (#[trigger] rest[i]).0.len() ==> is_tag_char(#[trigger] rest[i].0[x])) && (
            forall|x: int| 0 <= x < rest[i].1.len() ==> (#[trigger] rest[i].1[x]) != '"')) by {
                assert(rest[i] == ps[i + 1]);
                assert((forall|x: int|
                    0 <= x < (#[trigger] ps[i + 1]).0.len() ==> is_tag_char(
                        #[trigger] ps[i + 1].0[x],
                    )) && (forall|x: int|
                    0 <= x < ps[i + 1].1.len() ==> (#[trigger] ps[i + 1].1[x]) != '"'));
            }
        }
        assert(s.subrange(k, k + ser_attrs(rest).len()) =~= ser_attrs(rest));
        lemma_ser_attrs_parses(s, k, rest, m.insert(name, value));
    }
}

/// A serialized node parses back to itself within any surrounding input;
/// a serialized text run additionally needs a `<` (or end-of-input) after
/// it, which inside a serialized tree is always there.
proof fn lemma_ser_node_parses(s: Seq<char>, i: int, n: Node)
    requires
        n.wf(),
        ser_wf_node(n),
        0 <= i,
        i + ser_node(n).len() <= s.len(),
        s.subrange(i, i + ser_node(n).len()) == ser_node(n),
        n.node_type is Text ==> (i + ser_node(n).len() == s.len() || s[i + ser_node(n).len()]
            == '<'),
    ensures
        sp_node(s, i) == Ok::<(NodeView, int), ParseError>((n@, i + ser_node(n).len())),
    decreases n, 1int,
{
    let ser = ser_node(n);
    let e = i + ser.len();
    lemma_ser_node_head(n);
    assert forall|x: int| i <= x < e implies (#[trigger] s[x]) == ser[x - i] by {
        assert(s.subrange(i, e)[x - i] == s[x]);
    }
    match n.node_type {
        NodeType::Text(t) => {
            lemma_scan_end_is(s, i, e, |c: char| c != '<');
            assert(text_end(s, i) == e);
            assert(s.subrange(i, e) =~= t@);
        },
        NodeType::Element(ed) => {
            lemma_ser_element_parses(s, i, n);
        },
    }
}

/// The element case of `lemma_ser_node_parses`.
#[verifier::rlimit(60)]
proof fn lemma_ser_element_parses(s: Seq<char>, i: int, n: Node)
    requires
        n.wf(),
        ser_wf_node(n),
        n.node_type is Element,
        0 <= i,
        i + ser_node(n).len() <= s.len(),
        s.subrange(i, i + ser_node(n).len()) == ser_node(n),
    ensures
        sp_element(s, i) == Ok::<(NodeView, int), ParseError>((n@, i + ser_node(n).len())),
    decreases n, 0int,
{
    let ser = ser_node(n);
    let e = i + ser.len();
    lemma_ser_node_head(n);
    assert forall|x: int| i <= x < e implies (#[trigger] s[x]) == ser[x - i] by {
        assert(s.subrange(i, e)[x - i] == s[x]);
    }
    match n.node_type {
        NodeType::Text(t) => {},
        NodeType::Element(ed) => {
            let tag = ed.tag_name@;
            let tl = tag.len() as int;
            let ps = ed.attributes.pairs();
            let al = ser_attrs(ps).len() as int;
            let kids = n.children@;
            let cl = ser_nodes(kids).len() as int;
            let pre1 = seq!['<'] + tag;
            let pre2 = pre1 + ser_attrs(ps);
            let pre3 = pre2 + seq!['>'];
            let pre4 = pre3 + ser_nodes(kids);
            let pre5 = pre4 + seq!['<', '/'];
            let pre6 = pre5 + tag;
            assert(ser == pre6 + seq!['>']);
            let t0 = i + 1;
            let a0 = t0 + tl;
            let g = a0 + al;
            let c0 = g + 1;
            let b = c0 + cl;
            let n2 = b + 2;
            let g2 = n2 + tl;
            assert(e == g2 + 1);
            // each region of the serialization, seen from `s`
            assert(s[i] == '<') by {
                assert(ser[0] == pre6[0]);
                assert(pre6[0] == pre1[0]);
            }
            assert forall|x: int| t0 <= x < a0 implies (#[trigger] s[x]) == tag[x - t0] by {
                assert(ser[x - i] == pre6[x - i]);
                assert(pre6[x - i] == pre1[x - i]);
                assert(pre1[x - i] == tag[x - t0]);
            }
            assert forall|x: int| a0 <= x < g implies (#[trigger] s[x]) == ser_attrs(ps)[x - a0] by {
                assert(ser[x - i] == pre6[x - i]);
                assert(pre6[x - i] == pre2[x - i]);
                assert(pre2[x - i] == ser_attrs(ps)[x - a0]);
            }
            assert(s[g] == '>') by {
                assert(ser[g - i] == pre6[g - i]);
                assert(pre6[g - i] == pre3[g - i]);
            }
            assert forall|x: int| c0 <= x < b implies (#[trigger] s[x]) == ser_nodes(kids)[x - c0] by {
                assert(ser[x - i] == pre6[x - i]);
                assert(pre6[x - i] == pre4[x - i]);
                assert(pre4[x - i] == ser_nodes(kids)[x - c0]);
            }
            assert(s[b] == '<' && s[b + 1] == '/') by {
                assert(ser[b - i] == pre6[b - i]);
                assert(pre6[b - i] == pre5[b - i]);
                assert(ser[b + 1 - i] == pre6[b + 1 - i]);
                assert(pre6[b + 1 - i] == pre5[b + 1 - i]);
            }
            assert forall|x: int| n2 <= x < g2 implies (#[trigger] s[x]) == tag[x - n2] by {
                assert(ser[x - i] == pre6[x - i]);
            }
            assert(s[g2] == '>') by {
                assert(ser[g2 - i] == (pre6 + seq!['>'])[g2 - i]);
            }
            // the opening tag name ends where the attributes (or the `>`) begin
            assert(tag_end(s, t0) == a0) by {
                if ps.len() > 0 {
                    lemma_ser_attrs_first(ps);
                    assert(ser_attrs(ps)[0] == ' ');
                    assert(s[a0] == ' ');
                } else {
                    assert(al == 0);
                }
                lemma_scan_end_is(s, t0, a0, |c: char| is_tag_char(c));
            }
            // the attribute list parses to this element's bindings
            assert(s.subrange(a0, g) =~= ser_attrs(ps));
            lemma_ser_attrs_parses(s, a0, ps, Map::empty());
            lemma_insert_all_is_map_of_pairs(ps);
            ed.attributes.lemma_view_is_pairs();
            // the children parse back to themselves
            assert(s.subrange(c0, b) =~= ser_nodes(kids));
            assert(starts_with_at(s, b, seq!['<', '/'])) by {
                assert(s.subrange(b, b + 2) =~= seq!['<', '/']);
            }
            lemma_ser_nodes_parses(s, c0, kids);
            // the closing tag carries the same name
            assert(tag_end(s, n2) == g2) by {
                lemma_scan_end_is(s, n2, g2, |c: char| is_tag_char(c));
            }
            assert(s.subrange(n2, g2) =~= tag);
            assert(s.subrange(t0, a0) =~= tag);
            assert(n@ == (NodeView::Element {
                tag: tag,
                attrs: ed.attributes@,
                kids: views_of(kids),
            }));
        },
    }
}

/// A serialized sibling sequence parses back to itself, stopped by the
/// end-of-input or closing tag that follows it.
proof fn lemma_ser_nodes_parses(s: Seq<char>, i: int, ns: Seq<Node>)
    requires
        nodes_wf(ns),
        ser_wf_nodes(ns),
        0 <= i,
        i + ser_nodes(ns).len() <= s.len(),
        s.subrange(i, i + ser_nodes(ns).len()) == ser_nodes(ns),
        i + ser_nodes(ns).len() == s.len() || starts_with_at(
            s,
            i + ser_nodes(ns).len(),
            seq!['<', '/'],
        ),
    ensures
        sp_nodes(s, i) == Ok::<(Seq<NodeView>, int), ParseError>(
            (views_of(ns), i + ser_nodes(ns).len()),
        ),
    decreases ns, 1int,
{
    let e = i + ser_nodes(ns).len();
    assert forall|x: int| i <= x < e implies (#[trigger] s[x]) == ser_nodes(ns)[x - i] by {
        assert(s.subrange(i, e)[x - i] == s[x]);
    }
    if ns.len() == 0 {
        assert(e == i);
        if i < s.len() {
            assert(s.subrange(i, i + 2)[0] == s[i]);
            assert(s[i] == '<');
        }
        lemma_scan_end_is(s, i, i, |c: char| is_ws_char(c));
        assert(views_of(ns) =~= Seq::<NodeView>::empty());
    } else {
        let first = ns.first();
        let rest = ns.drop_first();
        assert(ser_wf_node(first) && first.wf()) by {
            assert(ns[0] == first);
        }
        lemma_ser_nodes_first(ns);
        lemma_ser_node_head(first);
        let mid = i + ser_node(first).len();
        assert forall|x: int| i <= x < mid implies (#[trigger] s[x]) == ser_node(first)[x - i] by {
            assert(ser_nodes(ns)[x - i] == (ser_node(first) + ser_nodes(rest))[x - i]);
        }
        assert(s.subrange(i, mid) =~= ser_node(first));
        assert(s.subrange(mid, e) =~= ser_nodes(rest)) by {
            assert forall|k: int| 0 <= k < e - mid implies s.subrange(mid, e)[k] == ser_nodes(
                rest,
            )[k] by {
                assert(s.subrange(mid, e)[k] == s[mid + k]);
                assert(ser_nodes(ns)[mid + k - i] == (ser_node(first) + ser_nodes(rest))[mid + k
                    - i]);
            }
        }
        // the first node starts right away: no whitespace, no closing tag
        assert(s[i] == ser_node(first)[0]);
        lemma_scan_end_is(s, i, i, |c: char| is_ws_char(c));
        assert(!starts_with_at(s, i, seq!['<', '/'])) by {
            if starts_with_at(s, i, seq!['<', '/']) {
                assert(s.subrange(i, i + 2)[0] == s[i]);
                assert(s.subrange(i, i + 2)[1] == s[i + 1]);
                if first.node_type is Element {
                    assert(s[i + 1] == ser_node(first)[1]);
                    assert(is_tag_char(ser_node(first)[1]));
                }
            }
        }
        // a text run is delimited by what follows: the next element's `<`,
        // or this sequence's own terminator
        if first.node_type is Text {
            if rest.len() > 0 {
                assert(!(ns[0].node_type is Text && ns[1].node_type is Text));
                assert(rest.first() == ns[1]);
                assert(ser_wf_node(ns[1]));
                lemma_ser_node_head(ns[1]);
                lemma_ser_nodes_first(rest);
                assert(ser_nodes(rest)[0] == ser_node(rest.first())[0]);
                assert(s[mid] == ser_nodes(rest)[0]) by {
                    assert(ser_nodes(ns)[mid - i] == (ser_node(first) + ser_nodes(rest))[mid - i]);
                }
                assert(s[mid] == '<');
            } else {
                assert(mid == e);
                if e < s.len() {
                    assert(s.subrange(e, e + 2)[0] == s[e]);
                    assert(s[e] == '<');
                }
            }
        }
        lemma_ser_node_parses(s, i, first);
        assert(step(s, i, mid) == mid);
        // the rest of the siblings parse behind the first
        assert(nodes_wf(rest) && ser_wf_nodes(rest)) by {
            assert forall|k: int| 0 <= k < rest.len() implies (#[trigger] rest[k]).wf()
                && ser_wf_node(rest[k]) by {
                assert(rest[k] == ns[k + 1]);
                assert(ns[k + 1].wf() && ser_wf_node(ns[k + 1]));
            }
            assert forall|k: int| 0 <= k < rest.len() - 1 implies !((#[trigger] rest[k]).node_type
                is Text && rest[k + 1].node_type is Text) by {
                assert(rest[k] == ns[k + 1]);
                assert(rest[k + 1] == ns[k + 2]);
                assert(!(ns[k + 1].node_type is Text && ns[k + 2].node_type is Text));
            }
        }
        lemma_ser_nodes_parses(s, mid, rest);
        // the views line up elementwise
        lemma_views_of(ns);
        lemma_views_of(rest);
        assert(views_of(ns) =~= seq![first@] + views_of(rest)) by {
            assert forall|k: int| 0 <= k < ns.len() implies views_of(ns)[k] == (seq![first@]
                + views_of(rest))[k] by {
                if k > 0 {
                    assert(rest[k - 1] == ns[k]);
                    assert(views_of(rest)[k - 1] == rest[k - 1]@);
                }
            }
        }
    }
}

/// A run of tag/attribute name characters.
pub open spec fn name_chars_ok(t: Seq<char>) -> bool {
    forall|k: int| 0 <= k < t.len() ==> is_tag_char(#[trigger] t[k])
}

/// Every bound attribute name is a run of name characters.
pub open spec fn attr_names_ok(attrs: Map<Seq<char>, Seq<char>>) -> bool {
    forall|key: Seq<char>| #[trigger] attrs.dom().contains(key) ==> name_chars_ok(key)
}

/// No bound attribute value holds a double quote.
pub open spec fn attr_values_benign(attrs: Map<Seq<char>, Seq<char>>) -> bool {
    forall|key: Seq<char>| #[trigger] attrs.dom().contains(key) ==> quote_free(attrs[key])
}

/// The sequence holds no double quote.
pub open spec fn quote_free(t: Seq<char>) -> bool {
    forall|k: int| 0 <= k < t.len() ==> (#[trigger] t[k]) != '"'
}

/// A text run as the parser produces it: nonempty, not starting with
/// whitespace, and holding no `<`.
pub open spec fn text_run_ok(t: Seq<char>) -> bool {
    t.len() > 0 && !is_ws_char(t[0]) && (forall|k: int|
        0 <= k < t.len() ==> (#[trigger] t[k]) != '<')
}

/// The shape every tree coming out of the parser has: tag names and
/// attribute names are name-character runs, text runs are nonempty, hold
/// no `<`, do not begin with whitespace, and no two text nodes are
/// adjacent.
pub open spec fn view_wf(nv: NodeView) -> bool
    decreases nv,
{
    match nv {
        NodeView::Text(t) => text_run_ok(t),
        NodeView::Element { tag, attrs, kids } => name_chars_ok(tag) && attr_names_ok(attrs)
            && kids_wf(kids),
    }
}

/// See `view_wf`.
pub open spec fn kids_wf(ks: Seq<NodeView>) -> bool
    decreases ks,
{
    (forall|i: int| 0 <= i < ks.len() ==> view_wf(#[trigger] ks[i])) && (forall|i: int|
        0 <= i < ks.len() - 1 ==> !((#[trigger] ks[i]) is Text && ks[i + 1] is Text))
}

/// Every attribute name the attribute-list mirror can bind is a
/// name-character run.
proof fn lemma_sp_attributes_wf(s: Seq<char>, i: int, m: Map<Seq<char>, Seq<char>>)
    requires
        0 <= i <= s.len(),
        attr_names_ok(m),
    ensures
        sp_attributes(s, i, m) matches Ok(p) ==> attr_names_ok(p.0),
    decreases s.len() - i,
{
    lemma_ws_end(s, i);
    let j = ws_end(s, i);
    if j < s.len() && s[j] != '>' {
        lemma_sp_attr_bounds(s, j);
        lemma_tag_end(s, j);
        if let Ok(((nm, v), k)) = sp_attr(s, j) {
            assert forall|key: Seq<char>| #[trigger] m.insert(nm, v).dom().contains(key)
                implies name_chars_ok(key) by {
                if key == nm {
                    assert forall|x: int| 0 <= x < nm.len() implies is_tag_char(
                        #[trigger] nm[x],
                    ) by {
                        assert(nm[x] == s[j + x]);
                    }
                }
            }
            lemma_sp_attributes_wf(s, k, m.insert(nm, v));
        }
    }
}

/// Every node the mirror yields is `view_wf`; when the sibling mirror is
/// started on a `<`, its first node is an element.
proof fn lemma_sp_node_wf(s: Seq<char>, i: int)
    requires
        0 <= i <= s.len(),
        i < s.len() ==> !is_ws_char(s[i]),
    ensures
        sp_node(s, i) matches Ok(p) ==> view_wf(p.0) && (s[i] == '<' ==> p.0 is Element) && (
        p.0 is Text ==> p.1 == text_end(s, i)),
    decreases s.len() - i, 1int,
{
    if i < s.len() {
        if s[i] == '<' {
            lemma_sp_element_wf(s, i);
        } else {
            lemma_text_end(s, i);
            let t = s.subrange(i, text_end(s, i));
            if let Ok(p) = sp_node(s, i) {
                assert(t.len() > 0) by {
                    assert(s[i] != '<');
                }
                assert(t[0] == s[i]);
                assert forall|k: int| 0 <= k < t.len() implies (#[trigger] t[k]) != '<' by {
                    assert(t[k] == s[i + k]);
                }
            }
        }
    }
}

/// See `lemma_sp_node_wf`.
proof fn lemma_sp_nodes_wf(s: Seq<char>, i: int)
    requires
        0 <= i <= s.len(),
    ensures
        sp_nodes(s, i) matches Ok(p) ==> kids_wf(p.0) && (p.0.len() > 0 && s[ws_end(s, i)] == '<'
            ==> p.0[0] is Element),
    decreases s.len() - i, 2int,
{
    lemma_ws_end(s, i);
    let j = ws_end(s, i);
    if !(j >= s.len() || starts_with_at(s, j, seq!['<', '/'])) {
        lemma_sp_node_bounds(s, j);
        lemma_sp_node_wf(s, j);
        if let Ok((n0, k)) = sp_node(s, j) {
            lemma_sp_nodes_wf(s, k);
            lemma_ws_end(s, k);
            if let Ok((rest, b)) = sp_nodes(s, step(s, j, k)) {
                let ks = seq![n0] + rest;
                assert forall|x: int| 0 <= x < ks.len() implies view_wf(#[trigger] ks[x]) by {
                    if x > 0 {
                        assert(rest[x - 1] == ks[x]);
                        assert(view_wf(rest[x - 1]));
                    }
                }
                assert forall|x: int| 0 <= x < ks.len() - 1 implies !((#[trigger] ks[x]) is Text
                    && ks[x + 1] is Text) by {
                    if x == 0 {
                        if n0 is Text && rest.len() > 0 {
                            // after a text run the input sits on a `<`, so
                            // the next sibling is an element
                            assert(k == text_end(s, j));
                            lemma_text_end(s, j);
                            assert(k < s.len()) by {
                                if k == s.len() {
                                    assert(ws_end(s, k) == k);
                                    assert(rest.len() == 0);
                                }
                            }
                            assert(s[k] == '<');
                            assert(ws_end(s, k) == k) by {
                                lemma_scan_end_is(s, k, k, |c: char| is_ws_char(c));
                            }
                            assert(rest[0] is Element);
                            assert(ks[1] == rest[0]);
                        }
                    } else {
                        assert(rest[x - 1] == ks[x]);
                        assert(rest[x] == ks[x + 1]);
                        assert(!(rest[x - 1] is Text && rest[x] is Text));
                    }
                }
                assert(ks[0] == n0);
            }
        }
    }
}

/// See `lemma_sp_node_wf`.
proof fn lemma_sp_element_wf(s: Seq<char>, i: int)
    requires
        0 <= i <= s.len(),
    ensures
        sp_element(s, i) matches Ok(p) ==> view_wf(p.0) && p.0 is Element,
    decreases s.len() - i, 0int,
{
    if i < s.len() && s[i] == '<' {
        lemma_tag_end(s, i + 1);
        let tn = tag_end(s, i + 1);
        lemma_sp_attributes_bounds(s, tn, Map::empty());
        lemma_sp_attributes_wf(s, tn, Map::empty());
        if let Ok((m, a)) = sp_attributes(s, tn, Map::empty()) {
            if a < s.len() && s[a] == '>' {
                lemma_sp_nodes_bounds(s, a + 1);
                lemma_sp_nodes_wf(s, a + 1);
                if let Ok(p) = sp_element(s, i) {
                    let tag = s.subrange(i + 1, tn);
                    assert forall|k: int| 0 <= k < tag.len() implies is_tag_char(
                        #[trigger] tag[k],
                    ) by {
                        assert(tag[k] == s[i + 1 + k]);
                    }
                }
            }
        }
    }
}

/// A tree whose abstract value the parser could have produced, whose tag
/// names are nonempty, and whose attribute values hold no `"`, has
/// unambiguous markup.
proof fn lemma_view_wf_to_ser_wf(n: Node)
    requires
        n.wf(),
        view_wf(n@),
        benign_markup(n@),
    ensures
        ser_wf_node(n),
    decreases n,
{
    match n.node_type {
        NodeType::Text(t) => {
        },
        NodeType::Element(ed) => {
            let ps = ed.attributes.pairs();
            ed.attributes.lemma_view_is_pairs();
            assert(n@ == (NodeView::Element {
                tag: ed.tag_name@,
                attrs: ed.attributes@,
                kids: views_of(n.children@),
            }));
            assert(attr_names_ok(ed.attributes@));
            assert(attr_values_benign(ed.attributes@));
            assert(ser_wf_pairs(ps)) by {
                assert forall|x: int| 0 <= x < ps.len() implies ((forall|k: int|
                    0 <= k < (#[trigger] ps[x]).0.len() ==> is_tag_char(#[trigger] ps[x].0[k]))
                    && (forall|k: int|
                    0 <= k < ps[x].1.len() ==> (#[trigger] ps[x].1[k]) != '"')) by {
                    lemma_map_of_pairs_at(ps, x);
                    assert(ed.attributes@.dom().contains(ps[x].0));
                    assert(name_chars_ok(ps[x].0));
                    assert(ed.attributes@[ps[x].0] == ps[x].1);
                    assert(quote_free(ps[x].1));
                }
            }
            lemma_views_of(n.children@);
            assert(ser_wf_nodes(n.children@)) by {
                assert forall|x: int| 0 <= x < n.children@.len() implies ser_wf_node(
                    #[trigger] n.children@[x],
                ) by {
                    assert(views_of(n.children@)[x] == n.children@[x]@);
                    assert(view_wf(n.children@[x]@));
                    assert(benign_markup(n.children@[x]@));
                    assert(n.children@[x].wf());
                    lemma_view_wf_to_ser_wf(n.children@[x]);
                }
                assert forall|x: int| 0 <= x < n.children@.len() - 1 implies !((
                #[trigger] n.children@[x]).node_type is Text && n.children@[x
                    + 1].node_type is Text) by {
                    assert(views_of(n.children@)[x] == n.children@[x]@);
                    assert(views_of(n.children@)[x + 1] == n.children@[x + 1]@);
                    if n.children@[x].node_type is Text && n.children@[x + 1].node_type is Text {
                        assert(n.children@[x]@ is Text);
                        assert(n.children@[x + 1]@ is Text);
                    }
                }
            }
        },
    }
}

/// The two ways markup can fail to pin a parsed tree down: an element with
/// an empty tag name, or an attribute value holding a `"` (which a
/// single-quoted source attribute can produce). `benign_markup` rules both
/// out.
pub open spec fn benign_markup(nv: NodeView) -> bool
    decreases nv,
{
    match nv {
        NodeView::Text(t) => true,
        NodeView::Element { tag, attrs, kids } => tag.len() > 0 && attr_values_benign(attrs)
            && kids_benign(kids),
    }
}

/// See `benign_markup`.
pub open spec fn kids_benign(ks: Seq<NodeView>) -> bool
    decreases ks,
{
    forall|i: int| 0 <= i < ks.len() ==> benign_markup(#[trigger] ks[i])
}

/// LAW (round trip of a parsed tree): a tree the parser produced from some
/// source re-serializes to markup that parses back to a structurally equal
/// tree — attribute order aside, which the abstract value already ignores.
/// The two corners `benign_markup` excludes genuinely fail: an attribute
/// value that holds a `"` (parsed from a single-quoted attribute) is cut
/// short at serialization, and an empty tag name changes how the markup
/// reads.
pub proof fn lemma_parsed_tree_round_trips(src: Seq<char>, n: Node)
    requires
        n.wf(),
        sp_html(src) matches Ok(nv) && nv == n@,
        benign_markup(n@),
    ensures
        sp_html(ser_node(n)) == Ok::<NodeView, ParseError>(n@),
{
    lemma_sp_nodes_wf(src, 0);
    if let Ok((ks, e)) = sp_nodes(src, 0) {
        if ks.len() == 1 {
            assert(view_wf(ks[0]));
        } else {
            assert(view_wf(n@)) by {
                let tag = seq!['h', 't', 'm', 'l'];
                assert forall|k: int| 0 <= k < tag.len() implies is_tag_char(
                    #[trigger] tag[k],
                ) by {
                    assert(tag[0] == 'h' && tag[1] == 't' && tag[2] == 'm' && tag[3] == 'l');
                }
                assert(forall|key: Seq<char>|
                    !Map::<Seq<char>, Seq<char>>::empty().dom().contains(key));
            }
        }
    }
    lemma_view_wf_to_ser_wf(n);
    lemma_round_trip(n);
}

/// LAW (round trip): re-serializing a tree and re-parsing it yields a
/// structurally equal tree — attribute order aside, which the abstract
/// value already ignores. It holds of every well-formed tree whose markup
/// is unambiguous (`ser_wf_node`): tag and attribute names are
/// name-character runs and tags are nonempty, attribute values hold no
/// `"` (a single-quoted source attribute could have smuggled one in),
/// text runs are nonempty, hold no `<`, do not start with whitespace, and
/// are not adjacent.
pub proof fn lemma_round_trip(n: Node)
    requires
        n.wf(),
        ser_wf_node(n),
    ensures
        sp_html(ser_node(n)) == Ok::<NodeView, ParseError>(n@),
{
    let s = ser_node(n);
    lemma_ser_node_head(n);
    assert(s.subrange(0, s.len() as int) =~= s);
    lemma_ser_node_parses(s, 0, n);
    lemma_scan_end_is(s, 0, 0, |c: char| is_ws_char(c));
    assert(!starts_with_at(s, 0, seq!['<', '/'])) by {
        if starts_with_at(s, 0, seq!['<', '/']) {
            assert(s.subrange(0, 2)[0] == s[0]);
            assert(s.subrange(0, 2)[1] == s[1]);
            if n.node_type is Element {
                assert(is_tag_char(s[1]));
            }
        }
    }
    assert(step(s, 0, s.len() as int) == s.len() as int);
    lemma_scan_end_is(s, s.len() as int, s.len() as int, |c: char| is_ws_char(c));
    assert(sp_nodes(s, s.len() as int) == Ok::<(Seq<NodeView>, int), ParseError>(
        (Seq::empty(), s.len() as int),
    ));
    assert(seq![n@] + Seq::<NodeView>::empty() =~= seq![n@]);
    assert(sp_nodes(s, 0) == Ok::<(Seq<NodeView>, int), ParseError>(
        (seq![n@], s.len() as int),
    ));
    assert(seq![n@][0] == n@);
}

/// Parse a whole document: the sole markup entry point. A single top-level
/// node is returned directly; no nodes, or several, are wrapped in a
/// synthesized `html` element, so the result is always one rooted tree.
pub fn parse_html(source: &str) -> (r: Result<Node, ParseError>)
    ensures
        ({
            let r0 = sp_html(source@);
            match r {
                Ok(n) => r0 matches Ok(v) && n@ == v && n.wf(),
                Err(e) => r0 matches Err(e2) && e == e2,
            }
        }),
{
    let mut cur = Cursor::new(source);
    let mut nodes = match parse_nodes(&mut cur) {
        Ok(v) => v,
        Err(e) => return Err(e),
    };
    proof {
        lemma_views_of(nodes@);
    }
    if nodes.len() == 1 {
        let n = nodes.remove(0);
        Ok(n)
    } else {
        proof {
            reveal_strlit("html");
            assert("html"@ =~= seq!['h', 't', 'm', 'l']);
        }
        let root = Node::element(String::from_str("html"), AttrMap::new(), nodes);
        Ok(root)
    }
}

} // verus!
