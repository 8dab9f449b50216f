//! The markup parser: a single forward scan over the input characters
//! that builds a document tree held in an arena of nodes.
//!
//! The tree is modelled at the spec level by [`parse_html_spec`], a
//! functional parser over the input character sequence; the executable
//! [`parse_html`] is proved to return exactly its result, and that
//! result is proved well formed ([`arena_wf`]): every node except the
//! root names a parent created before it, and stands in that parent's
//! child list exactly once, in document order.

use crate::text::{
    append_pairs, attrs_text, chars_to_string, find_char, is_space, is_space_char,
    lemma_find_char, pairs_view, str_to_chars, subvec, trim, trim_chars,
};
use vstd::prelude::*;
use vstd::string::StringExecFns;

verus! {

/// Spec-level picture of one node: an element has a tag name, a text
/// leaf has none and carries its text as the single synthetic
/// attribute pair `("value", text)`.
#[verifier::ext_equal]
pub ghost struct NodeV {
    pub tag: Option<Seq<char>>,
    pub attrs: Seq<(Seq<char>, Seq<char>)>,
    pub children: Seq<int>,
    pub parent: Option<int>,
}

/// Spec-level builder state: the arena grown so far, the current
/// insertion point (meaningful only once the arena is non-empty), and
/// the text run buffered since the last tag boundary.
#[verifier::ext_equal]
pub ghost struct BuildSt {
    pub nodes: Seq<NodeV>,
    pub cur: int,
    pub text: Seq<char>,
}

/// The parent index a node names, with 0 for the root.
pub open spec fn parent_idx(nodes: Seq<NodeV>, i: int) -> int {
    match nodes[i].parent {
        Some(p) => p,
        None => 0,
    }
}

/// Well-formedness of the arena: node 0 is the root; every other node
/// names a parent created before it and stands in that parent's child
/// list; child lists point back, stay in bounds, and are strictly
/// increasing, so each child occurs exactly once, in document order.
pub open spec fn arena_wf(nodes: Seq<NodeV>) -> bool {
    &&& nodes.len() >= 1
    &&& nodes[0].parent is None
    &&& (forall|i: int| 1 <= i < nodes.len() ==> (#[trigger] nodes[i]).parent is Some)
    &&& (forall|i: int| 1 <= i < nodes.len() ==> 0 <= #[trigger] parent_idx(nodes, i) < i)
    &&& (forall|i: int|
        1 <= i < nodes.len() ==> nodes[#[trigger] parent_idx(nodes, i)].children.contains(i))
    &&& (forall|i: int, k: int|
        0 <= i < nodes.len() && 0 <= k < nodes[i].children.len() ==> i < #[trigger] nodes[i].children[k]
            < nodes.len())
    &&& (forall|i: int, k: int|
        0 <= i < nodes.len() && 0 <= k < nodes[i].children.len() ==> nodes[#[trigger] nodes[i].children[k]].parent
            == Some(i))
    &&& (forall|i: int, k1: int, k2: int|
        0 <= i < nodes.len() && 0 <= k1 < k2 < nodes[i].children.len()
            ==> #[trigger] nodes[i].children[k1] < #[trigger] nodes[i].children[k2])
}

/// The builder state is well formed once the arena is non-empty.
pub open spec fn st_wf(st: BuildSt) -> bool {
    st.nodes.len() > 0 ==> 0 <= st.cur < st.nodes.len() && arena_wf(st.nodes)
}

/// A text leaf holding the run `t`.
pub open spec fn text_node(t: Seq<char>, parent: Option<int>) -> NodeV {
    NodeV { tag: None, attrs: seq![("value"@, t)], children: Seq::empty(), parent }
}

/// Appends `child` as the last child of `cur`, at the next free index.
pub open spec fn append_child(nodes: Seq<NodeV>, cur: int, child: NodeV) -> Seq<NodeV> {
    let idx = nodes.len() as int;
    nodes.update(
        cur,
        NodeV { children: nodes[cur].children.push(idx), ..nodes[cur] },
    ).push(child)
}

/// Flushes the buffered text: a run that trims to nothing is dropped;
/// otherwise a text leaf is appended under the current node, a root
/// being created first when none exists yet.
pub open spec fn flush_text(st: BuildSt) -> BuildSt {
    let t = trim(st.text);
    if t.len() == 0 {
        BuildSt { text: Seq::empty(), ..st }
    } else if st.nodes.len() == 0 {
        BuildSt {
            nodes: seq![
                NodeV { tag: None, attrs: Seq::empty(), children: seq![1], parent: None },
                text_node(t, Some(0)),
            ],
            cur: 0,
            text: Seq::empty(),
        }
    } else {
        BuildSt {
            nodes: append_child(st.nodes, st.cur, text_node(t, Some(st.cur))),
            cur: st.cur,
            text: Seq::empty(),
        }
    }
}

/// Opens an element: the very first element becomes the root, any
/// later one is appended under the current node; either way the new
/// element becomes the current insertion point.
pub open spec fn open_element(st: BuildSt, tag: Seq<char>, attrs: Seq<(Seq<char>, Seq<char>)>) -> BuildSt {
    if st.nodes.len() == 0 {
        BuildSt {
            nodes: seq![NodeV { tag: Some(tag), attrs, children: Seq::empty(), parent: None }],
            cur: 0,
            text: st.text,
        }
    } else {
        let idx = st.nodes.len() as int;
        BuildSt {
            nodes: append_child(
                st.nodes,
                st.cur,
                NodeV { tag: Some(tag), attrs, children: Seq::empty(), parent: Some(st.cur) },
            ),
            cur: idx,
            text: st.text,
        }
    }
}

/// A closing marker ascends exactly one level, whatever its name; at
/// the root, or before any node exists, it does nothing.
pub open spec fn ascend(st: BuildSt) -> BuildSt {
    if st.nodes.len() > 0 {
        match st.nodes[st.cur].parent {
            Some(p) => BuildSt { cur: p, ..st },
            None => st,
        }
    } else {
        st
    }
}

/// End of input: the last text run is flushed, and an input that
/// produced nothing at all yields a single empty, element-less root.
pub open spec fn finish_tree(st: BuildSt) -> Seq<NodeV> {
    let st1 = flush_text(st);
    if st1.nodes.len() == 0 {
        seq![NodeV { tag: None, attrs: Seq::empty(), children: Seq::empty(), parent: None }]
    } else {
        st1.nodes
    }
}

/// First index at or after `i` whose character ends a tag name: a
/// whitespace character or `>`.
pub open spec fn name_end(s: Seq<char>, i: int) -> int
    decreases s.len() - i when 0 <= i <= s.len()
{
    if i >= s.len() {
        i
    } else if is_space(s[i]) || s[i] == '>' {
        i
    } else {
        name_end(s, i + 1)
    }
}

/// Bounds of `name_end`.
pub proof fn lemma_name_end(s: Seq<char>, i: int)
    requires
        0 <= i <= s.len(),
    ensures
        i <= name_end(s, i) <= s.len(),
    decreases s.len() - i,
{
    if i < s.len() && !(is_space(s[i]) || s[i] == '>') {
        lemma_name_end(s, i + 1);
    }
}

/// First index past the next `>` at or after `i`, or the end of input.
pub open spec fn after_gt(s: Seq<char>, i: int) -> int
    decreases s.len() - i when 0 <= i <= s.len()
{
    if i >= s.len() {
        i
    } else if s[i] == '>' {
        i + 1
    } else {
        after_gt(s, i + 1)
    }
}

/// Bounds of `after_gt`.
pub proof fn lemma_after_gt(s: Seq<char>, i: int)
    requires
        0 <= i <= s.len(),
    ensures
        i <= after_gt(s, i) <= s.len(),
    decreases s.len() - i,
{
    if i < s.len() && s[i] != '>' {
        lemma_after_gt(s, i + 1);
    }
}

/// First index at or after `i` whose character ends an attribute key:
/// `=`, `>` or whitespace.
pub open spec fn key_end(s: Seq<char>, i: int) -> int
    decreases s.len() - i when 0 <= i <= s.len()
{
    if i >= s.len() {
        i
    } else if s[i] == '=' || s[i] == '>' || is_space(s[i]) {
        i
    } else {
        key_end(s, i + 1)
    }
}

/// Bounds of `key_end`.
pub proof fn lemma_key_end(s: Seq<char>, i: int)
    requires
        0 <= i <= s.len(),
    ensures
        i <= key_end(s, i) <= s.len(),
    decreases s.len() - i,
{
    if i < s.len() && !(s[i] == '=' || s[i] == '>' || is_space(s[i])) {
        lemma_key_end(s, i + 1);
    }
}

/// One `key=value` pair read at `i`: the key runs to `=`, `>` or
/// whitespace; after `=` the value is quoted (up to the matching quote,
/// quotes excluded, or to the end of input) or unquoted (up to
/// whitespace or `>`); a key with no `=` gets an empty value. Returns
/// the key, the value and the index just past the pair.
pub open spec fn attr_at(s: Seq<char>, i: int) -> (Seq<char>, Seq<char>, int) {
    let ke = key_end(s, i);
    let key = s.subrange(i, ke);
    if ke < s.len() && s[ke] == '=' {
        let v = ke + 1;
        if v < s.len() && (s[v] == '"' || s[v] == '\'') {
            let close = find_char(s, s[v], v + 1);
            if close < s.len() {
                (key, s.subrange(v + 1, close), close + 1)
            } else {
                (key, s.subrange(v + 1, s.len() as int), s.len() as int)
            }
        } else {
            let ve = name_end(s, v);
            (key, s.subrange(v, ve), ve)
        }
    } else {
        (key, Seq::empty(), ke)
    }
}

/// Reading an attribute at a character that is neither whitespace nor
/// `>` always makes progress.
pub proof fn lemma_attr_at_advances(s: Seq<char>, i: int)
    requires
        0 <= i < s.len(),
        !is_space(s[i]),
        s[i] != '>',
    ensures
        i < attr_at(s, i).2 <= s.len(),
{
    lemma_key_end(s, i);
    let ke = key_end(s, i);
    if ke < s.len() && s[ke] == '=' {
        let v = ke + 1;
        if v < s.len() && (s[v] == '"' || s[v] == '\'') {
            lemma_find_char(s, s[v], v + 1);
        } else {
            lemma_name_end(s, v);
        }
    } else {
        assert(s[i] != '=' ==> key_end(s, i) == key_end(s, i + 1));
        if s[i] != '=' {
            lemma_key_end(s, i + 1);
        }
    }
}

/// The attribute scan of an opening tag: whitespace is skipped and
/// `key=value` pairs are read until `>` (consumed) or the end of input.
/// Returns the pairs appended to `acc` and the index past the tag.
pub open spec fn scan_attrs(s: Seq<char>, i: int, acc: Seq<(Seq<char>, Seq<char>)>) -> (
    Seq<(Seq<char>, Seq<char>)>,
    int,
)
    decreases s.len() - i when 0 <= i <= s.len() via scan_attrs_dec
{
    if i >= s.len() {
        (acc, i)
    } else if s[i] == '>' {
        (acc, i + 1)
    } else if is_space(s[i]) {
        scan_attrs(s, i + 1, acc)
    } else {
        let r = attr_at(s, i);
        scan_attrs(s, r.2, acc.push((r.0, r.1)))
    }
}

#[via_fn]
proof fn scan_attrs_dec(s: Seq<char>, i: int, acc: Seq<(Seq<char>, Seq<char>)>) {
    if 0 <= i < s.len() && !is_space(s[i]) && s[i] != '>' {
        lemma_attr_at_advances(s, i);
    }
}

/// Bounds of `scan_attrs`: the scan never moves backwards, and moves
/// strictly forward when any input is left.
pub proof fn lemma_scan_attrs_bounds(s: Seq<char>, i: int, acc: Seq<(Seq<char>, Seq<char>)>)
    requires
        0 <= i <= s.len(),
    ensures
        i <= scan_attrs(s, i, acc).1 <= s.len(),
        i < s.len() ==> i < scan_attrs(s, i, acc).1,
    decreases s.len() - i,
{
    if i >= s.len() {
    } else if s[i] == '>' {
    } else if is_space(s[i]) {
        lemma_scan_attrs_bounds(s, i + 1, acc);
    } else {
        lemma_attr_at_advances(s, i);
        let r = attr_at(s, i);
        lemma_scan_attrs_bounds(s, r.2, acc.push((r.0, r.1)));
    }
}

/// The whole parse from index `i` in state `st`: text characters are
/// buffered; `<` flushes the buffered run and reads either a closing
/// marker (ascend one level, skip past the next `>`) or an opening tag
/// (scan name and attributes, enter the new element).
pub open spec fn run(s: Seq<char>, st: BuildSt, i: int) -> Seq<NodeV>
    decreases s.len() - i when 0 <= i <= s.len() via run_dec
{
    if i >= s.len() {
        finish_tree(st)
    } else if s[i] != '<' {
        run(s, BuildSt { text: st.text.push(s[i]), ..st }, i + 1)
    } else {
        let st1 = flush_text(st);
        let ne = name_end(s, i + 1);
        let name = s.subrange(i + 1, ne);
        if name.len() > 0 && name[0] == '/' {
            run(s, ascend(st1), after_gt(s, ne))
        } else {
            let r = scan_attrs(s, ne, Seq::empty());
            run(s, open_element(st1, name, r.0), r.1)
        }
    }
}

#[via_fn]
proof fn run_dec(s: Seq<char>, st: BuildSt, i: int) {
    if 0 <= i < s.len() && s[i] == '<' {
        lemma_name_end(s, i + 1);
        let ne = name_end(s, i + 1);
        lemma_after_gt(s, ne);
        lemma_scan_attrs_bounds(s, ne, Seq::empty());
    }
}

/// What `parse_html` returns, as a function of the input characters
/// alone: the arena of the finished tree, rooted at index 0.
pub open spec fn parse_html_spec(s: Seq<char>) -> Seq<NodeV> {
    run(s, BuildSt { nodes: Seq::empty(), cur: 0, text: Seq::empty() }, 0)
}

/// Pushing keeps every element a sequence already contains.
proof fn lemma_push_contains(s: Seq<int>, x: int, y: int)
    requires
        s.contains(y),
    ensures
        s.push(x).contains(y),
{
    let k = choose|k: int| 0 <= k < s.len() && s[k] == y;
    assert(s.push(x)[k] == y);
}

/// A one-node arena (a childless root) is well formed.
proof fn lemma_singleton_wf(root: NodeV)
    requires
        root.parent is None,
        root.children.len() == 0,
    ensures
        arena_wf(seq![root]),
{
}

/// The arena made of an empty root and one text leaf under it is well
/// formed.
proof fn lemma_two_node_wf(t: Seq<char>)
    ensures
        arena_wf(
            seq![
                NodeV { tag: None, attrs: Seq::empty(), children: seq![1], parent: None },
                text_node(t, Some(0)),
            ],
        ),
{
    let nodes = seq![
        NodeV { tag: None, attrs: Seq::empty(), children: seq![1], parent: None },
        text_node(t, Some(0)),
    ];
    assert(parent_idx(nodes, 1) == 0);
    assert(nodes[0].children[0] == 1);
    assert(nodes[0].children.contains(1));
}

/// Appending a fresh childless node under a live insertion point keeps
/// the arena well formed.
proof fn lemma_append_child_wf(nodes: Seq<NodeV>, cur: int, child: NodeV)
    requires
        arena_wf(nodes),
        0 <= cur < nodes.len(),
        child.children.len() == 0,
        child.parent == Some(cur),
    ensures
        arena_wf(append_child(nodes, cur, child)),
{
    let idx = nodes.len() as int;
    let new = append_child(nodes, cur, child);
    assert(new.len() == idx + 1);
    assert(new[idx] == child);
    assert(forall|j: int| 0 <= j < idx && j != cur ==> new[j] == nodes[j]);
    assert(new[cur].parent == nodes[cur].parent);
    assert(new[cur].children == nodes[cur].children.push(idx));
    assert(new[0].parent is None);
    assert forall|i: int| 1 <= i < new.len() implies (#[trigger] new[i]).parent is Some by {
        if i < idx {
            assert(new[i].parent == nodes[i].parent);
        }
    }
    assert forall|i: int| 1 <= i < new.len() implies 0 <= #[trigger] parent_idx(new, i) < i by {
        if i < idx {
            assert(new[i].parent == nodes[i].parent);
            assert(parent_idx(new, i) == parent_idx(nodes, i));
        } else {
            assert(parent_idx(new, i) == cur);
        }
    }
    assert forall|i: int| 1 <= i < new.len() implies new[#[trigger] parent_idx(new, i)].children.contains(
        i,
    ) by {
        if i < idx {
            let p = parent_idx(nodes, i);
            assert(parent_idx(new, i) == p);
            assert(nodes[p].children.contains(i));
            if p == cur {
                lemma_push_contains(nodes[cur].children, idx, i);
            } else {
                assert(new[p].children == nodes[p].children);
            }
        } else {
            assert(parent_idx(new, idx) == cur);
            assert(new[cur].children[new[cur].children.len() - 1] == idx);
        }
    }
    assert forall|i: int, k: int|
        0 <= i < new.len() && 0 <= k < new[i].children.len() implies i
        < #[trigger] new[i].children[k] < new.len() by {
        if i == cur {
            if k < nodes[cur].children.len() {
                assert(new[i].children[k] == nodes[cur].children[k]);
            } else {
                assert(new[i].children[k] == idx);
            }
        } else if i < idx {
            assert(new[i].children == nodes[i].children);
        }
    }
    assert forall|i: int, k: int|
        0 <= i < new.len() && 0 <= k < new[i].children.len() implies new[#[trigger] new[i].children[k]].parent
        == Some(i) by {
        if i == cur {
            if k < nodes[cur].children.len() {
                let c = nodes[cur].children[k];
                assert(nodes[c].parent == Some(cur));
                assert(cur < c < idx);
                assert(new[c].parent == nodes[c].parent);
            } else {
                assert(new[i].children[k] == idx);
            }
        } else if i < idx {
            let c = nodes[i].children[k];
            assert(nodes[c].parent == Some(i));
            if c == cur {
                assert(new[c].parent == nodes[c].parent);
            } else {
                assert(new[c] == nodes[c]);
            }
        }
    }
    assert forall|i: int, k1: int, k2: int|
        0 <= i < new.len() && 0 <= k1 < k2 < new[i].children.len() implies #[trigger] new[i].children[k1]
        < #[trigger] new[i].children[k2] by {
        if i == cur {
            if k2 < nodes[cur].children.len() {
                assert(new[i].children[k1] == nodes[cur].children[k1]);
                assert(new[i].children[k2] == nodes[cur].children[k2]);
            } else {
                assert(new[i].children[k2] == idx);
                assert(new[i].children[k1] == nodes[cur].children[k1]);
                assert(cur < nodes[cur].children[k1] < idx);
            }
        } else if i < idx {
            assert(new[i].children == nodes[i].children);
        }
    }
}

/// Flushing the text buffer preserves builder well-formedness.
proof fn lemma_flush_wf(st: BuildSt)
    requires
        st_wf(st),
    ensures
        st_wf(flush_text(st)),
{
    let t = trim(st.text);
    if t.len() == 0 {
    } else if st.nodes.len() == 0 {
        lemma_two_node_wf(t);
    } else {
        lemma_append_child_wf(st.nodes, st.cur, text_node(t, Some(st.cur)));
    }
}

/// Opening an element preserves builder well-formedness.
proof fn lemma_open_wf(st: BuildSt, tag: Seq<char>, attrs: Seq<(Seq<char>, Seq<char>)>)
    requires
        st_wf(st),
    ensures
        st_wf(open_element(st, tag, attrs)),
{
    if st.nodes.len() == 0 {
        lemma_singleton_wf(NodeV { tag: Some(tag), attrs, children: Seq::empty(), parent: None });
    } else {
        lemma_append_child_wf(
            st.nodes,
            st.cur,
            NodeV { tag: Some(tag), attrs, children: Seq::empty(), parent: Some(st.cur) },
        );
    }
}

/// Ascending on a closing marker preserves builder well-formedness.
proof fn lemma_ascend_wf(st: BuildSt)
    requires
        st_wf(st),
    ensures
        st_wf(ascend(st)),
{
    if st.nodes.len() > 0 {
        match st.nodes[st.cur].parent {
            Some(p) => {
                if st.cur >= 1 {
                    assert(parent_idx(st.nodes, st.cur) == p);
                }
            },
            None => {},
        }
    }
}

/// Ending the parse in any well-formed state yields a well-formed
/// arena.
proof fn lemma_finish_wf(st: BuildSt)
    requires
        st_wf(st),
    ensures
        arena_wf(finish_tree(st)),
{
    lemma_flush_wf(st);
    let st1 = flush_text(st);
    if st1.nodes.len() == 0 {
        lemma_singleton_wf(
            NodeV { tag: None, attrs: Seq::empty(), children: Seq::empty(), parent: None },
        );
    }
}

/// The parse from any well-formed state yields a well-formed arena.
proof fn lemma_run_wf(s: Seq<char>, st: BuildSt, i: int)
    requires
        0 <= i <= s.len(),
        st_wf(st),
    ensures
        arena_wf(run(s, st, i)),
    decreases s.len() - i,
{
    if i >= s.len() {
        lemma_finish_wf(st);
    } else if s[i] != '<' {
        lemma_run_wf(s, BuildSt { text: st.text.push(s[i]), ..st }, i + 1);
    } else {
        let st1 = flush_text(st);
        lemma_flush_wf(st);
        let ne = name_end(s, i + 1);
        lemma_name_end(s, i + 1);
        let name = s.subrange(i + 1, ne);
        if name.len() > 0 && name[0] == '/' {
            lemma_ascend_wf(st1);
            lemma_after_gt(s, ne);
            lemma_run_wf(s, ascend(st1), after_gt(s, ne));
        } else {
            let r = scan_attrs(s, ne, Seq::empty());
            lemma_scan_attrs_bounds(s, ne, Seq::empty());
            lemma_open_wf(st1, name, r.0);
            lemma_run_wf(s, open_element(st1, name, r.0), r.1);
        }
    }
}

/// Whatever the input — well formed or not — the parse yields a tree
/// whose every non-root node names a parent created before it and
/// stands in that parent's child list exactly once, in document order.
pub proof fn lemma_parse_html_spec_wf(s: Seq<char>)
    ensures
        arena_wf(parse_html_spec(s)),
{
    lemma_run_wf(s, BuildSt { nodes: Seq::empty(), cur: 0, text: Seq::empty() }, 0);
}

/// One node of the document tree, held in the arena of a [`Dom`]. An
/// element carries its tag name and its attribute pairs in source
/// order, duplicates kept; a text leaf has no tag and carries its text
/// as the single pair `("value", text)`. Children and parent are
/// arena indices.
pub struct Node {
    pub tag: Option<String>,
    pub attributes: Vec<(String, String)>,
    pub children: Vec<usize>,
    pub parent: Option<usize>,
}

impl View for Node {
    type V = NodeV;

    open spec fn view(&self) -> NodeV {
        NodeV {
            tag: match self.tag {
                Some(t) => Some(t@),
                None => None,
            },
            attrs: pairs_view(self.attributes@),
            children: self.children@.map_values(|c: usize| c as int),
            parent: match self.parent {
                Some(p) => Some(p as int),
                None => None,
            },
        }
    }
}

/// The view of a list of nodes.
pub open spec fn nodes_view(v: Seq<Node>) -> Seq<NodeV> {
    v.map_values(|n: Node| n@)
}

/// The document tree: an arena of nodes whose root is index 0.
pub struct Dom {
    pub nodes: Vec<Node>,
}

impl View for Dom {
    type V = Seq<NodeV>;

    open spec fn view(&self) -> Seq<NodeV> {
        nodes_view(self.nodes@)
    }
}

/// The executable builder state mirroring [`BuildSt`].
struct Builder {
    nodes: Vec<Node>,
    cur: usize,
    text: Vec<char>,
}

impl View for Builder {
    type V = BuildSt;

    closed spec fn view(&self) -> BuildSt {
        BuildSt { nodes: nodes_view(self.nodes@), cur: self.cur as int, text: self.text@ }
    }
}

impl Builder {
    fn new() -> (b: Builder)
        ensures
            b@ == (BuildSt { nodes: Seq::<NodeV>::empty(), cur: 0, text: Seq::<char>::empty() }),
            st_wf(b@),
    {
        let b = Builder { nodes: Vec::new(), cur: 0, text: Vec::new() };
        proof {
            assert(b@ =~~= (BuildSt {
                nodes: Seq::<NodeV>::empty(),
                cur: 0,
                text: Seq::<char>::empty(),
            }));
        }
        b
    }

    /// Makes the text leaf for a flushed run.
    fn text_leaf(t: &Vec<char>, parent: Option<usize>) -> (n: Node)
        ensures
            n@ == text_node(t@, match parent {
                Some(p) => Some(p as int),
                None => None,
            }),
    {
        let key = String::from_str("value");
        let val = chars_to_string(t);
        let mut tattrs: Vec<(String, String)> = Vec::new();
        tattrs.push((key, val));
        let n = Node { tag: None, attributes: tattrs, children: Vec::new(), parent };
        proof {
            assert(n@.attrs =~~= seq![("value"@, t@)]);
            assert(n@.children =~~= Seq::<int>::empty());
            assert(n@ =~~= text_node(t@, match parent {
                Some(p) => Some(p as int),
                None => None,
            }));
        }
        n
    }

    /// Flushes the buffered text run, as [`flush_text`] says.
    fn flush(&mut self)
        requires
            st_wf(old(self)@),
        ensures
            st_wf(final(self)@),
            final(self)@ == flush_text(old(self)@),
    {
        proof {
            lemma_flush_wf(old(self)@);
        }
        let t = trim_chars(&self.text);
        if t.len() == 0 {
            self.text.clear();
            proof {
                assert(self@ =~~= flush_text(old(self)@));
            }
        } else if self.nodes.len() == 0 {
            let tn = Self::text_leaf(&t, Some(0));
            let mut rchildren: Vec<usize> = Vec::new();
            rchildren.push(1);
            let root = Node {
                tag: None,
                attributes: Vec::new(),
                children: rchildren,
                parent: None,
            };
            self.nodes.push(root);
            self.nodes.push(tn);
            self.cur = 0;
            self.text.clear();
            proof {
                assert(self@.nodes =~~= flush_text(old(self)@).nodes);
                assert(self@ =~~= flush_text(old(self)@));
            }
        } else {
            let cur = self.cur;
            let idx = self.nodes.len();
            let tn = Self::text_leaf(&t, Some(cur));
            self.nodes[cur].children.push(idx);
            self.nodes.push(tn);
            self.text.clear();
            proof {
                assert(self@.nodes =~~= flush_text(old(self)@).nodes);
                assert(self@ =~~= flush_text(old(self)@));
            }
        }
    }

    /// Opens an element, as [`open_element`] says.
    fn open(&mut self, tag: String, attrs: Vec<(String, String)>)
        requires
            st_wf(old(self)@),
        ensures
            st_wf(final(self)@),
            final(self)@ == open_element(old(self)@, tag@, pairs_view(attrs@)),
    {
        proof {
            lemma_open_wf(old(self)@, tag@, pairs_view(attrs@));
        }
        if self.nodes.len() == 0 {
            let n = Node { tag: Some(tag), attributes: attrs, children: Vec::new(), parent: None };
            self.nodes.push(n);
            self.cur = 0;
            proof {
                assert(self@.nodes =~~= open_element(
                    old(self)@,
                    tag@,
                    pairs_view(attrs@),
                ).nodes);
                assert(self@ =~~= open_element(old(self)@, tag@, pairs_view(attrs@)));
            }
        } else {
            let cur = self.cur;
            let idx = self.nodes.len();
            let n = Node {
                tag: Some(tag),
                attributes: attrs,
                children: Vec::new(),
                parent: Some(cur),
            };
            self.nodes[cur].children.push(idx);
            self.nodes.push(n);
            self.cur = idx;
            proof {
                assert(self@.nodes =~~= open_element(
                    old(self)@,
                    tag@,
                    pairs_view(attrs@),
                ).nodes);
                assert(self@ =~~= open_element(old(self)@, tag@, pairs_view(attrs@)));
            }
        }
    }

    /// Ascends one level on a closing marker, as [`ascend`] says.
    fn close(&mut self)
        requires
            st_wf(old(self)@),
        ensures
            st_wf(final(self)@),
            final(self)@ == ascend(old(self)@),
    {
        proof {
            lemma_ascend_wf(old(self)@);
        }
        if self.nodes.len() > 0 {
            let p_opt = self.nodes[self.cur].parent;
            if let Some(p) = p_opt {
                self.cur = p;
                proof {
                    assert(self@ =~~= ascend(old(self)@));
                }
            } else {
                proof {
                    assert(self@ =~~= ascend(old(self)@));
                }
            }
        }
    }

    /// Ends the parse, as [`finish_tree`] says.
    fn finish(self) -> (dom: Dom)
        requires
            st_wf(self@),
        ensures
            dom@ == finish_tree(self@),
            arena_wf(dom@),
    {
        let ghost st0 = self@;
        let mut b = self;
        b.flush();
        proof {
            lemma_flush_wf(st0);
        }
        if b.nodes.len() == 0 {
            let root = Node { tag: None, attributes: Vec::new(), children: Vec::new(), parent: None };
            b.nodes.push(root);
            proof {
                lemma_singleton_wf(root@);
                assert(b@.nodes =~~= finish_tree(st0));
            }
        } else {
            proof {
                assert(b@.nodes =~~= finish_tree(st0));
            }
        }
        let dom = Dom { nodes: b.nodes };
        proof {
            assert(dom@ =~~= finish_tree(st0));
        }
        dom
    }
}

/// Reads one `key=value` attribute at index `i`, exactly as
/// [`attr_at`] says, and returns the key, the value and the index just
/// past the pair.
pub fn parse_attribute(s: &Vec<char>, i: usize) -> (r: (String, String, usize))
    requires
        i <= s@.len(),
    ensures
        r.0@ == attr_at(s@, i as int).0,
        r.1@ == attr_at(s@, i as int).1,
        r.2 as int == attr_at(s@, i as int).2,
        i <= r.2 <= s@.len(),
        i < s@.len() && !is_space(s@[i as int]) && s@[i as int] != '>' ==> i < r.2,
{
    proof {
        lemma_key_end(s@, i as int);
        if i < s@.len() && !is_space(s@[i as int]) && s@[i as int] != '>' {
            lemma_attr_at_advances(s@, i as int);
        }
    }
    let mut k = i;
    while k < s.len() && !(s[k] == '=' || s[k] == '>' || is_space_char(s[k]))
        invariant
            i <= k <= s@.len(),
            key_end(s@, i as int) == key_end(s@, k as int),
        decreases s@.len() - k,
    {
        k += 1;
    }
    proof {
        assert(key_end(s@, i as int) == k as int);
    }
    let kv = subvec(s, i, k);
    let key = chars_to_string(&kv);
    if k < s.len() && s[k] == '=' {
        let v = k + 1;
        if v < s.len() && (s[v] == '"' || s[v] == '\'') {
            let q = s[v];
            proof {
                lemma_find_char(s@, q, v + 1 as int);
            }
            let mut e = v + 1;
            while e < s.len() && s[e] != q
                invariant
                    v + 1 <= e <= s@.len(),
                    find_char(s@, q, (v + 1) as int) == find_char(s@, q, e as int),
                decreases s@.len() - e,
            {
                e += 1;
            }
            proof {
                assert(find_char(s@, q, (v + 1) as int) == e as int);
            }
            let vv = subvec(s, v + 1, e);
            let value = chars_to_string(&vv);
            if e < s.len() {
                (key, value, e + 1)
            } else {
                (key, value, e)
            }
        } else {
            proof {
                lemma_name_end(s@, v as int);
            }
            let mut e = v;
            while e < s.len() && !(is_space_char(s[e]) || s[e] == '>')
                invariant
                    v <= e <= s@.len(),
                    name_end(s@, v as int) == name_end(s@, e as int),
                decreases s@.len() - e,
            {
                e += 1;
            }
            proof {
                assert(name_end(s@, v as int) == e as int);
            }
            let vv = subvec(s, v, e);
            let value = chars_to_string(&vv);
            (key, value, e)
        }
    } else {
        proof {
            assert(attr_at(s@, i as int).1 =~~= Seq::<char>::empty());
        }
        (key, String::new(), k)
    }
}

/// Parses a markup text into a document tree. The result is exactly
/// [`parse_html_spec`] of the input characters, and the returned arena
/// is well formed: every non-root node sits in its parent's child list
/// exactly once, in document order.
#[verifier::loop_isolation(false)]
pub fn parse_html(input: &str) -> (dom: Dom)
    ensures
        dom@ == parse_html_spec(input@),
        arena_wf(dom@),
{
    let s = str_to_chars(input);
    let mut b = Builder::new();
    let mut i: usize = 0;
    while i < s.len()
        invariant
            i <= s@.len(),
            st_wf(b@),
            run(s@, b@, i as int) == parse_html_spec(input@),
        decreases s@.len() - i,
    {
        let ghost st0 = b@;
        let ghost i0 = i as int;
        let c = s[i];
        if c != '<' {
            b.text.push(c);
            i += 1;
            proof {
                assert(b@ =~~= (BuildSt { text: st0.text.push(s@[i0]), ..st0 }));
            }
        } else {
            b.flush();
            i += 1;
            let name_start = i;
            while i < s.len() && !(is_space_char(s[i]) || s[i] == '>')
                invariant
                    name_start <= i <= s@.len(),
                    name_end(s@, name_start as int) == name_end(s@, i as int),
                decreases s@.len() - i,
            {
                i += 1;
            }
            proof {
                assert(name_end(s@, name_start as int) == i as int);
            }
            let name = subvec(&s, name_start, i);
            if name.len() > 0 && name[0] == '/' {
                b.close();
                let ghost gstart = i as int;
                proof {
                    lemma_after_gt(s@, gstart);
                }
                while i < s.len() && s[i] != '>'
                    invariant
                        gstart <= i <= s@.len(),
                        after_gt(s@, gstart) == after_gt(s@, i as int),
                    decreases s@.len() - i,
                {
                    i += 1;
                }
                if i < s.len() {
                    i += 1;
                }
                proof {
                    assert(after_gt(s@, gstart) == i as int);
                }
            } else {
                let ghost astart = i as int;
                let mut attrs: Vec<(String, String)> = Vec::new();
                let mut closed = false;
                proof {
                    assert(pairs_view(attrs@) =~~= Seq::<(Seq<char>, Seq<char>)>::empty());
                }
                while !closed && i < s.len()
                    invariant
                        astart <= i <= s@.len(),
                        !closed ==> scan_attrs(s@, astart, Seq::empty()) == scan_attrs(
                            s@,
                            i as int,
                            pairs_view(attrs@),
                        ),
                        closed ==> scan_attrs(s@, astart, Seq::empty()) == (
                            pairs_view(attrs@),
                            i as int,
                        ),
                    decreases s@.len() - i,
                {
                    if s[i] == '>' {
                        i += 1;
                        closed = true;
                    } else if is_space_char(s[i]) {
                        i += 1;
                    } else {
                        let ghost acc0 = pairs_view(attrs@);
                        let r = parse_attribute(&s, i);
                        let ghost ga = attr_at(s@, i as int);
                        attrs.push((r.0, r.1));
                        i = r.2;
                        proof {
                            assert(pairs_view(attrs@) =~~= acc0.push((ga.0, ga.1)));
                        }
                    }
                }
                proof {
                    assert(scan_attrs(s@, astart, Seq::empty()) == (pairs_view(attrs@), i as int));
                }
                let tag = chars_to_string(&name);
                b.open(tag, attrs);
                proof {
                    assert(b@ =~~= open_element(
                        flush_text(st0),
                        s@.subrange(i0 + 1, name_end(s@, i0 + 1)),
                        scan_attrs(s@, name_end(s@, i0 + 1), Seq::empty()).0,
                    ));
                }
            }
        }
    }
    let dom = b.finish();
    dom
}

/// Two spaces of indentation per level of depth.
pub open spec fn indent_text(depth: int) -> Seq<char>
    decreases depth when depth >= 0
{
    if depth <= 0 {
        Seq::empty()
    } else {
        "  "@ + indent_text(depth - 1)
    }
}

/// One more level of indentation appends two spaces at the end too.
proof fn lemma_indent_snoc(d: int)
    requires
        d >= 0,
    ensures
        indent_text(d + 1) =~= indent_text(d) + "  "@,
    decreases d,
{
    if d > 0 {
        lemma_indent_snoc(d - 1);
        assert(indent_text(d + 1) =~= indent_text(d) + "  "@);
    }
}

/// The diagnostic line of one node: indentation, the tag name (or
/// `Text` for a text leaf), a colon, and — only when the node has
/// attributes — the bracketed pair list.
pub open spec fn node_line(n: NodeV, depth: int) -> Seq<char> {
    indent_text(depth) + (match n.tag {
        Some(t) => t,
        None => "Text"@,
    }) + ":"@ + (if n.attrs.len() > 0 {
        " ["@ + attrs_text(n.attrs, 0) + "]"@
    } else {
        Seq::<char>::empty()
    }) + "\n"@
}

/// The rendering of the node at `idx` and, below it, of its subtree.
pub open spec fn render_node_spec(nodes: Seq<NodeV>, idx: int, depth: int) -> Seq<char>
    decreases nodes.len() - idx, 1int, 0int
        when 0 <= idx < nodes.len() && arena_wf(nodes)
{
    node_line(nodes[idx], depth) + render_kids_spec(nodes, idx, 0, depth)
}

/// The rendering of the children of `idx` from child position `k` on.
pub open spec fn render_kids_spec(nodes: Seq<NodeV>, idx: int, k: int, depth: int) -> Seq<char>
    decreases nodes.len() - idx, 0int, nodes[idx].children.len() - k
        when 0 <= idx < nodes.len() && 0 <= k <= nodes[idx].children.len() && arena_wf(nodes)
            via render_kids_spec_dec
{
    if k >= nodes[idx].children.len() {
        Seq::empty()
    } else {
        render_node_spec(nodes, nodes[idx].children[k], depth + 1) + render_kids_spec(
            nodes,
            idx,
            k + 1,
            depth,
        )
    }
}

#[via_fn]
proof fn render_kids_spec_dec(nodes: Seq<NodeV>, idx: int, k: int, depth: int) {
    if 0 <= idx < nodes.len() && arena_wf(nodes) && 0 <= k < nodes[idx].children.len() {
        assert(idx < nodes[idx].children[k] < nodes.len());
    }
}

/// Renders the subtree at `idx`, exactly as [`render_node_spec`] says.
#[verifier::loop_isolation(false)]
fn render_node_at(nodes: &Vec<Node>, idx: usize, depth: usize) -> (out: String)
    requires
        arena_wf(nodes_view(nodes@)),
        idx < nodes@.len(),
        depth <= idx,
    ensures
        out@ == render_node_spec(nodes_view(nodes@), idx as int, depth as int),
    decreases nodes@.len() - idx,
{
    let ghost nv = nodes_view(nodes@);
    let mut out = String::new();
    let mut d: usize = 0;
    while d < depth
        invariant
            d <= depth,
            out@ == indent_text(d as int),
        decreases depth - d,
    {
        out.append("  ");
        proof {
            lemma_indent_snoc(d as int);
        }
        d += 1;
    }
    let node = &nodes[idx];
    match &node.tag {
        Some(t) => out.append(t.as_str()),
        None => out.append("Text"),
    }
    out.append(":");
    if node.attributes.len() > 0 {
        out.append(" [");
        append_pairs(&mut out, &node.attributes);
        out.append("]");
    }
    out.append("\n");
    proof {
        assert(nv[idx as int] == node@);
        assert(out@ =~= node_line(nv[idx as int], depth as int));
        assert(out@ + render_kids_spec(nv, idx as int, 0, depth as int) =~= render_node_spec(
            nv,
            idx as int,
            depth as int,
        ));
    }
    let mut k: usize = 0;
    while k < node.children.len()
        invariant
            k <= node.children@.len(),
            out@ + render_kids_spec(nv, idx as int, k as int, depth as int) == render_node_spec(
                nv,
                idx as int,
                depth as int,
            ),
        decreases node.children@.len() - k,
    {
        let ghost out0 = out@;
        let c = node.children[k];
        proof {
            assert(nv[idx as int].children[k as int] == c as int);
            assert(idx < c < nv.len());
        }
        let sub = render_node_at(nodes, c, depth + 1);
        out.append(sub.as_str());
        proof {
            assert(out@ + render_kids_spec(nv, idx as int, k + 1 as int, depth as int) =~= out0
                + render_kids_spec(nv, idx as int, k as int, depth as int));
        }
        k += 1;
    }
    proof {
        assert(out@ + Seq::<char>::empty() =~= out@);
    }
    out
}

impl Dom {
    /// Renders the whole tree as indented diagnostic lines, one per
    /// node, children below their parent.
    pub fn render(&self) -> (out: String)
        requires
            arena_wf(self@),
        ensures
            out@ == render_node_spec(self@, 0, 0),
    {
        render_node_at(&self.nodes, 0, 0)
    }
}

} // verus!
