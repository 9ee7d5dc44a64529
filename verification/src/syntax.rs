//! The syntax tree of a file: tree-sitter's parse, copied into plain nodes
//! in pre-order so that the extraction over it can be verified.

use vstd::prelude::*;
use vstd::utf8::encode_utf8;
use tree_sitter::{Language, Node, Parser, Tree, TreeCursor};

verus! {

#[verifier::external_type_specification]
#[verifier::external_body]
pub struct ExLanguage(Language);

#[verifier::external_type_specification]
#[verifier::external_body]
pub struct ExParser(Parser);

#[verifier::external_type_specification]
#[verifier::external_body]
pub struct ExTree(Tree);

#[verifier::external_type_specification]
#[verifier::external_body]
pub struct ExNode<'tree>(Node<'tree>);

#[verifier::external_type_specification]
#[verifier::external_body]
pub struct ExTreeCursor<'cursor>(TreeCursor<'cursor>);

/// What tree-sitter reports of a node of a tree, in the order of a
/// pre-order walk: kind, whether named, the field it fills in its parent,
/// (start byte, end byte, row, column), (is error, is missing, has error),
/// and its depth below the walk's root
pub type NodeRecord = (Seq<char>, bool, Option<Seq<char>>, (usize, usize, usize, usize), (bool, bool, bool), nat);

/// The nodes of the tree the bundled SourcePawn grammar gives for `text`, in
/// pre-order from the root
pub uninterp spec fn sourcepawn_nodes(text: Seq<u8>) -> Seq<NodeRecord>;

/// Whether a grammar is the bundled SourcePawn grammar
pub uninterp spec fn grammar_is_sourcepawn(l: Language) -> bool;

/// Whether a parser holds the bundled SourcePawn grammar
pub uninterp spec fn parser_is_sourcepawn(p: Parser) -> bool;

/// What a tree holds: its nodes in pre-order from the root
pub uninterp spec fn tree_nodes(t: Tree) -> Seq<NodeRecord>;

/// What a node heads: itself and its descendants in pre-order, depths and
/// fields as a walk rooted at it reports them
pub uninterp spec fn node_records(n: Node) -> Seq<NodeRecord>;

/// What a node itself reports: kind, whether named, (start byte, end byte,
/// row, column) and (is error, is missing, has error)
pub uninterp spec fn node_facts(n: Node) -> (Seq<char>, bool, (usize, usize, usize, usize), (bool, bool, bool));

/// The nodes a cursor walks: those of the node it was made at
pub uninterp spec fn cursor_records(c: TreeCursor) -> Seq<NodeRecord>;

/// The pre-order index of a cursor's current node
pub uninterp spec fn cursor_at(c: TreeCursor) -> int;

/// The facts of a record that a node reports itself
pub open spec fn record_facts(r: NodeRecord) -> (Seq<char>, bool, (usize, usize, usize, usize), (bool, bool, bool)) {
    (r.0, r.1, r.3, r.4)
}

/// Wraps `tree_sitter_sourcepawn::language`: the SourcePawn grammar.
#[verifier::external_body]
fn sourcepawn_language() -> (r: Language)
    ensures
        grammar_is_sourcepawn(r),
{
    tree_sitter_sourcepawn::language()
}

/// Wraps `Parser::new`: a parser without a language.
#[verifier::external_body]
fn new_parser() -> (r: Parser)
    ensures
        !parser_is_sourcepawn(r),
{
    Parser::new()
}

/// Wraps `Parser::set_language`: the grammar is accepted when its ABI
/// version is one the library supports (13 through 15), and the parser then
/// holds it; else the error's message, and the parser is left as it was.
/// The bundled SourcePawn grammar has ABI version 15, so it is accepted.
#[verifier::external_body]
fn set_language(parser: &mut Parser, language: &Language) -> (r: Result<(), String>)
    ensures
        grammar_is_sourcepawn(*language) ==> r is Ok,
        r is Ok ==> parser_is_sourcepawn(*final(parser)) == grammar_is_sourcepawn(*language),
        r is Err ==> parser_is_sourcepawn(*final(parser)) == parser_is_sourcepawn(*old(parser)),
{
    match parser.set_language(language) {
        Ok(()) => Ok(()),
        Err(e) => Err(e.to_string()),
    }
}

/// Wraps `Parser::parse` without an old tree: documented to give no tree
/// only when the parser has no language, so with the SourcePawn grammar it
/// gives the tree of `text`.
#[verifier::external_body]
fn parse_text(parser: &mut Parser, text: &[u8]) -> (r: Option<Tree>)
    ensures
        parser_is_sourcepawn(*old(parser)) ==> (r matches Some(tree) && tree_nodes(tree) == sourcepawn_nodes(text@)),
{
    parser.parse(text, None)
}

/// Wraps `Tree::root_node`: the root heads all of the tree's nodes.
#[verifier::external_body]
fn root_node<'t>(tree: &'t Tree) -> (r: Node<'t>)
    ensures
        node_records(r) == tree_nodes(*tree),
{
    tree.root_node()
}

/// Wraps `Node::descendant_count`: documented to count the node itself and
/// all below it.
#[verifier::external_body]
fn descendant_count(node: Node) -> (n: usize)
    ensures
        n == node_records(node).len(),
        n >= 1,
{
    node.descendant_count()
}

/// Wraps `Node::walk`: a cursor rooted at the node, on the node itself.
#[verifier::external_body]
fn walk<'t>(node: Node<'t>) -> (r: TreeCursor<'t>)
    ensures
        cursor_records(r) == node_records(node),
        cursor_at(r) == 0,
{
    node.walk()
}

/// Wraps `TreeCursor::goto_descendant`: moves to the descendant with that
/// pre-order index.
#[verifier::external_body]
fn goto_descendant(cursor: &mut TreeCursor, index: usize)
    requires
        index < cursor_records(*old(cursor)).len(),
    ensures
        cursor_records(*final(cursor)) == cursor_records(*old(cursor)),
        cursor_at(*final(cursor)) == index,
{
    cursor.goto_descendant(index)
}

/// Wraps `TreeCursor::node`: the current node.
#[verifier::external_body]
fn cursor_node<'t>(cursor: &TreeCursor<'t>) -> (r: Node<'t>)
    ensures
        0 <= cursor_at(*cursor) < cursor_records(*cursor).len() ==> node_facts(r) == record_facts(
            cursor_records(*cursor)[cursor_at(*cursor)],
        ),
{
    cursor.node()
}

/// Wraps `TreeCursor::depth`: the depth of the current node below the
/// cursor's root.
#[verifier::external_body]
fn cursor_depth(cursor: &TreeCursor) -> (r: u32)
    ensures
        0 <= cursor_at(*cursor) < cursor_records(*cursor).len() ==> r == cursor_records(*cursor)[cursor_at(
            *cursor,
        )].5,
{
    cursor.depth()
}

/// Wraps `TreeCursor::field_name`: the field the current node fills in its
/// parent.
#[verifier::external_body]
fn cursor_field_name(cursor: &TreeCursor) -> (r: Option<String>)
    ensures
        0 <= cursor_at(*cursor) < cursor_records(*cursor).len() ==> opt_string(r) == cursor_records(*cursor)[cursor_at(
            *cursor,
        )].2,
{
    cursor.field_name().map(|f| f.to_string())
}

/// Wraps `Node::kind`.
#[verifier::external_body]
fn node_kind(node: Node) -> (r: String)
    ensures
        r@ == node_facts(node).0,
{
    node.kind().to_string()
}

/// Wraps `Node::is_named`.
#[verifier::external_body]
fn node_is_named(node: Node) -> (r: bool)
    ensures
        r == node_facts(node).1,
{
    node.is_named()
}

/// Wraps `Node::start_byte`.
#[verifier::external_body]
fn node_start_byte(node: Node) -> (r: usize)
    ensures
        r == node_facts(node).2.0,
{
    node.start_byte()
}

/// Wraps `Node::end_byte`.
#[verifier::external_body]
fn node_end_byte(node: Node) -> (r: usize)
    ensures
        r == node_facts(node).2.1,
{
    node.end_byte()
}

/// Wraps `Node::start_position`: its row and column.
#[verifier::external_body]
fn node_start_position(node: Node) -> (r: (usize, usize))
    ensures
        r == (node_facts(node).2.2, node_facts(node).2.3),
{
    let p = node.start_position();
    (p.row, p.column)
}

/// Wraps `Node::is_error`.
#[verifier::external_body]
fn node_is_error(node: Node) -> (r: bool)
    ensures
        r == node_facts(node).3.0,
{
    node.is_error()
}

/// Wraps `Node::is_missing`.
#[verifier::external_body]
fn node_is_missing(node: Node) -> (r: bool)
    ensures
        r == node_facts(node).3.1,
{
    node.is_missing()
}

/// Wraps `Node::has_error`.
#[verifier::external_body]
fn node_has_error(node: Node) -> (r: bool)
    ensures
        r == node_facts(node).3.2,
{
    node.has_error()
}

/// A string by its view
pub open spec fn opt_string(s: Option<String>) -> Option<Seq<char>> {
    match s {
        Some(t) => Some(t@),
        None => None,
    }
}

/// A node of the syntax tree
pub struct SyntaxNode {
    pub kind: String,
    pub named: bool,
    /// The field this node fills in its parent
    pub field: Option<String>,
    pub start_byte: usize,
    pub end_byte: usize,
    /// Zero based row and column of the first byte
    pub row: usize,
    pub column: usize,
    pub is_error: bool,
    pub is_missing: bool,
    pub has_error: bool,
    pub parent: Option<usize>,
}

/// A syntax tree: its nodes in pre-order, node 0 the root, and each node's
/// children in order
pub struct SyntaxTree {
    pub nodes: Vec<SyntaxNode>,
    pub children: Vec<Vec<usize>>,
}

/// Children come after their parent, and positions leave room for one more
pub open spec fn children_ok(t: &SyntaxTree) -> bool {
    &&& t.children@.len() == t.nodes@.len()
    &&& forall|i: int, k: int| 0 <= i < t.children@.len() && 0 <= k < t.children@[i]@.len()
        ==> i < #[trigger] t.children@[i]@[k] < t.nodes@.len()
    &&& forall|i: int| 0 <= i < t.nodes@.len() ==> (#[trigger] t.nodes@[i]).row < usize::MAX
}

/// Children come after their parent, and every node covers bytes of `text`
pub open spec fn tree_ok(t: &SyntaxTree, text_len: int) -> bool {
    &&& children_ok(t)
    &&& forall|i: int| 0 <= i < t.nodes@.len() ==> (#[trigger] t.nodes@[i]).start_byte <= t.nodes@[i].end_byte
        <= text_len && t.nodes@[i].row < usize::MAX && t.nodes@[i].column < usize::MAX
}

fn node_of(node: Node, field: Option<String>, parent: Option<usize>) -> (r: SyntaxNode)
    ensures
        r.field == field,
        r.parent == parent,
        (r.kind@, r.named, (r.start_byte, r.end_byte, r.row, r.column), (r.is_error, r.is_missing, r.has_error))
            == node_facts(node),
{
    let (row, column) = node_start_position(node);
    SyntaxNode {
        kind: node_kind(node),
        named: node_is_named(node),
        field: field,
        start_byte: node_start_byte(node),
        end_byte: node_end_byte(node),
        row: row,
        column: column,
        is_error: node_is_error(node),
        is_missing: node_is_missing(node),
        has_error: node_has_error(node),
        parent: parent,
    }
}

/// A node's range lies in `0..text_len` and its position leaves room for
/// one more
pub open spec fn record_fits(r: NodeRecord, text_len: int) -> bool {
    r.3.0 <= r.3.1 <= text_len && r.3.2 < usize::MAX && r.3.3 < usize::MAX
}

pub open spec fn records_fit(rs: Seq<NodeRecord>, text_len: int) -> bool {
    forall|i: int| 0 <= i < rs.len() ==> record_fits(#[trigger] rs[i], text_len)
}

/// The nodes open after the first `i` of a pre-order walk: the last node
/// seen at each depth up to the latest one
pub open spec fn open_nodes(rs: Seq<NodeRecord>, i: int) -> Seq<usize>
    decreases i,
{
    if i <= 0 {
        Seq::empty()
    } else {
        let st = open_nodes(rs, i - 1);
        let d = rs[i - 1].5;
        let kept = if d < st.len() { st.take(d as int) } else { st };
        kept.push((i - 1) as usize)
    }
}

/// The parent of the `i`th node of a pre-order walk: the open node one
/// level up, if the walk has one there
pub open spec fn parent_in(rs: Seq<NodeRecord>, i: int) -> Option<usize> {
    let st = open_nodes(rs, i);
    let d = rs[i].5;
    let kept = if d < st.len() { st.take(d as int) } else { st };
    if d > 0 && kept.len() == d {
        Some(kept[d - 1])
    } else {
        None
    }
}

/// The children of `p` among the first `k` nodes, in order
pub open spec fn kids_upto(rs: Seq<NodeRecord>, p: int, k: int) -> Seq<usize>
    decreases k,
{
    if k <= 0 {
        Seq::empty()
    } else if parent_in(rs, k - 1) == Some(p as usize) {
        kids_upto(rs, p, k - 1).push((k - 1) as usize)
    } else {
        kids_upto(rs, p, k - 1)
    }
}

/// A plain node holds what the walk reported of it, and its parent
pub open spec fn node_copied(n: SyntaxNode, r: NodeRecord, parent: Option<usize>) -> bool {
    &&& n.kind@ == r.0
    &&& n.named == r.1
    &&& opt_string(n.field) == r.2
    &&& (n.start_byte, n.end_byte, n.row, n.column) == r.3
    &&& (n.is_error, n.is_missing, n.has_error) == r.4
    &&& n.parent == parent
}

/// A tree holds the walk's nodes in order, with parents and children as the
/// depths give them
pub open spec fn tree_copied(t: SyntaxTree, rs: Seq<NodeRecord>) -> bool {
    &&& t.nodes@.len() == rs.len()
    &&& t.children@.len() == rs.len()
    &&& forall|i: int| 0 <= i < rs.len() ==> node_copied(#[trigger] t.nodes@[i], rs[i], parent_in(rs, i))
    &&& forall|p: int| 0 <= p < rs.len() ==> (#[trigger] t.children@[p])@ == kids_upto(rs, p, rs.len() as int)
}

proof fn lemma_kids_none(rs: Seq<NodeRecord>, p: int, k: int)
    requires
        0 <= k <= p + 1,
        p <= usize::MAX,
        forall|j: int| 0 <= j < k ==> (#[trigger] parent_in(rs, j) matches Some(q) ==> q < j),
    ensures
        kids_upto(rs, p, k) == Seq::<usize>::empty(),
    decreases k,
{
    if k > 0 {
        lemma_kids_none(rs, p, k - 1);
        assert(parent_in(rs, k - 1) matches Some(q) ==> q < k - 1);
        assert(parent_in(rs, k - 1) != Some(p as usize));
    }
}

/// Copies the tree below `root` into plain nodes: `None` exactly when a
/// node's range falls outside `0..text_len` or its position is the largest
/// `usize`; otherwise the nodes in pre-order with their parents and children
#[verifier::rlimit(40)]
pub fn copy_tree(root: Node, text_len: usize) -> (r: Option<SyntaxTree>)
    ensures
        r is Some <==> records_fit(node_records(root), text_len as int),
        r matches Some(t) ==> tree_ok(&t, text_len as int) && t.nodes@.len() >= 1 && tree_copied(t, node_records(root)),
{
    let ghost rs = node_records(root);
    let count = descendant_count(root);
    let mut cursor = walk(root);
    let mut nodes: Vec<SyntaxNode> = Vec::new();
    let mut children: Vec<Vec<usize>> = Vec::new();
    let mut open: Vec<usize> = Vec::new();
    let mut i: usize = 0;
    while i < count
        invariant
            rs == node_records(root),
            count == rs.len(),
            count >= 1,
            cursor_records(cursor) == rs,
            nodes@.len() == i,
            children@.len() == i,
            i <= count,
            open@ == open_nodes(rs, i as int),
            forall|j: int| 0 <= j < open@.len() ==> #[trigger] open@[j] < i,
            forall|j: int| 0 <= j < i ==> (#[trigger] parent_in(rs, j) matches Some(q) ==> q < j),
            forall|a: int, k: int| 0 <= a < children@.len() && 0 <= k < children@[a]@.len()
                ==> a < #[trigger] children@[a]@[k] < i,
            forall|a: int| 0 <= a < nodes@.len() ==> (#[trigger] nodes@[a]).start_byte <= nodes@[a].end_byte
                <= text_len && nodes@[a].row < usize::MAX && nodes@[a].column < usize::MAX,
            forall|a: int| 0 <= a < i ==> record_fits(#[trigger] rs[a], text_len as int),
            forall|a: int| 0 <= a < i ==> node_copied(#[trigger] nodes@[a], rs[a], parent_in(rs, a)),
            forall|p: int| 0 <= p < i ==> (#[trigger] children@[p])@ == kids_upto(rs, p, i as int),
        decreases count - i,
    {
        goto_descendant(&mut cursor, i);
        let n = cursor_node(&cursor);
        let depth = cursor_depth(&cursor) as usize;
        let ghost st = open@;
        if depth < open.len() {
            open.truncate(depth);
        }
        assert(open@ == (if depth < st.len() { st.take(depth as int) } else { st }));
        let parent = if depth > 0 && open.len() == depth { Some(open[depth - 1]) } else { None };
        assert(parent == parent_in(rs, i as int));
        let field = cursor_field_name(&cursor);
        let node = node_of(n, field, parent);
        if !(node.start_byte <= node.end_byte && node.end_byte <= text_len && node.row < usize::MAX
            && node.column < usize::MAX) {
            assert(!record_fits(rs[i as int], text_len as int));
            assert(!records_fit(rs, text_len as int));
            return None;
        }
        let ghost before = children@;
        nodes.push(node);
        children.push(Vec::new());
        proof {
            lemma_kids_none(rs, i as int, i as int);
        }
        match parent {
            Some(p) => {
                let mut list = children[p].clone();
                assert(list@ =~= children@[p as int]@);
                list.push(i);
                let ghost mid = children@;
                children.set(p, list);
                assert forall|a: int, k: int| 0 <= a < children@.len() && 0 <= k < children@[a]@.len()
                    implies a < #[trigger] children@[a]@[k] < i + 1 by {
                    if a != p {
                        assert(children@[a] == mid[a]);
                    }
                }
            },
            None => {},
        }
        open.push(i);
        i = i + 1;
        assert forall|q: int| 0 <= q < i implies (#[trigger] children@[q])@ == kids_upto(rs, q, i as int) by {
            if q < i - 1 {
                if parent != Some(q as usize) {
                    assert(children@[q] == before[q]);
                }
            }
        }
    }
    if nodes.len() == 0 {
        return None;
    }
    let t = SyntaxTree { nodes: nodes, children: children };
    assert(tree_copied(t, rs));
    Some(t)
}

/// Why a text has no syntax tree
pub enum TreeError {
    /// The grammar was refused, with the reason given
    Language(String),
    /// Parsing failed, or the tree's positions are out of range
    Parse,
}

/// Parses `text` as SourcePawn: the tree of the text's bytes copied into
/// plain nodes, or `Parse` exactly when one of its node positions is out of
/// range. The bundled grammar is always accepted.
pub fn parse_tree(text: &str) -> (r: Result<SyntaxTree, TreeError>)
    ensures
        !(r is Err && r->Err_0 is Language),
        r is Ok <==> records_fit(sourcepawn_nodes(encode_utf8(text@)), text.len() as int),
        r matches Ok(t) ==> tree_ok(&t, text.len() as int) && t.nodes@.len() >= 1 && tree_copied(
            t,
            sourcepawn_nodes(encode_utf8(text@)),
        ),
{
    let language = sourcepawn_language();
    let mut parser = new_parser();
    match set_language(&mut parser, &language) {
        Ok(()) => {},
        Err(e) => return Err(TreeError::Language(e)),
    }
    let tree = match parse_text(&mut parser, text.as_bytes()) {
        Some(t) => t,
        None => return Err(TreeError::Parse),
    };
    let root = root_node(&tree);
    match copy_tree(root, text.len()) {
        Some(t) => Ok(t),
        None => Err(TreeError::Parse),
    }
}

} // verus!
