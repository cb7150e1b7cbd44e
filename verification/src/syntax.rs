//! Syntax trees of TypeScript and JavaScript sources as plain values: the
//! nodes in document order with their nesting depth, and the text they span.
use vstd::prelude::*;
use vstd::utf8::{decode_utf8, is_char_boundary, valid_utf8};
use vstd::string::StringSliceAdditionalSpecFns;

verus! {

/// The grammar a source is parsed with.
#[derive(Clone, Copy, Debug, PartialEq, Eq, Structural)]
pub enum Grammar {
    TypeScript,
    Tsx,
    JavaScript,
}

/// One node of a syntax tree. Nodes are listed in document order (a parent
/// before its children); `depth` is the nesting level, 0 for the root, and
/// `field` the name under which the node sits in its parent, if any.
/// `is_named` tells named nodes from anonymous ones (punctuation, keywords).
/// Positions are byte offsets into the source and 0-based rows and columns.
#[derive(Clone, Debug)]
pub struct SyntaxNode {
    pub kind: String,
    pub field: Option<String>,
    pub depth: usize,
    pub is_error: bool,
    pub is_missing: bool,
    pub is_named: bool,
    pub start_byte: usize,
    pub end_byte: usize,
    pub start_row: usize,
    pub start_column: usize,
    pub end_row: usize,
}

#[verifier::external_type_specification]
#[verifier::external_body]
pub struct ExTree(tree_sitter::Tree);

/// A node as plain values: kind, field, depth, the error, missing and named
/// flags, start and end byte, start row and column, end row.
pub type NodeView = (Seq<char>, Option<Seq<char>>, usize, bool, bool, bool, usize, usize, usize, usize, usize);

impl DeepView for SyntaxNode {
    type V = NodeView;

    open spec fn deep_view(&self) -> NodeView {
        (
            self.kind@,
            match self.field {
                Some(f) => Some(f@),
                None => None,
            },
            self.depth,
            self.is_error,
            self.is_missing,
            self.is_named,
            self.start_byte,
            self.end_byte,
            self.start_row,
            self.start_column,
            self.end_row,
        )
    }
}

/// What tree-sitter makes of `source` with `grammar`: the nodes of the
/// syntax tree in document order as plain values, or `None` when the
/// grammar could not be loaded or parsing gave up.
pub uninterp spec fn syntax_of(source: Seq<char>, grammar: Grammar) -> Option<Seq<NodeView>>;

/// The plain values of some nodes.
pub open spec fn node_views(nodes: Seq<SyntaxNode>) -> Seq<NodeView> {
    nodes.map_values(|n: SyntaxNode| n.deep_view())
}

/// The nodes of an optional vector, as a sequence.
pub open spec fn nodes_seq(nodes: Option<Vec<SyntaxNode>>) -> Option<Seq<SyntaxNode>> {
    match nodes {
        Some(v) => Some(v@),
        None => None,
    }
}

/// Whether `parsed` is what the parser gives for `source` with `grammar`:
/// `None` where it gives nothing, otherwise nodes with its plain values.
pub open spec fn parsed_from(parsed: Option<Seq<SyntaxNode>>, source: Seq<char>, grammar: Grammar) -> bool {
    match parsed {
        Some(nodes) => syntax_of(source, grammar) == Some(node_views(nodes)),
        None => syntax_of(source, grammar) is None,
    }
}

/// A syntax tree with the source text and grammar it was parsed from. Only
/// [`parse_tree`] makes one, and nothing changes its fields afterwards.
struct ParsedSource {
    tree: tree_sitter::Tree,
    source: String,
    grammar: Grammar,
}

/// `tree_sitter::Parser::parse` with the grammar set: the syntax tree of
/// `source` (kept with the source and grammar), or `None` when the grammar
/// could not be loaded or parsing gave up, which is when `syntax_of` has
/// no nodes. The parse runs without timeout or cancellation, so its outcome
/// depends on the source and the grammar alone.
#[verifier::external_body]
fn parse_tree(source: &str, grammar: Grammar) -> (r: Option<ParsedSource>)
    ensures
        (r is Some) == (syntax_of(source@, grammar) is Some),
        r matches Some(p) ==> p.source@ == source@ && p.grammar == grammar,
{
    let language: tree_sitter::Language = match grammar {
        Grammar::TypeScript => tree_sitter_typescript::LANGUAGE_TYPESCRIPT.into(),
        Grammar::Tsx => tree_sitter_typescript::LANGUAGE_TSX.into(),
        Grammar::JavaScript => tree_sitter_javascript::LANGUAGE.into(),
    };
    let mut parser = tree_sitter::Parser::new();
    parser.set_language(&language).ok()?;
    let tree = parser.parse(source, None)?;
    Some(ParsedSource { tree, source: source.to_string(), grammar })
}

/// The depths of a walk in document order from the root: the root comes
/// first at depth 0, every later node lies below it, and each node is at
/// most one level deeper than the node before it (its first child), on the
/// same level (its next sibling) or higher up (the next sibling of an
/// ancestor).
pub open spec fn preorder_depths(nodes: Seq<SyntaxNode>) -> bool {
    &&& nodes.len() >= 1
    &&& nodes[0].depth == 0
    &&& forall|i: int| 1 <= i < nodes.len() ==> #[trigger] nodes[i].depth >= 1
    &&& forall|i: int, j: int|
        0 <= i && j == i + 1 && j < nodes.len() ==> #[trigger] nodes[j].depth <= #[trigger] nodes[i].depth
            + 1
}

/// The nodes of a parsed tree in document order, read with a
/// `tree_sitter::TreeCursor` that visits the root, then each node's
/// children before its next sibling: the nodes that `syntax_of` names for
/// the source and grammar the tree was parsed from. Of their shape it is
/// also claimed what the cursor's documentation gives (`depth` is 0 at the
/// root where the cursor starts, `goto_first_child` goes one level down,
/// `goto_next_sibling` stays on the level, `goto_parent` goes one up and
/// fails at the root, where the walk ends).
#[verifier::external_body]
fn tree_nodes(parsed: &ParsedSource) -> (nodes: Vec<SyntaxNode>)
    ensures
        syntax_of(parsed.source@, parsed.grammar) == Some(node_views(nodes@)),
        preorder_depths(nodes@),
{
    let mut cursor = parsed.tree.walk();
    let mut nodes = Vec::new();
    loop {
        let (node, start, end) = (cursor.node(), cursor.node().start_position(), cursor.node().end_position());
        nodes.push(SyntaxNode { kind: node.kind().into(), field: cursor.field_name().map(String::from), depth: cursor.depth() as usize, is_error: node.is_error(), is_missing: node.is_missing(), is_named: node.is_named(), start_byte: node.start_byte(), end_byte: node.end_byte(), start_row: start.row, start_column: start.column, end_row: end.row });
        if cursor.goto_first_child() { continue; }
        while !cursor.goto_next_sibling() { if !cursor.goto_parent() { return nodes; } }
    }
}

/// The nodes of `source` parsed with `grammar`, in document order from the
/// root, or `None` when parsing failed: exactly what `syntax_of` names.
pub fn parse_syntax(source: &str, grammar: Grammar) -> (nodes: Option<Vec<SyntaxNode>>)
    ensures
        parsed_from(nodes_seq(nodes), source@, grammar),
        nodes matches Some(v) ==> preorder_depths(v@),
{
    match parse_tree(source, grammar) {
        Some(parsed) => Some(tree_nodes(&parsed)),
        None => None,
    }
}

/// The first index after `i` whose node is not inside node `i`.
pub open spec fn subtree_end(nodes: Seq<SyntaxNode>, i: int, from: int) -> int
    decreases nodes.len() - from,
{
    if from < 0 || from >= nodes.len() {
        nodes.len() as int
    } else if nodes[from].depth <= nodes[i].depth {
        from
    } else {
        subtree_end(nodes, i, from + 1)
    }
}

/// The first child of node `i`, from index `from` on, that sits in field
/// `field` (`Node::child_by_field_name`).
pub open spec fn field_child_from(nodes: Seq<SyntaxNode>, i: int, field: Seq<char>, from: int) -> Option<int>
    decreases nodes.len() - from,
{
    if from <= i || from >= nodes.len() || nodes[from].depth <= nodes[i].depth {
        None
    } else if nodes[from].depth == nodes[i].depth + 1 && nodes[from].field is Some
        && nodes[from].field.unwrap()@ == field {
        Some(from)
    } else {
        field_child_from(nodes, i, field, from + 1)
    }
}

pub open spec fn field_child(nodes: Seq<SyntaxNode>, i: int, field: Seq<char>) -> Option<int> {
    field_child_from(nodes, i, field, i + 1)
}

proof fn lemma_field_child_bound(nodes: Seq<SyntaxNode>, i: int, field: Seq<char>, from: int)
    ensures
        field_child_from(nodes, i, field, from) matches Some(c) ==> i < from <= c < nodes.len(),
    decreases nodes.len() - from,
{
    if !(from <= i || from >= nodes.len() || nodes[from].depth <= nodes[i].depth) {
        lemma_field_child_bound(nodes, i, field, from + 1);
    }
}

fn is_field(node: &SyntaxNode, field: &str) -> (b: bool)
    ensures
        b == (node.field is Some && node.field.unwrap()@ == field@),
{
    match &node.field {
        Some(f) => {
            let owned = field.to_owned();
            *f == owned
        },
        None => false,
    }
}

/// The child of node `i` in field `field`.
pub fn child_by_field(nodes: &Vec<SyntaxNode>, i: usize, field: &str) -> (r: Option<usize>)
    requires
        i < nodes@.len(),
    ensures
        match r {
            Some(c) => field_child(nodes@, i as int, field@) == Some(c as int) && i < c < nodes@.len(),
            None => field_child(nodes@, i as int, field@) is None,
        },
{
    let n = nodes.len();
    let mut j = i + 1;
    proof {
        lemma_field_child_bound(nodes@, i as int, field@, i + 1);
    }
    while j < nodes.len() && nodes[j].depth > nodes[i].depth
        invariant
            i < j <= nodes@.len(),
            field_child(nodes@, i as int, field@) == field_child_from(nodes@, i as int, field@, j as int),
        decreases nodes@.len() - j,
    {
        if nodes[j].depth == nodes[i].depth + 1 && is_field(&nodes[j], field) {
            return Some(j);
        }
        j = j + 1;
    }
    None
}

/// The children of node `i` from index `from` on, in order: the nodes one
/// level deeper before the end of its subtree; only the named ones when
/// `named_only` (`Node::named_children`).
pub open spec fn kids_from(nodes: Seq<SyntaxNode>, i: int, from: int, named_only: bool) -> Seq<int>
    decreases nodes.len() - from,
{
    if from <= i || from >= nodes.len() || nodes[from].depth <= nodes[i].depth {
        Seq::empty()
    } else if nodes[from].depth == nodes[i].depth + 1 && (!named_only || nodes[from].is_named) {
        seq![from] + kids_from(nodes, i, from + 1, named_only)
    } else {
        kids_from(nodes, i, from + 1, named_only)
    }
}

/// The children of node `i` (`Node::children`, or `Node::named_children`
/// when `named_only`).
pub open spec fn kids(nodes: Seq<SyntaxNode>, i: int, named_only: bool) -> Seq<int> {
    kids_from(nodes, i, i + 1, named_only)
}

/// The child indices of node `i`, in order.
pub fn children_of(nodes: &Vec<SyntaxNode>, i: usize, named_only: bool) -> (r: Vec<usize>)
    requires
        i < nodes@.len(),
    ensures
        r@.map_values(|j: usize| j as int) == kids(nodes@, i as int, named_only),
        forall|k: int| 0 <= k < r@.len() ==> i < #[trigger] r@[k] < nodes@.len(),
{
    let mut r: Vec<usize> = Vec::new();
    let n = nodes.len();
    let mut j = i + 1;
    while j < nodes.len() && nodes[j].depth > nodes[i].depth
        invariant
            i < j <= nodes@.len(),
            kids(nodes@, i as int, named_only) == r@.map_values(|x: usize| x as int) + kids_from(nodes@, i as int, j as int, named_only),
            forall|k: int| 0 <= k < r@.len() ==> i < #[trigger] r@[k] < j,
        decreases nodes@.len() - j,
    {
        if nodes[j].depth - 1 == nodes[i].depth && (!named_only || nodes[j].is_named) {
            r.push(j);
            assert(r@.map_values(|x: usize| x as int) =~= r@.drop_last().map_values(|x: usize| x as int).push(j as int));
        }
        j = j + 1;
    }
    assert(r@.map_values(|x: usize| x as int) + kids_from(nodes@, i as int, j as int, named_only) =~= r@.map_values(|x: usize| x as int));
    r
}

/// The characters of the bytes `start..end` of a UTF-8 text, when that range
/// lies inside the text and starts and ends on character boundaries.
pub open spec fn slice_text(bytes: Seq<u8>, start: int, end: int) -> Option<Seq<char>> {
    if 0 <= start <= end <= bytes.len() && is_char_boundary(bytes, start) && is_char_boundary(bytes, end) {
        Some(decode_utf8(bytes.subrange(start, end)))
    } else {
        None
    }
}

proof fn lemma_boundary_in_suffix(bytes: Seq<u8>, start: int, k: int)
    requires
        valid_utf8(bytes),
        0 <= start <= bytes.len(),
        is_char_boundary(bytes, start),
        0 <= k <= bytes.len() - start,
        is_char_boundary(bytes, start + k),
    ensures
        valid_utf8(bytes.subrange(start, bytes.len() as int)),
        is_char_boundary(bytes.subrange(start, bytes.len() as int), k),
{
    let sub = bytes.subrange(start, bytes.len() as int);
    vstd::utf8::valid_utf8_split(bytes, start);
    vstd::utf8::is_char_boundary_start_end_of_seq(sub);
    if k < sub.len() {
        vstd::utf8::is_char_boundary_iff_not_is_continuation_byte(sub, k);
        vstd::utf8::is_char_boundary_iff_not_is_continuation_byte(bytes, start + k);
        assert(sub[k] == bytes[start + k]);
    } else {
        assert(k == sub.len());
    }
}

/// The text of the bytes `start..end` of `source`, when that range lies inside
/// it on character boundaries.
pub fn text_slice(source: &str, start: usize, end: usize) -> (r: Option<&str>)
    ensures
        r is Some <==> slice_text(source.spec_bytes(), start as int, end as int) is Some,
        r matches Some(t) ==> slice_text(source.spec_bytes(), start as int, end as int) == Some(t@),
{
    let len = source.as_bytes().len();
    if !(start <= end && end <= len) {
        return None;
    }
    if !source.is_char_boundary(start) || !source.is_char_boundary(end) {
        return None;
    }
    let ghost bytes = source.spec_bytes();
    proof {
        vstd::utf8::encode_utf8_valid_utf8(source@);
        lemma_boundary_in_suffix(bytes, start as int, (end - start) as int);
    }
    let (_, tail) = source.split_at(start);
    let (piece, _) = tail.split_at(end - start);
    proof {
        assert(piece.spec_bytes() =~= bytes.subrange(start as int, end as int));
        vstd::utf8::encode_utf8_decode_utf8(piece@);
    }
    Some(piece)
}

/// The text a node spans (`Node::utf8_text`), or nothing when its range
/// does not lie on character boundaries of the source.
pub open spec fn text_of(nodes: Seq<SyntaxNode>, bytes: Seq<u8>, i: int) -> Seq<char> {
    match slice_text(bytes, nodes[i].start_byte as int, nodes[i].end_byte as int) {
        Some(t) => t,
        None => Seq::empty(),
    }
}

/// The text of node `i` of `source`.
pub fn node_text<'a>(nodes: &Vec<SyntaxNode>, i: usize, source: &'a str) -> (r: &'a str)
    requires
        i < nodes@.len(),
    ensures
        r@ == text_of(nodes@, source.spec_bytes(), i as int),
{
    match text_slice(source, nodes[i].start_byte, nodes[i].end_byte) {
        Some(t) => t,
        None => {
            proof {
                reveal_strlit("");
            }
            ""
        },
    }
}

/// Node `i` is of kind `kind`.
pub fn kind_is(nodes: &Vec<SyntaxNode>, i: usize, kind: &str) -> (b: bool)
    requires
        i < nodes@.len(),
    ensures
        b == (nodes@[i as int].kind@ == kind@),
{
    let owned = kind.to_owned();
    nodes[i].kind == owned
}

} // verus!
