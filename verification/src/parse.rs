use tree_sitter::Node as TsNode;
use vstd::prelude::*;

use crate::source::SourceText;
use crate::tree::{NodeData, Root};

verus! {

#[verifier::external_type_specification]
#[verifier::external_body]
pub struct ExParser(tree_sitter::Parser);

#[verifier::external_type_specification]
#[verifier::external_body]
pub struct ExTree(tree_sitter::Tree);

#[verifier::external_type_specification]
#[verifier::external_body]
pub struct ExTsNode<'a>(TsNode<'a>);

/// Relies on tree_sitter::Parser::new for a fresh parser.
#[verifier::external_body]
fn parser_new() -> tree_sitter::Parser {
    tree_sitter::Parser::new()
}

/// Relies on tree_sitter::Parser::set_language with the JavaScript grammar;
/// true exactly when the grammar was accepted.
#[verifier::external_body]
fn parser_set_js(p: &mut tree_sitter::Parser) -> (r: bool) {
    p.set_language(&tree_sitter_javascript::LANGUAGE.into()).is_ok()
}

/// Relies on tree_sitter::Parser::parse: a parse tree over the given text,
/// or nothing when the parser refuses to run.
#[verifier::external_body]
fn parser_parse(p: &mut tree_sitter::Parser, text: &str) -> (r: Option<tree_sitter::Tree>) {
    p.parse(text, None)
}

/// Relies on tree_sitter::Tree::root_node.
#[verifier::external_body]
fn ts_root<'t>(t: &'t tree_sitter::Tree) -> (r: TsNode<'t>) {
    t.root_node()
}

/// Relies on tree_sitter::Node::kind: the grammar symbol of the node.
#[verifier::external_body]
fn ts_kind<'t>(n: &TsNode<'t>) -> (r: &'t str) {
    n.kind()
}

/// Relies on tree_sitter::Node::kind_id: the numeric grammar symbol.
#[verifier::external_body]
fn ts_kind_id(n: &TsNode<'_>) -> (r: u16) {
    n.kind_id()
}

/// Relies on tree_sitter::Node::start_byte.
#[verifier::external_body]
fn ts_start_byte(n: &TsNode<'_>) -> (r: usize) {
    n.start_byte()
}

/// Relies on tree_sitter::Node::end_byte.
#[verifier::external_body]
fn ts_end_byte(n: &TsNode<'_>) -> (r: usize) {
    n.end_byte()
}

/// Relies on tree_sitter::Node::child_count, which reports a 32-bit count.
#[verifier::external_body]
fn ts_child_count(n: &TsNode<'_>) -> (r: usize)
    ensures
        r <= 0xffff_ffffusize,
{
    n.child_count() as usize
}

/// Relies on tree_sitter::Node::child: the i-th child when there is one.
#[verifier::external_body]
fn ts_child<'t>(n: &TsNode<'t>, i: usize) -> (r: Option<TsNode<'t>>)
    requires
        i <= 0xffff_ffffusize,
{
    n.child(i as u32)
}

/// Relies on tree_sitter::Node::has_error: true when the subtree contains
/// a syntax error.
#[verifier::external_body]
fn ts_has_error(n: &TsNode<'_>) -> (r: bool) {
    n.has_error()
}

/// One flattened parse-tree entry, before child lists are derived.
struct RawNode {
    kind: String,
    kind_id: u16,
    start: usize,
    end: usize,
    parent: Option<usize>,
}

/// Flattens a parse tree into preorder: every node is listed before its
/// descendants and siblings are visited in source order, so a node's index
/// is always larger than its parent's.
fn walk_tree(root: TsNode<'_>) -> (r: Option<Vec<RawNode>>) {
    let mut raw: Vec<RawNode> = Vec::new();
    let mut stack: Vec<(TsNode<'_>, Option<usize>)> = Vec::new();
    let mut fuel: u64 = 0xffff_ffff_ffffu64;
    stack.push((root, None));
    while stack.len() > 0
        decreases fuel,
    {
        if fuel == 0 {
            return None;
        }
        fuel = fuel - 1;
        let (node, parent) = match stack.pop() {
            Some(top) => top,
            None => {
                return None;
            },
        };
        let idx = raw.len();
        let kind = ts_kind(&node).to_owned();
        raw.push(
            RawNode {
                kind,
                kind_id: ts_kind_id(&node),
                start: ts_start_byte(&node),
                end: ts_end_byte(&node),
                parent,
            },
        );
        let count = ts_child_count(&node);
        let mut k = count;
        while k > 0
            invariant
                k <= count <= 0xffff_ffffusize,
            decreases k,
        {
            k = k - 1;
            match ts_child(&node, k) {
                Some(ch) => stack.push((ch, Some(idx))),
                None => {
                    return None;
                },
            }
        }
    }
    Some(raw)
}

/// Derives each node's child list from the parent links: the children of
/// node `i` are exactly the later entries that name `i` as their parent,
/// in ascending index order.
fn assemble(raw: &Vec<RawNode>) -> (r: Vec<NodeData>) {
    let n = raw.len();
    let mut nodes: Vec<NodeData> = Vec::new();
    let mut i: usize = 0;
    while i < n
        invariant
            n == raw@.len(),
            i <= n,
        decreases n - i,
    {
        let mut children: Vec<usize> = Vec::new();
        let mut j = i + 1;
        while j < n
            invariant
                n == raw@.len(),
                i < j || j == i + 1,
                j <= n,
            decreases n - j,
        {
            let is_child = match raw[j].parent {
                Some(p) => p == i,
                None => false,
            };
            if is_child {
                children.push(j);
            }
            j += 1;
        }
        nodes.push(
            NodeData {
                kind: raw[i].kind.clone(),
                kind_id: raw[i].kind_id,
                start: raw[i].start,
                end: raw[i].end,
                parent: raw[i].parent,
                children,
            },
        );
        i += 1;
    }
    nodes
}

/// Parses program text with the JavaScript grammar and lifts the parse tree
/// into a validated arena. `reject_errors` refuses trees with syntax errors.
pub(crate) fn parse_root(text: &str, reject_errors: bool) -> (r: Option<Root>)
    ensures
        r is Some ==> r->Some_0.wf() && r->Some_0.src.text@ == text@,
{
    let mut parser = parser_new();
    if !parser_set_js(&mut parser) {
        return None;
    }
    let tree = match parser_parse(&mut parser, text) {
        Some(t) => t,
        None => {
            return None;
        },
    };
    let tsroot = ts_root(&tree);
    if reject_errors && ts_has_error(&tsroot) {
        return None;
    }
    let raw = match walk_tree(tsroot) {
        Some(v) => v,
        None => {
            return None;
        },
    };
    let nodes = assemble(&raw);
    let src = SourceText::new(text);
    Root::from_parts(src, nodes)
}

impl Root {
    /// Parses program text into a tree rooted in its own `SourceText`.
    /// Nothing is returned when the parser refuses the text or hands back
    /// a tree whose shape breaks the arena invariant.
    pub fn new(text: &str) -> (r: Option<Root>)
        ensures
            r is Some ==> r->Some_0.wf() && r->Some_0.src.text@ == text@,
    {
        parse_root(text, false)
    }
}

} // verus!
