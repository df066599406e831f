//! Grammar selection, parsing into a tree, and flattening a tree into
//! highlight spans.
use vstd::prelude::*;
use crate::parser::{
    bind_grammar, node_child, node_child_count, node_is_named, node_kind, node_range, root_node,
    run_parser,
};

verus! {

broadcast use vstd::std_specs::vec::group_vec_axioms;

/// A zero-based, end-exclusive range of (row, column) positions.
#[derive(Debug, Clone, Copy, PartialEq, Eq, Structural)]
pub struct SerializableRange {
    pub start_row: usize,
    pub start_col: usize,
    pub end_row: usize,
    pub end_col: usize,
}

/// A range of the text and the grammar's name for the node that covers it.
#[derive(Debug, Clone)]
pub struct HighlightSpan {
    pub range: SerializableRange,
    pub highlight_type: String,
}

/// The languages that a grammar is available for.
#[derive(Debug, Clone, Copy, PartialEq, Eq, Structural)]
pub enum SupportedLanguage {
    CPP,
    CSharp,
    JavaScript,
    Python,
    Rust,
    TSX,
    TypeScript,
}

/// The language for a bare file extension, taken as written.
pub open spec fn language_for_extension(ext: Seq<char>) -> Option<SupportedLanguage> {
    if ext == seq!['c', 'p', 'p'] || ext == seq!['c', 'x', 'x'] || ext == seq!['c', 'c'] {
        Some(SupportedLanguage::CPP)
    } else if ext == seq!['c', 's'] {
        Some(SupportedLanguage::CSharp)
    } else if ext == seq!['j', 's'] {
        Some(SupportedLanguage::JavaScript)
    } else if ext == seq!['p', 'y'] {
        Some(SupportedLanguage::Python)
    } else if ext == seq!['r', 's'] {
        Some(SupportedLanguage::Rust)
    } else if ext == seq!['t', 's'] {
        Some(SupportedLanguage::TypeScript)
    } else if ext == seq!['t', 's', 'x'] {
        Some(SupportedLanguage::TSX)
    } else {
        None
    }
}

/// Whether `a` holds exactly the characters of `b`.
fn chars_equal(a: &Vec<char>, b: &[char]) -> (r: bool)
    ensures
        r == (a@ == b@),
{
    if a.len() != b.len() {
        return false;
    }
    let mut i: usize = 0;
    while i < a.len()
        invariant
            a@.len() == b@.len(),
            0 <= i <= a.len(),
            a@.take(i as int) == b@.take(i as int),
        decreases a.len() - i,
    {
        if a[i] != b[i] {
            return false;
        }
        proof {
            assert(a@.take(i + 1) =~= a@.take(i as int).push(a@[i as int]));
            assert(b@.take(i + 1) =~= b@.take(i as int).push(b@[i as int]));
        }
        i = i + 1;
    }
    proof {
        assert(a@.take(i as int) =~= a@);
        assert(b@.take(i as int) =~= b@);
    }
    true
}

/// The label shown for a language.
pub open spec fn display_name_of(l: SupportedLanguage) -> Seq<char> {
    match l {
        SupportedLanguage::CPP => "C++"@,
        SupportedLanguage::CSharp => "C#"@,
        SupportedLanguage::JavaScript => "JavaScript"@,
        SupportedLanguage::Python => "Python"@,
        SupportedLanguage::Rust => "Rust"@,
        SupportedLanguage::TypeScript => "TypeScript"@,
        SupportedLanguage::TSX => "TSX"@,
    }
}

impl SupportedLanguage {
    /// The human-readable label of the language.
    pub fn display_name(&self) -> (r: &'static str)
        ensures
            r@ == display_name_of(*self),
    {
        match self {
            SupportedLanguage::CPP => "C++",
            SupportedLanguage::CSharp => "C#",
            SupportedLanguage::JavaScript => "JavaScript",
            SupportedLanguage::Python => "Python",
            SupportedLanguage::Rust => "Rust",
            SupportedLanguage::TypeScript => "TypeScript",
            SupportedLanguage::TSX => "TSX",
        }
    }

    /// The grammar handle for the language.
    pub fn tree_sitter_language(&self) -> tree_sitter::Language {
        match self {
            SupportedLanguage::CPP => tree_sitter_cpp::language(),
            SupportedLanguage::CSharp => tree_sitter_c_sharp::language(),
            SupportedLanguage::JavaScript => tree_sitter_javascript::language(),
            SupportedLanguage::Python => tree_sitter_python::language(),
            SupportedLanguage::Rust => tree_sitter_rust::language(),
            SupportedLanguage::TypeScript => tree_sitter_typescript::language_typescript(),
            SupportedLanguage::TSX => tree_sitter_typescript::language_tsx(),
        }
    }

    /// The language for a bare file extension (`"rs"`, not `".rs"`); case
    /// matters, and an unknown extension gives `None`.
    pub fn from_extension(ext: &str) -> (r: Option<SupportedLanguage>)
        ensures
            r == language_for_extension(ext@),
    {
        let e = crate::rope::chars_of(ext);
        if chars_equal(&e, &['c', 'p', 'p']) || chars_equal(&e, &['c', 'x', 'x']) || chars_equal(
            &e,
            &['c', 'c'],
        ) {
            Some(SupportedLanguage::CPP)
        } else if chars_equal(&e, &['c', 's']) {
            Some(SupportedLanguage::CSharp)
        } else if chars_equal(&e, &['j', 's']) {
            Some(SupportedLanguage::JavaScript)
        } else if chars_equal(&e, &['p', 'y']) {
            Some(SupportedLanguage::Python)
        } else if chars_equal(&e, &['r', 's']) {
            Some(SupportedLanguage::Rust)
        } else if chars_equal(&e, &['t', 's']) {
            Some(SupportedLanguage::TypeScript)
        } else if chars_equal(&e, &['t', 's', 'x']) {
            Some(SupportedLanguage::TSX)
        } else {
            None
        }
    }
}

/// Why parsing gave no tree.
#[derive(Debug, Clone, Copy, PartialEq, Eq, Structural)]
pub enum SyntaxError {
    ParseFailed,
}

/// One node of a concrete syntax tree: the grammar's name for its kind,
/// whether the grammar names it (punctuation and keywords are anonymous), the
/// range it covers, and its children in order.
#[derive(Debug)]
pub struct SyntaxNode {
    pub kind: String,
    pub is_named: bool,
    pub range: SerializableRange,
    pub children: Vec<SyntaxNode>,
}

/// The tree of one parse of a whole text.
#[derive(Debug)]
pub struct SyntaxTree {
    pub root: SyntaxNode,
}

/// The span that a named node contributes.
pub open spec fn span_of(n: SyntaxNode) -> HighlightSpan {
    HighlightSpan { range: n.range, highlight_type: n.kind }
}

/// The spans of a subtree, depth first, each node before its children, named
/// nodes only.
pub open spec fn highlights_of(n: SyntaxNode) -> Seq<HighlightSpan>
    decreases n, n.children@.len() + 1,
{
    (if n.is_named {
        seq![span_of(n)]
    } else {
        Seq::empty()
    }) + children_highlights(n, 0)
}

/// The spans of the subtrees of `n`'s children from index `k` on, in order.
pub open spec fn children_highlights(n: SyntaxNode, k: int) -> Seq<HighlightSpan>
    decreases n, n.children@.len() - k,
{
    if 0 <= k < n.children@.len() {
        highlights_of(n.children@[k]) + children_highlights(n, k + 1)
    } else {
        Seq::empty()
    }
}

/// Position (`ar`, `ac`) comes no later than (`br`, `bc`), rows first.
pub open spec fn pos_le(ar: usize, ac: usize, br: usize, bc: usize) -> bool {
    ar < br || (ar == br && ac <= bc)
}

/// A range starts no later than it ends.
pub open spec fn range_ok(r: SerializableRange) -> bool {
    pos_le(r.start_row, r.start_col, r.end_row, r.end_col)
}

/// `inner` lies within `outer`.
pub open spec fn range_within(inner: SerializableRange, outer: SerializableRange) -> bool {
    pos_le(outer.start_row, outer.start_col, inner.start_row, inner.start_col) && pos_le(
        inner.end_row,
        inner.end_col,
        outer.end_row,
        outer.end_col,
    )
}

/// `a` ends no later than `b` starts.
pub open spec fn range_before(a: SerializableRange, b: SerializableRange) -> bool {
    pos_le(a.end_row, a.end_col, b.start_row, b.start_col)
}

/// A well-formed syntax tree: every range starts no later than it ends, each
/// child lies within its parent, and each child ends no later than the next
/// one starts.
pub open spec fn wf_node(n: SyntaxNode) -> bool
    decreases n,
{
    &&& range_ok(n.range)
    &&& forall|i: int| 0 <= i < n.children@.len() ==> range_within(#[trigger] n.children@[i].range, n.range)
    &&& forall|i: int|
        0 <= i < n.children@.len() - 1 ==> range_before(#[trigger] n.children@[i].range, n.children@[i + 1].range)
    &&& forall|i: int| 0 <= i < n.children@.len() ==> wf_node(#[trigger] n.children@[i])
}

/// Spans that nest: of any two, the later one lies within the earlier one
/// or starts after it ends; and each starts no later than it ends.
pub open spec fn spans_nested(h: Seq<HighlightSpan>) -> bool {
    &&& forall|j: int| 0 <= j < h.len() ==> range_ok(#[trigger] h[j].range)
    &&& forall|j: int, k: int|
        0 <= j < k < h.len() ==> range_within(#[trigger] h[k].range, #[trigger] h[j].range)
            || range_before(h[j].range, h[k].range)
}

/// The spans of a tree's nodes from child `k` of `n` on lie within `n`, start
/// no earlier than that child, and nest.
proof fn lemma_children_nested(n: SyntaxNode, k: int)
    requires
        wf_node(n),
        0 <= k,
    ensures
        spans_nested(children_highlights(n, k)),
        forall|j: int|
            0 <= j < children_highlights(n, k).len() ==> range_within(
                #[trigger] children_highlights(n, k)[j].range,
                n.range,
            ),
        k < n.children@.len() ==> forall|j: int|
            0 <= j < children_highlights(n, k).len() ==> pos_le(
                n.children@[k].range.start_row,
                n.children@[k].range.start_col,
                #[trigger] children_highlights(n, k)[j].range.start_row,
                children_highlights(n, k)[j].range.start_col,
            ),
    decreases n, n.children@.len() - k,
{
    if k < n.children@.len() {
        let c = n.children@[k];
        assert(decreases_to!(n => n.children));
        assert(decreases_to!(n.children => n.children[k]));
        law_highlights_nested(c);
        lemma_children_nested(n, k + 1);
        let a = highlights_of(c);
        let b = children_highlights(n, k + 1);
        let h = children_highlights(n, k);
        assert(h == a + b);
        assert(wf_node(c));
        assert(range_ok(c.range));
        if k + 1 >= n.children@.len() {
            assert(b =~= Seq::<HighlightSpan>::empty());
        }
        assert(range_within(c.range, n.range));
        assert forall|j: int| 0 <= j < h.len() implies range_within(#[trigger] h[j].range, n.range) by {
            if j < a.len() {
                assert(h[j] == a[j]);
            } else {
                assert(h[j] == b[j - a.len()]);
            }
        }
        assert forall|j: int|
            0 <= j < h.len() implies pos_le(
            c.range.start_row,
            c.range.start_col,
            #[trigger] h[j].range.start_row,
            h[j].range.start_col,
        ) by {
            if j < a.len() {
                assert(h[j] == a[j]);
                assert(range_within(a[j].range, c.range));
            } else {
                assert(h[j] == b[j - a.len()]);
                let d = n.children@[k + 1];
                assert(range_before(c.range, d.range));
                assert(range_ok(c.range));
            }
        }
        assert forall|j: int, i: int|
            0 <= j < i < h.len() implies range_within(#[trigger] h[i].range, #[trigger] h[j].range)
            || range_before(h[j].range, h[i].range) by {
            if i < a.len() {
                assert(h[i] == a[i] && h[j] == a[j]);
            } else if j >= a.len() {
                assert(h[i] == b[i - a.len()] && h[j] == b[j - a.len()]);
            } else {
                assert(h[j] == a[j] && h[i] == b[i - a.len()]);
                let d = n.children@[k + 1];
                assert(range_within(a[j].range, c.range));
                assert(range_before(c.range, d.range));
                assert(pos_le(
                    d.range.start_row,
                    d.range.start_col,
                    b[i - a.len()].range.start_row,
                    b[i - a.len()].range.start_col,
                ));
            }
        }
        assert forall|j: int| 0 <= j < h.len() implies range_ok(#[trigger] h[j].range) by {
            if j < a.len() {
                assert(h[j] == a[j]);
            } else {
                assert(h[j] == b[j - a.len()]);
            }
        }
    } else {
        assert(children_highlights(n, k) =~= Seq::<HighlightSpan>::empty());
    }
}

/// On a well-formed tree the pre-order spans nest: an enclosing node's span
/// comes before the spans below it and covers them, a span that comes later
/// and does not lie within an earlier one starts after that one ends, so
/// starts never decrease along the list; every span lies within the root.
pub proof fn law_highlights_nested(n: SyntaxNode)
    requires
        wf_node(n),
    ensures
        spans_nested(highlights_of(n)),
        forall|j: int| 0 <= j < highlights_of(n).len() ==> range_within(#[trigger] highlights_of(n)[j].range, n.range),
        forall|j: int, k: int|
            0 <= j < k < highlights_of(n).len() ==> pos_le(
                #[trigger] highlights_of(n)[j].range.start_row,
                highlights_of(n)[j].range.start_col,
                #[trigger] highlights_of(n)[k].range.start_row,
                highlights_of(n)[k].range.start_col,
            ),
        n.is_named ==> highlights_of(n)[0] == span_of(n),
    decreases n, n.children@.len() + 1,
{
    lemma_children_nested(n, 0);
    let own = if n.is_named {
        seq![span_of(n)]
    } else {
        Seq::<HighlightSpan>::empty()
    };
    let b = children_highlights(n, 0);
    let h = highlights_of(n);
    assert(h == own + b);
    assert forall|j: int| 0 <= j < h.len() implies range_within(#[trigger] h[j].range, n.range) && range_ok(h[j].range) by {
        if j < own.len() {
            assert(h[j] == span_of(n));
        } else {
            assert(h[j] == b[j - own.len()]);
        }
    }
    assert forall|j: int, i: int|
        0 <= j < i < h.len() implies range_within(#[trigger] h[i].range, #[trigger] h[j].range)
        || range_before(h[j].range, h[i].range) by {
        if j < own.len() {
            assert(h[j] == span_of(n));
            assert(h[i] == b[i - own.len()]);
        } else {
            assert(h[i] == b[i - own.len()] && h[j] == b[j - own.len()]);
        }
    }
    assert forall|j: int, k: int|
        0 <= j < k < h.len() implies pos_le(
        #[trigger] h[j].range.start_row,
        h[j].range.start_col,
        #[trigger] h[k].range.start_row,
        h[k].range.start_col,
    ) by {
        assert(range_within(h[k].range, h[j].range) || range_before(h[j].range, h[k].range));
        assert(range_ok(h[j].range));
    }
}

/// Appends the spans of the subtree at `n` to `out`.
fn collect_highlights(n: &SyntaxNode, out: &mut Vec<HighlightSpan>)
    ensures
        final(out)@ == old(out)@ + highlights_of(*n),
    decreases n,
{
    if n.is_named {
        out.push(HighlightSpan { range: n.range, highlight_type: n.kind.clone() });
    }
    let ghost start = out@;
    let mut i: usize = 0;
    proof {
        assert(start == old(out)@ + (if n.is_named {
            seq![span_of(*n)]
        } else {
            Seq::empty()
        }));
    }
    while i < n.children.len()
        invariant
            i <= n.children@.len(),
            out@ + children_highlights(*n, i as int) == start + children_highlights(*n, 0),
        decreases n.children@.len() - i,
    {
        let ghost before = out@;
        proof {
            assert(decreases_to!(n.children => n.children[i as int]));
        }
        collect_highlights(&n.children[i], out);
        proof {
            assert(children_highlights(*n, i as int) == highlights_of(n.children@[i as int])
                + children_highlights(*n, i + 1));
            assert(out@ + children_highlights(*n, i + 1) =~= before + children_highlights(
                *n,
                i as int,
            ));
        }
        i = i + 1;
    }
    proof {
        assert(children_highlights(*n, i as int) == Seq::<HighlightSpan>::empty());
        assert(out@ =~= old(out)@ + highlights_of(*n));
    }
}

/// The highlight spans of a tree, in pre-order.
pub fn highlights_from_tree(tree: &SyntaxTree) -> (r: Vec<HighlightSpan>)
    ensures
        r@ == highlights_of(tree.root),
{
    let mut out: Vec<HighlightSpan> = Vec::new();
    collect_highlights(&tree.root, &mut out);
    proof {
        assert(out@ =~= highlights_of(tree.root));
    }
    out
}

/// The spans of a parse result: those of the tree, or none when parsing failed.
pub fn highlights_or_empty(parsed: &Result<SyntaxTree, SyntaxError>) -> (r: Vec<HighlightSpan>)
    ensures
        match parsed {
            Ok(t) => r@ == highlights_of(t.root),
            Err(_) => r@.len() == 0,
        },
{
    match parsed {
        Ok(t) => highlights_from_tree(t),
        Err(_) => Vec::new(),
    }
}

/// The library's copy of a tree-sitter node and its subtree, down to `depth`
/// levels below it; `depth` is what the recursion counts down, and a tree
/// held in memory cannot be as deep as the `usize::MAX` that callers pass.
fn model_node(node: &tree_sitter::Node, depth: usize) -> (r: SyntaxNode)
    decreases depth,
{
    let mut children: Vec<SyntaxNode> = Vec::new();
    if depth > 0 {
        let count = node_child_count(node);
        let mut i: usize = 0;
        while i < count
            invariant
                depth > 0,
            decreases count - i,
        {
            match node_child(node, i) {
                Some(c) => children.push(model_node(&c, depth - 1)),
                None => {},
            }
            i = i + 1;
        }
    }
    SyntaxNode {
        kind: node_kind(node),
        is_named: node_is_named(node),
        range: node_range(node),
        children,
    }
}

/// A parser bound to the grammar of one language.
pub struct SyntaxEngine {
    parser: tree_sitter::Parser,
    language: SupportedLanguage,
}

impl SyntaxEngine {
    /// The language the engine was built for.
    pub closed spec fn language(&self) -> SupportedLanguage {
        self.language
    }

    /// An engine for `language`. The grammar table is fixed; should the
    /// parsing library ever refuse a grammar, the parser stays unbound and
    /// every parse reports `ParseFailed`.
    pub fn new(language: SupportedLanguage) -> (r: SyntaxEngine)
        ensures
            r.language() == language,
    {
        let mut parser = tree_sitter::Parser::new();
        let _bound = bind_grammar(&mut parser, language.tree_sitter_language());
        SyntaxEngine { parser, language }
    }

    /// A full, fresh parse of `source`. Text with syntax errors still gives a
    /// tree (holding error nodes); `ParseFailed` means no tree at all.
    pub fn parse(&mut self, source: &str) -> (r: Result<SyntaxTree, SyntaxError>)
        ensures
            final(self).language() == old(self).language(),
            r matches Err(e) ==> e == SyntaxError::ParseFailed,
    {
        match run_parser(&mut self.parser, source) {
            Some(tree) => {
                let root = root_node(&tree);
                Ok(SyntaxTree { root: model_node(&root, usize::MAX) })
            },
            None => Err(SyntaxError::ParseFailed),
        }
    }

    /// The language the engine was built for.
    pub fn current_language(&self) -> (r: &SupportedLanguage)
        ensures
            *r == self.language(),
    {
        &self.language
    }

    /// The highlight spans of a fresh parse of `source`, in pre-order; none
    /// when parsing gives no tree.
    pub fn extract_highlights(&mut self, source: &str) -> (r: Vec<HighlightSpan>)
        ensures
            final(self).language() == old(self).language(),
    {
        let parsed = self.parse(source);
        highlights_or_empty(&parsed)
    }

    /// The highlight spans of a tree, in pre-order: each named node before the
    /// nodes below it.
    pub fn extract_highlights_from_tree(tree: &SyntaxTree) -> (r: Vec<HighlightSpan>)
        ensures
            r@ == highlights_of(tree.root),
            wf_node(tree.root) ==> spans_nested(r@),
    {
        proof {
            if wf_node(tree.root) {
                law_highlights_nested(tree.root);
            }
        }
        highlights_from_tree(tree)
    }
}

} // verus!
