//! What the inline grammar's trees add to an extraction: emphasis, formulas, code, links, images.

use crate::document::{
    alone_on_its_lines, alone_on_line, node_rows, node_text, row_at, Document,
};
use crate::extraction::{
    all_fit, lemma_opened_stack, push_range, with_block, with_hidden, with_inline, Extraction, Marks,
};
use crate::markers::{
    BlockLook, BlockMark, BlockMarker, BlockRenderKind, InlineKind, InlineLook, MathStyle,
};
use crate::syntax::{
    find_child, first_child, nodes_of, push_children, sizes, NodeKind, SyntaxNode,
};
use crate::text::{
    ends_with_class, find_char_back, find_run_end, found, has_prefix, index_at, is_whitespace,
    last_index_of_char, lemma_byte_offset_grows, option_view, run_end, starts_with,
    starts_with_class, string_of, to_chars, trim, trimmed, CharClass,
};
use vstd::prelude::*;

verus! {

/// The first node of a kind from index `i` on.
pub open spec fn first_index(nodes: Seq<SyntaxNode>, kind: NodeKind, i: int) -> Option<int>
    decreases nodes.len() - i,
{
    if i < 0 || i >= nodes.len() {
        None
    } else if nodes[i].kind == kind {
        Some(i)
    } else {
        first_index(nodes, kind, i + 1)
    }
}

/// The last node of a kind among the first `count`.
pub open spec fn last_index(nodes: Seq<SyntaxNode>, kind: NodeKind, count: int) -> Option<int>
    decreases count,
{
    if count <= 0 {
        None
    } else if nodes[count - 1].kind == kind {
        Some(count - 1)
    } else {
        last_index(nodes, kind, count - 1)
    }
}

fn index_of_first(node: &SyntaxNode, kind: NodeKind) -> (result: Option<usize>)
    ensures
        found(result) == first_index(node.children@, kind, 0),
        result matches Some(at) ==> at < node.children@.len(),
{
    let mut i: usize = 0;
    while i < node.children.len()
        invariant
            i <= node.children@.len(),
            first_index(node.children@, kind, 0) == first_index(node.children@, kind, i as int),
        decreases node.children@.len() - i,
    {
        if node.children[i].kind == kind {
            return Some(i);
        }
        i += 1;
    }
    None
}

fn index_of_last(node: &SyntaxNode, kind: NodeKind) -> (result: Option<usize>)
    ensures
        found(result) == last_index(node.children@, kind, node.children@.len() as int),
        result matches Some(at) ==> at < node.children@.len(),
{
    let mut count: usize = node.children.len();
    while count > 0
        invariant
            count <= node.children@.len(),
            last_index(node.children@, kind, node.children@.len() as int) == last_index(
                node.children@,
                kind,
                count as int,
            ),
        decreases count,
    {
        if node.children[count - 1].kind == kind {
            return Some(count - 1);
        }
        count -= 1;
    }
    None
}

/// The delimiters among the first `count` nodes, hidden until the selection touches the construct.
pub open spec fn with_delimiters(
    m: Marks,
    nodes: Seq<SyntaxNode>,
    kind: NodeKind,
    reveal: (int, int),
    count: int,
) -> Marks
    decreases count,
{
    if count <= 0 {
        m
    } else {
        let before = with_delimiters(m, nodes, kind, reveal, count - 1);
        if nodes[count - 1].kind == kind {
            with_hidden(before, nodes[count - 1].bytes(), reveal)
        } else {
            before
        }
    }
}

// ---------------------------------------------------------------------------------------------
// Formulas
// ---------------------------------------------------------------------------------------------

/// The LaTeX between the first and the last delimiter of a formula, with whether it is display
/// math. There is none where the formula is not closed, holds only white space, or is inline math
/// that does not sit tight between its delimiters.
pub open spec fn formula_of(s: Seq<char>, node: SyntaxNode) -> Option<(Seq<char>, bool)> {
    let nodes = node.children@;
    let kind = NodeKind::LatexSpanDelimiter;
    match (first_index(nodes, kind, 0), last_index(nodes, kind, nodes.len() as int)) {
        (Some(open), Some(close)) => {
            let source = s.subrange(
                index_at(s, nodes[open].end as int),
                index_at(s, nodes[close].start as int),
            );
            let display = nodes[open].end - nodes[open].start >= 2;
            if open >= close || nodes[open].end > nodes[close].start || trim(source).len() == 0 {
                None
            } else if !display && (starts_with_class(source, CharClass::Whitespace)
                || ends_with_class(source, CharClass::Whitespace)) {
                None
            } else {
                Some((source, display))
            }
        },
        _ => None,
    }
}

/// What a formula adds: a block where it is display math alone on its lines, else an inline
/// marker.
pub open spec fn with_formula(s: Seq<char>, m: Marks, node: SyntaxNode) -> Marks {
    match formula_of(s, node) {
        Some((source, display)) => {
            let rows = node_rows(s, node);
            if display && alone_on_its_lines(s, node) {
                with_block(
                    s,
                    m,
                    rows,
                    if rows.1 - rows.0 + 1 < 2 {
                        2
                    } else {
                        rows.1 - rows.0 + 1
                    },
                    BlockLook::Math { source },
                )
            } else {
                with_inline(m, node.bytes(), InlineLook::Math { source, style: MathStyle::Inline })
            }
        },
        None => m,
    }
}

fn read_formula(document: &Document, node: &SyntaxNode) -> (result: Option<(String, bool)>)
    requires
        document.wf(),
        node.fits(document@),
    ensures
        match result {
            Some((source, display)) => formula_of(document@, *node) == Some((source@, display)),
            None => formula_of(document@, *node) is None,
        },
{
    let (open, close) = match (
        index_of_first(node, NodeKind::LatexSpanDelimiter),
        index_of_last(node, NodeKind::LatexSpanDelimiter),
    ) {
        (Some(open), Some(close)) => (open, close),
        _ => {
            return None;
        },
    };
    if open >= close {
        return None;
    }
    assert(node.children@[open as int].fits(document@));
    assert(node.children@[close as int].fits(document@));
    let open = &node.children[open];
    let close = &node.children[close];
    if open.end > close.start {
        return None;
    }
    let start = document.index(open.end);
    let end = document.index(close.start);
    proof {
        if end < start {
            lemma_byte_offset_grows(document@, end as int, start as int);
        }
    }
    let source = document.text().part(start, end);
    if trimmed(source).len() == 0 {
        return None;
    }
    let display = open.end - open.start >= 2;
    if !display && (is_whitespace(source[0]) || is_whitespace(source[source.len() - 1])) {
        return None;
    }
    Some((string_of(source), display))
}

// ---------------------------------------------------------------------------------------------
// Images
// ---------------------------------------------------------------------------------------------

/// The width that a size asks for: the digits it starts with, where they are not all zero.
pub open spec fn width_digits(size: Seq<char>) -> Option<Seq<char>> {
    let digits = size.take(run_end(size, CharClass::Digit, 0));
    if exists|i: int| 0 <= i < digits.len() && #[trigger] digits[i] != '0' {
        Some(digits)
    } else {
        None
    }
}

pub(crate) fn read_width(size: &[char]) -> (result: Option<String>)
    ensures
        option_view(result) == width_digits(size@),
{
    let end = find_run_end(size, CharClass::Digit, 0);
    let digits = &size[0..end];
    assert(digits@ =~= size@.take(end as int));
    let mut i: usize = 0;
    while i < digits.len()
        invariant
            i <= digits@.len(),
            digits@ == size@.take(run_end(size@, CharClass::Digit, 0)),
            forall|k: int| 0 <= k < i ==> #[trigger] digits@[k] == '0',
        decreases digits@.len() - i,
    {
        if digits[i] != '0' {
            assert(digits@[i as int] != '0');
            return Some(string_of(digits));
        }
        i += 1;
    }
    None
}

/// The alt text of an image.
pub open spec fn image_alt(s: Seq<char>, node: SyntaxNode) -> Option<Seq<char>> {
    match first_child(node.children@, NodeKind::ImageDescription, 0) {
        Some(description) => Some(node_text(s, description)),
        None => None,
    }
}

/// How an image shows: what stands behind the last pipe of its alt text is its size, what stands
/// before it its alt text.
pub open spec fn image_look(s: Seq<char>, node: SyntaxNode) -> BlockLook {
    let destination = match first_child(node.children@, NodeKind::LinkDestination, 0) {
        Some(destination) => Some(node_text(s, destination)),
        None => None,
    };
    match image_alt(s, node) {
        Some(alt) => match find_char_back(alt, '|', alt.len() as int) {
            Some(at) => BlockLook::Image {
                display_width: width_digits(alt.skip(at + 1)),
                destination,
                alt: alt.take(at),
            },
            None => BlockLook::Image { display_width: None, destination, alt },
        },
        None => BlockLook::Image { display_width: None, destination, alt: Seq::empty() },
    }
}

fn image_kind(document: &Document, node: &SyntaxNode) -> (result: BlockRenderKind)
    requires
        document.wf(),
        node.fits(document@),
    ensures
        result@ == image_look(document@, *node),
{
    let destination = match find_child(node, NodeKind::LinkDestination) {
        Some(child) => {
            assert(child.fits(document@));
            Some(string_of(document.chars_of(child)))
        },
        None => None,
    };
    match find_child(node, NodeKind::ImageDescription) {
        Some(child) => {
            assert(child.fits(document@));
            let alt = document.chars_of(child);
            match last_index_of_char(alt, '|', alt.len()) {
                Some(at) => {
                    let size = &alt[at + 1..alt.len()];
                    assert(size@ =~= alt@.skip(at + 1));
                    let base = &alt[0..at];
                    assert(base@ =~= alt@.take(at as int));
                    BlockRenderKind::Image {
                        display_width: read_width(size),
                        destination,
                        alt: string_of(base),
                    }
                },
                None => BlockRenderKind::Image {
                    display_width: None,
                    destination,
                    alt: string_of(alt),
                },
            }
        },
        None => BlockRenderKind::Image { display_width: None, destination, alt: String::new() },
    }
}

/// The image that a link wraps: its first child that is one, or that is link text with one in it.
pub open spec fn wrapped_image(nodes: Seq<SyntaxNode>, i: int) -> Option<SyntaxNode>
    decreases nodes.len() - i,
{
    if i < 0 || i >= nodes.len() {
        None
    } else if nodes[i].kind == NodeKind::Image {
        Some(nodes[i])
    } else if nodes[i].kind == NodeKind::LinkText && first_child(
        nodes[i].children@,
        NodeKind::Image,
        0,
    ) is Some {
        first_child(nodes[i].children@, NodeKind::Image, 0)
    } else {
        wrapped_image(nodes, i + 1)
    }
}

fn find_wrapped_image<'a>(document: &Document, node: &'a SyntaxNode) -> (result: Option<
    &'a SyntaxNode,
>)
    requires
        node.fits(document@),
    ensures
        match result {
            Some(image) => wrapped_image(node.children@, 0) == Some(*image) && image.fits(
                document@,
            ),
            None => wrapped_image(node.children@, 0) is None,
        },
{
    let mut i: usize = 0;
    while i < node.children.len()
        invariant
            node.fits(document@),
            i <= node.children@.len(),
            wrapped_image(node.children@, 0) == wrapped_image(node.children@, i as int),
        decreases node.children@.len() - i,
    {
        let child = &node.children[i];
        assert(node.children@[i as int].fits(document@));
        if child.kind == NodeKind::Image {
            return Some(child);
        }
        if child.kind == NodeKind::LinkText {
            match find_child(child, NodeKind::Image) {
                Some(image) => {
                    return Some(image);
                },
                None => {},
            }
        }
        i += 1;
    }
    None
}

// ---------------------------------------------------------------------------------------------
// Links
// ---------------------------------------------------------------------------------------------

/// The brackets of a link, hidden, and its text.
pub open spec fn with_link(s: Seq<char>, m: Marks, node: SyntaxNode) -> Marks {
    let nodes = node.children@;
    let open = first_index(nodes, NodeKind::OpenBracket, 0);
    let close = last_index(nodes, NodeKind::CloseBracket, nodes.len() as int);
    let opened = match open {
        Some(open) => with_hidden(m, nodes[open].bytes(), node.bytes()),
        None => m,
    };
    let closed = match close {
        Some(close) => with_hidden(
            opened,
            (nodes[close].start as int, node.end as int),
            node.bytes(),
        ),
        None => opened,
    };
    let texted = match (open, close) {
        (Some(open), Some(close)) => if nodes[open].end < nodes[close].start {
            Marks {
                link_text: closed.link_text.push(
                    (nodes[open].end as int, nodes[close].start as int),
                ),
                ..closed
            }
        } else {
            closed
        },
        _ => closed,
    };
    match wrapped_image(nodes, 0) {
        Some(image) => if alone_on_line(s, node) {
            Marks {
                blocks: texted.blocks.push(
                    BlockMark {
                        range: image.bytes(),
                        height_estimate: 8,
                        look: image_look(s, image),
                        indent_columns: 0,
                    },
                ),
                ..texted
            }
        } else {
            texted
        },
        None => texted,
    }
}

/// What an image adds: a block where it is alone on its line, else its syntax hidden round its alt
/// text. An embed is none.
pub open spec fn with_image(s: Seq<char>, m: Marks, node: SyntaxNode) -> Marks {
    if starts_with(node_text(s, node), "![["@) {
        m
    } else if alone_on_line(s, node) {
        let row = row_at(s, node.start as int);
        with_block(s, m, (row, row), 8, image_look(s, node))
    } else {
        match first_child(node.children@, NodeKind::ImageDescription, 0) {
            Some(description) => with_hidden(
                with_hidden(m, (node.start as int, description.start as int), node.bytes()),
                (description.end as int, node.end as int),
                node.bytes(),
            ),
            None => m,
        }
    }
}

/// The angle brackets of an autolink, hidden.
pub open spec fn with_autolink(m: Marks, node: SyntaxNode) -> Marks {
    if node.end - node.start >= 2 {
        with_hidden(
            with_hidden(m, (node.start as int, node.start + 1), node.bytes()),
            (node.end - 1, node.end as int),
            node.bytes(),
        )
    } else {
        m
    }
}

/// A text that is emphasized in some way: the list its kind belongs to.
pub open spec fn with_emphasis(m: Marks, node: SyntaxNode) -> Marks {
    let listed = match node.kind {
        NodeKind::Strikethrough => Marks {
            strikethrough: m.strikethrough.push(node.bytes()),
            ..m
        },
        NodeKind::Emphasis => Marks { italic: m.italic.push(node.bytes()), ..m },
        _ => Marks { bold: m.bold.push(node.bytes()), ..m },
    };
    with_delimiters(
        listed,
        node.children@,
        NodeKind::EmphasisDelimiter,
        node.bytes(),
        node.children@.len() as int,
    )
}

// ---------------------------------------------------------------------------------------------
// The walk
// ---------------------------------------------------------------------------------------------

/// What one node of the inline grammar's tree adds.
pub open spec fn visit_inline(s: Seq<char>, node: SyntaxNode, m: Marks) -> Marks {
    match node.kind {
        NodeKind::Emphasis | NodeKind::StrongEmphasis | NodeKind::Strikethrough => with_emphasis(
            m,
            node,
        ),
        NodeKind::LatexBlock => with_formula(s, m, node),
        NodeKind::CodeSpan => with_delimiters(
            Marks { code_spans: m.code_spans.push(node.bytes()), ..m },
            node.children@,
            NodeKind::CodeSpanDelimiter,
            node.bytes(),
            node.children@.len() as int,
        ),
        NodeKind::InlineLink
        | NodeKind::FullReferenceLink
        | NodeKind::CollapsedReferenceLink => with_link(s, m, node),
        NodeKind::UriAutolink | NodeKind::EmailAutolink => with_autolink(m, node),
        NodeKind::Image => with_image(s, m, node),
        _ => m,
    }
}

/// Whether the walk of the inline grammar's tree goes on below a node of this kind.
pub open spec fn descends_inline(kind: NodeKind) -> bool {
    match kind {
        NodeKind::LatexBlock
        | NodeKind::CodeSpan
        | NodeKind::UriAutolink
        | NodeKind::EmailAutolink
        | NodeKind::Image => false,
        _ => true,
    }
}

/// What a tree of the inline grammar adds: each node before those below it, in order.
pub open spec fn walk_inline(s: Seq<char>, node: SyntaxNode, m: Marks) -> Marks
    decreases node,
{
    let visited = visit_inline(s, node, m);
    if descends_inline(node.kind) {
        walk_inlines(s, node.children@, visited)
    } else {
        visited
    }
}

/// What several trees of the inline grammar add, one behind the other.
pub open spec fn walk_inlines(s: Seq<char>, nodes: Seq<SyntaxNode>, m: Marks) -> Marks
    decreases nodes,
{
    if nodes.len() == 0 {
        m
    } else {
        walk_inline(s, nodes.last(), walk_inlines(s, nodes.drop_last(), m))
    }
}

/// What a stack of trees of the inline grammar adds, its top first.
spec fn walk_inline_stack(s: Seq<char>, stack: Seq<SyntaxNode>, m: Marks) -> Marks
    decreases stack.len(),
{
    if stack.len() == 0 {
        m
    } else {
        walk_inline_stack(s, stack.drop_last(), walk_inline(s, stack.last(), m))
    }
}

proof fn lemma_inline_stack(s: Seq<char>, stack: Seq<SyntaxNode>, nodes: Seq<SyntaxNode>, m: Marks)
    ensures
        walk_inline_stack(s, stack + nodes.reverse(), m) == walk_inline_stack(
            s,
            stack,
            walk_inlines(s, nodes, m),
        ),
    decreases nodes.len(),
{
    if nodes.len() == 0 {
        assert(stack + nodes.reverse() =~= stack);
    } else {
        let front = nodes.drop_last();
        let deeper = stack.push(nodes.last());
        assert(stack + nodes.reverse() =~= deeper + front.reverse());
        lemma_inline_stack(s, deeper, front, m);
        assert(deeper.drop_last() =~= stack);
    }
}

impl Extraction {
    fn conceal_delimiters(&mut self, node: &SyntaxNode, kind: NodeKind)
        ensures
            final(self)@ == with_delimiters(
                old(self)@,
                node.children@,
                kind,
                node.bytes(),
                node.children@.len() as int,
            ),
    {
        let mut i: usize = 0;
        while i < node.children.len()
            invariant
                i <= node.children@.len(),
                self@ == with_delimiters(
                    old(self)@,
                    node.children@,
                    kind,
                    node.bytes(),
                    i as int,
                ),
            decreases node.children@.len() - i,
        {
            let child = &node.children[i];
            if child.kind == kind {
                self.conceal(child.start..child.end, node.start..node.end);
            }
            i += 1;
        }
    }

    /// Adds a formula: a block where it is display math alone on its lines, else an inline marker
    /// that spans its delimiters too.
    pub fn latex(&mut self, document: &Document, node: &SyntaxNode)
        requires
            document.wf(),
            node.fits(document@),
        ensures
            final(self)@ == with_formula(document@, old(self)@, *node),
    {
        match read_formula(document, node) {
            Some((source, display)) => {
                if display && document.node_is_alone_on_its_lines(node) {
                    let (start_row, end_row) = document.node_rows(node);
                    let rows: u32 = end_row - start_row + 1;
                    let height: u32 = if rows < 2 {
                        2
                    } else {
                        rows
                    };
                    self.push_block_rows(
                        document,
                        start_row,
                        end_row,
                        height,
                        BlockRenderKind::Math { source },
                    );
                } else {
                    self.push_inline(
                        node.start..node.end,
                        InlineKind::Math { source, style: MathStyle::Inline },
                    );
                }
            },
            None => {},
        }
    }

    fn link(&mut self, document: &Document, node: &SyntaxNode)
        requires
            document.wf(),
            node.fits(document@),
        ensures
            final(self)@ == with_link(document@, old(self)@, *node),
    {
        let open = index_of_first(node, NodeKind::OpenBracket);
        let close = index_of_last(node, NodeKind::CloseBracket);
        match open {
            Some(open) => {
                let open = &node.children[open];
                self.conceal(open.start..open.end, node.start..node.end);
            },
            None => {},
        }
        match close {
            Some(close) => {
                let close = &node.children[close];
                self.conceal(close.start..node.end, node.start..node.end);
            },
            None => {},
        }
        let ghost closed = self@;
        match (open, close) {
            (Some(open), Some(close)) => {
                let open = &node.children[open];
                let close = &node.children[close];
                if open.end < close.start {
                    push_range(&mut self.link_text, open.end, close.start);
                    assert(self@ =~= (Marks {
                        link_text: closed.link_text.push((open.end as int, close.start as int)),
                        ..closed
                    }));
                }
            },
            _ => {},
        }
        match find_wrapped_image(document, node) {
            Some(image) => {
                if document.is_alone_on_line(node) {
                    let kind = image_kind(document, image);
                    self.push_block(
                        BlockMarker {
                            range: image.start..image.end,
                            height_estimate: 8,
                            kind,
                            indent_columns: 0,
                        },
                    );
                }
            },
            None => {},
        }
    }

    fn image(&mut self, document: &Document, node: &SyntaxNode)
        requires
            document.wf(),
            node.fits(document@),
        ensures
            final(self)@ == with_image(document@, old(self)@, *node),
    {
        if has_prefix(document.chars_of(node), to_chars("![[").as_slice()) {
            return;
        }
        if document.is_alone_on_line(node) {
            self.image_block(document, node);
        } else {
            match find_child(node, NodeKind::ImageDescription) {
                Some(description) => {
                    self.conceal(node.start..description.start, node.start..node.end);
                    self.conceal(description.end..node.end, node.start..node.end);
                },
                None => {},
            }
        }
    }

    /// Adds an image as a block where it is all there is on its line.
    pub fn image_block(&mut self, document: &Document, node: &SyntaxNode)
        requires
            document.wf(),
            node.fits(document@),
        ensures
            final(self)@ == (if alone_on_line(document@, *node) {
                let row = row_at(document@, node.start as int);
                with_block(document@, old(self)@, (row, row), 8, image_look(document@, *node))
            } else {
                old(self)@
            }),
    {
        if document.is_alone_on_line(node) {
            let row = document.row_of(node.start);
            let kind = image_kind(document, node);
            self.push_block_rows(document, row, row, 8, kind);
        }
    }

    fn visit_inline(&mut self, document: &Document, node: &SyntaxNode) -> (descend: bool)
        requires
            document.wf(),
            node.fits(document@),
        ensures
            final(self)@ == visit_inline(document@, *node, old(self)@),
            descend == descends_inline(node.kind),
    {
        match node.kind {
            NodeKind::Emphasis => {
                push_range(&mut self.italic, node.start, node.end);
                assert(self@ =~= (Marks {
                    italic: old(self)@.italic.push(node.bytes()),
                    ..old(self)@
                }));
                self.conceal_delimiters(node, NodeKind::EmphasisDelimiter);
                true
            },
            NodeKind::StrongEmphasis => {
                push_range(&mut self.bold, node.start, node.end);
                assert(self@ =~= (Marks {
                    bold: old(self)@.bold.push(node.bytes()),
                    ..old(self)@
                }));
                self.conceal_delimiters(node, NodeKind::EmphasisDelimiter);
                true
            },
            NodeKind::Strikethrough => {
                push_range(&mut self.strikethrough, node.start, node.end);
                assert(self@ =~= (Marks {
                    strikethrough: old(self)@.strikethrough.push(node.bytes()),
                    ..old(self)@
                }));
                self.conceal_delimiters(node, NodeKind::EmphasisDelimiter);
                true
            },
            NodeKind::LatexBlock => {
                self.latex(document, node);
                false
            },
            NodeKind::CodeSpan => {
                push_range(&mut self.code_spans, node.start, node.end);
                assert(self@ =~= (Marks {
                    code_spans: old(self)@.code_spans.push(node.bytes()),
                    ..old(self)@
                }));
                self.conceal_delimiters(node, NodeKind::CodeSpanDelimiter);
                false
            },
            NodeKind::InlineLink
            | NodeKind::FullReferenceLink
            | NodeKind::CollapsedReferenceLink => {
                self.link(document, node);
                true
            },
            NodeKind::UriAutolink | NodeKind::EmailAutolink => {
                if node.end - node.start >= 2 {
                    self.conceal(node.start..node.start + 1, node.start..node.end);
                    self.conceal(node.end - 1..node.end, node.start..node.end);
                }
                false
            },
            NodeKind::Image => {
                self.image(document, node);
                false
            },
            _ => true,
        }
    }

    /// Adds what a tree of the inline grammar holds.
    pub fn walk_inline_layer(&mut self, document: &Document, root: &SyntaxNode)
        requires
            document.wf(),
            root.fits(document@),
        ensures
            final(self)@ == walk_inline(document@, *root, old(self)@),
    {
        let ghost s = document@;
        let ghost goal = walk_inline(s, *root, self@);
        let mut stack: Vec<&SyntaxNode> = Vec::new();
        stack.push(root);
        proof {
            reveal_with_fuel(walk_inline_stack, 2);
            assert(nodes_of(stack@).drop_last() =~= Seq::empty());
        }
        while stack.len() > 0
            invariant
                document.wf(),
                s == document@,
                all_fit(nodes_of(stack@), s),
                walk_inline_stack(s, nodes_of(stack@), self@) == goal,
            decreases sizes(nodes_of(stack@)),
        {
            let ghost before = nodes_of(stack@);
            proof {
                lemma_opened_stack(before, s);
                assert(before[before.len() - 1].fits(s));
            }
            let node = match stack.pop() {
                Some(node) => node,
                None => {
                    return;
                },
            };
            assert(nodes_of(stack@) =~= before.drop_last());
            assert(*node == before.last());
            if self.visit_inline(document, node) {
                push_children(node, &mut stack);
                proof {
                    lemma_inline_stack(s, before.drop_last(), node.children@, self@);
                }
            }
        }
    }
}

} // verus!
