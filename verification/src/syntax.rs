//! Syntax trees of markdown, as the block grammar and the inline grammar make them.

use crate::text::{index_at, is_boundary, to_chars, spells};
use vstd::prelude::*;

verus! {

/// The kinds of nodes that the live preview looks at.
#[derive(Clone, Copy, Debug, PartialEq, Eq, Structural)]
pub enum NodeKind {
    AtxHeading,
    SetextHeading,
    ThematicBreak,
    PipeTable,
    FencedCodeBlock,
    MinusMetadata,
    PlusMetadata,
    HtmlBlock,
    BlockQuote,
    LinkReferenceDefinition,
    ListItem,
    Inline,
    AtxH1Marker,
    AtxH2Marker,
    AtxH3Marker,
    AtxH4Marker,
    AtxH5Marker,
    AtxH6Marker,
    ListMarkerMinus,
    ListMarkerPlus,
    ListMarkerStar,
    ListMarkerDot,
    ListMarkerParenthesis,
    TaskListMarkerChecked,
    TaskListMarkerUnchecked,
    Emphasis,
    StrongEmphasis,
    Strikethrough,
    EmphasisDelimiter,
    LatexBlock,
    LatexSpanDelimiter,
    CodeSpan,
    CodeSpanDelimiter,
    InlineLink,
    FullReferenceLink,
    CollapsedReferenceLink,
    OpenBracket,
    CloseBracket,
    Image,
    LinkText,
    UriAutolink,
    EmailAutolink,
    ImageDescription,
    LinkDestination,
    /// Any other kind.
    Other,
}

/// The kind that a grammar names so.
pub open spec fn kind_named(name: Seq<char>) -> NodeKind {
    if name == "atx_heading"@ {
        NodeKind::AtxHeading
    } else if name == "setext_heading"@ {
        NodeKind::SetextHeading
    } else if name == "thematic_break"@ {
        NodeKind::ThematicBreak
    } else if name == "pipe_table"@ {
        NodeKind::PipeTable
    } else if name == "fenced_code_block"@ {
        NodeKind::FencedCodeBlock
    } else if name == "minus_metadata"@ {
        NodeKind::MinusMetadata
    } else if name == "plus_metadata"@ {
        NodeKind::PlusMetadata
    } else if name == "html_block"@ {
        NodeKind::HtmlBlock
    } else if name == "block_quote"@ {
        NodeKind::BlockQuote
    } else if name == "link_reference_definition"@ {
        NodeKind::LinkReferenceDefinition
    } else if name == "list_item"@ {
        NodeKind::ListItem
    } else if name == "inline"@ {
        NodeKind::Inline
    } else if name == "atx_h1_marker"@ {
        NodeKind::AtxH1Marker
    } else if name == "atx_h2_marker"@ {
        NodeKind::AtxH2Marker
    } else if name == "atx_h3_marker"@ {
        NodeKind::AtxH3Marker
    } else if name == "atx_h4_marker"@ {
        NodeKind::AtxH4Marker
    } else if name == "atx_h5_marker"@ {
        NodeKind::AtxH5Marker
    } else if name == "atx_h6_marker"@ {
        NodeKind::AtxH6Marker
    } else if name == "list_marker_minus"@ {
        NodeKind::ListMarkerMinus
    } else if name == "list_marker_plus"@ {
        NodeKind::ListMarkerPlus
    } else if name == "list_marker_star"@ {
        NodeKind::ListMarkerStar
    } else if name == "list_marker_dot"@ {
        NodeKind::ListMarkerDot
    } else if name == "list_marker_parenthesis"@ {
        NodeKind::ListMarkerParenthesis
    } else if name == "task_list_marker_checked"@ {
        NodeKind::TaskListMarkerChecked
    } else if name == "task_list_marker_unchecked"@ {
        NodeKind::TaskListMarkerUnchecked
    } else if name == "emphasis"@ {
        NodeKind::Emphasis
    } else if name == "strong_emphasis"@ {
        NodeKind::StrongEmphasis
    } else if name == "strikethrough"@ {
        NodeKind::Strikethrough
    } else if name == "emphasis_delimiter"@ {
        NodeKind::EmphasisDelimiter
    } else if name == "latex_block"@ {
        NodeKind::LatexBlock
    } else if name == "latex_span_delimiter"@ {
        NodeKind::LatexSpanDelimiter
    } else if name == "code_span"@ {
        NodeKind::CodeSpan
    } else if name == "code_span_delimiter"@ {
        NodeKind::CodeSpanDelimiter
    } else if name == "inline_link"@ {
        NodeKind::InlineLink
    } else if name == "full_reference_link"@ {
        NodeKind::FullReferenceLink
    } else if name == "collapsed_reference_link"@ {
        NodeKind::CollapsedReferenceLink
    } else if name == "["@ {
        NodeKind::OpenBracket
    } else if name == "]"@ {
        NodeKind::CloseBracket
    } else if name == "image"@ {
        NodeKind::Image
    } else if name == "link_text"@ {
        NodeKind::LinkText
    } else if name == "uri_autolink"@ {
        NodeKind::UriAutolink
    } else if name == "email_autolink"@ {
        NodeKind::EmailAutolink
    } else if name == "image_description"@ {
        NodeKind::ImageDescription
    } else if name == "link_destination"@ {
        NodeKind::LinkDestination
    } else {
        NodeKind::Other
    }
}

impl NodeKind {
    /// The kind that a grammar names so.
    pub fn from_name(name: &str) -> (result: NodeKind)
        ensures
            result == kind_named(name@),
    {
        let name = to_chars(name);
        let name = name.as_slice();
        if spells(name, "atx_heading") {
            NodeKind::AtxHeading
        } else if spells(name, "setext_heading") {
            NodeKind::SetextHeading
        } else if spells(name, "thematic_break") {
            NodeKind::ThematicBreak
        } else if spells(name, "pipe_table") {
            NodeKind::PipeTable
        } else if spells(name, "fenced_code_block") {
            NodeKind::FencedCodeBlock
        } else if spells(name, "minus_metadata") {
            NodeKind::MinusMetadata
        } else if spells(name, "plus_metadata") {
            NodeKind::PlusMetadata
        } else if spells(name, "html_block") {
            NodeKind::HtmlBlock
        } else if spells(name, "block_quote") {
            NodeKind::BlockQuote
        } else if spells(name, "link_reference_definition") {
            NodeKind::LinkReferenceDefinition
        } else if spells(name, "list_item") {
            NodeKind::ListItem
        } else if spells(name, "inline") {
            NodeKind::Inline
        } else if spells(name, "atx_h1_marker") {
            NodeKind::AtxH1Marker
        } else if spells(name, "atx_h2_marker") {
            NodeKind::AtxH2Marker
        } else if spells(name, "atx_h3_marker") {
            NodeKind::AtxH3Marker
        } else if spells(name, "atx_h4_marker") {
            NodeKind::AtxH4Marker
        } else if spells(name, "atx_h5_marker") {
            NodeKind::AtxH5Marker
        } else if spells(name, "atx_h6_marker") {
            NodeKind::AtxH6Marker
        } else if spells(name, "list_marker_minus") {
            NodeKind::ListMarkerMinus
        } else if spells(name, "list_marker_plus") {
            NodeKind::ListMarkerPlus
        } else if spells(name, "list_marker_star") {
            NodeKind::ListMarkerStar
        } else if spells(name, "list_marker_dot") {
            NodeKind::ListMarkerDot
        } else if spells(name, "list_marker_parenthesis") {
            NodeKind::ListMarkerParenthesis
        } else if spells(name, "task_list_marker_checked") {
            NodeKind::TaskListMarkerChecked
        } else if spells(name, "task_list_marker_unchecked") {
            NodeKind::TaskListMarkerUnchecked
        } else if spells(name, "emphasis") {
            NodeKind::Emphasis
        } else if spells(name, "strong_emphasis") {
            NodeKind::StrongEmphasis
        } else if spells(name, "strikethrough") {
            NodeKind::Strikethrough
        } else if spells(name, "emphasis_delimiter") {
            NodeKind::EmphasisDelimiter
        } else if spells(name, "latex_block") {
            NodeKind::LatexBlock
        } else if spells(name, "latex_span_delimiter") {
            NodeKind::LatexSpanDelimiter
        } else if spells(name, "code_span") {
            NodeKind::CodeSpan
        } else if spells(name, "code_span_delimiter") {
            NodeKind::CodeSpanDelimiter
        } else if spells(name, "inline_link") {
            NodeKind::InlineLink
        } else if spells(name, "full_reference_link") {
            NodeKind::FullReferenceLink
        } else if spells(name, "collapsed_reference_link") {
            NodeKind::CollapsedReferenceLink
        } else if spells(name, "[") {
            NodeKind::OpenBracket
        } else if spells(name, "]") {
            NodeKind::CloseBracket
        } else if spells(name, "image") {
            NodeKind::Image
        } else if spells(name, "link_text") {
            NodeKind::LinkText
        } else if spells(name, "uri_autolink") {
            NodeKind::UriAutolink
        } else if spells(name, "email_autolink") {
            NodeKind::EmailAutolink
        } else if spells(name, "image_description") {
            NodeKind::ImageDescription
        } else if spells(name, "link_destination") {
            NodeKind::LinkDestination
        } else {
            NodeKind::Other
        }
    }
}

/// A node: its kind, the byte range of the text it spans, and its children in order.
#[derive(Debug)]
pub struct SyntaxNode {
    pub kind: NodeKind,
    pub start: usize,
    pub end: usize,
    pub children: Vec<SyntaxNode>,
}

impl SyntaxNode {
    /// The node and all below it span ranges of the text, each from one character's start to
    /// another's.
    pub open spec fn fits(self, s: Seq<char>) -> bool
        decreases self,
    {
        &&& self.start <= self.end
        &&& is_boundary(s, self.start as int)
        &&& is_boundary(s, self.end as int)
        &&& forall|i: int| 0 <= i < self.children@.len() ==> (#[trigger] self.children@[i]).fits(s)
    }

    /// The characters of the text that the node spans, as an index range.
    pub open spec fn span(self, s: Seq<char>) -> (int, int) {
        (index_at(s, self.start as int), index_at(s, self.end as int))
    }

    /// The byte range that the node spans.
    pub open spec fn bytes(self) -> (int, int) {
        (self.start as int, self.end as int)
    }

    /// How many nodes there are, this one and all below it.
    pub open spec fn size(self) -> nat
        decreases self,
    {
        1 + sizes(self.children@)
    }
}

/// How many nodes there are in several trees.
pub open spec fn sizes(nodes: Seq<SyntaxNode>) -> nat
    decreases nodes,
{
    if nodes.len() == 0 {
        0
    } else {
        sizes(nodes.drop_last()) + nodes.last().size()
    }
}

/// The first child of a kind.
pub open spec fn first_child(nodes: Seq<SyntaxNode>, kind: NodeKind, i: int) -> Option<SyntaxNode>
    decreases nodes.len() - i,
{
    if i < 0 || i >= nodes.len() {
        None
    } else if nodes[i].kind == kind {
        Some(nodes[i])
    } else {
        first_child(nodes, kind, i + 1)
    }
}

/// The first child of a kind.
pub fn find_child(node: &SyntaxNode, kind: NodeKind) -> (result: Option<&SyntaxNode>)
    ensures
        match result {
            Some(child) => first_child(node.children@, kind, 0) == Some(*child),
            None => first_child(node.children@, kind, 0) is None,
        },
        result matches Some(child) ==> exists|i: int|
            0 <= i < node.children@.len() && #[trigger] node.children@[i] == *child,
{
    let mut i: usize = 0;
    while i < node.children.len()
        invariant
            i <= node.children@.len(),
            first_child(node.children@, kind, 0) == first_child(node.children@, kind, i as int),
        decreases node.children@.len() - i,
    {
        if node.children[i].kind == kind {
            assert(node.children@[i as int] == node.children@[i as int]);
            return Some(&node.children[i]);
        }
        i += 1;
    }
    None
}

/// The level that a child of a heading marks.
pub open spec fn marked_level(kind: NodeKind) -> Option<u8> {
    match kind {
        NodeKind::AtxH1Marker => Some(1),
        NodeKind::AtxH2Marker => Some(2),
        NodeKind::AtxH3Marker => Some(3),
        NodeKind::AtxH4Marker => Some(4),
        NodeKind::AtxH5Marker => Some(5),
        NodeKind::AtxH6Marker => Some(6),
        _ => None,
    }
}

/// The level of a heading: what the first of its children, from `i` on, marks that marks one; the
/// deepest where none does.
pub open spec fn level_from(nodes: Seq<SyntaxNode>, i: int) -> u8
    decreases nodes.len() - i,
{
    if i < 0 || i >= nodes.len() {
        6
    } else {
        match marked_level(nodes[i].kind) {
            Some(level) => level,
            None => level_from(nodes, i + 1),
        }
    }
}

/// The level of a heading, from 1 to 6.
pub fn heading_level(node: &SyntaxNode) -> (result: u8)
    ensures
        result == level_from(node.children@, 0),
        1 <= result <= 6,
{
    let mut i: usize = 0;
    while i < node.children.len()
        invariant
            i <= node.children@.len(),
            level_from(node.children@, 0) == level_from(node.children@, i as int),
        decreases node.children@.len() - i,
    {
        match node.children[i].kind {
            NodeKind::AtxH1Marker => {
                return 1;
            },
            NodeKind::AtxH2Marker => {
                return 2;
            },
            NodeKind::AtxH3Marker => {
                return 3;
            },
            NodeKind::AtxH4Marker => {
                return 4;
            },
            NodeKind::AtxH5Marker => {
                return 5;
            },
            NodeKind::AtxH6Marker => {
                return 6;
            },
            _ => {},
        }
        i += 1;
    }
    6
}

/// The nodes that a stack of references points to.
pub open spec fn nodes_of(stack: Seq<&SyntaxNode>) -> Seq<SyntaxNode> {
    Seq::new(stack.len(), |i: int| *stack[i])
}

/// Puts a node's children on a stack so that they come off it in order.
pub fn push_children<'a>(node: &'a SyntaxNode, stack: &mut Vec<&'a SyntaxNode>)
    ensures
        nodes_of(final(stack)@) == nodes_of(old(stack)@) + node.children@.reverse(),
{
    let ghost reversed = node.children@.reverse();
    let mut i: usize = node.children.len();
    while i > 0
        invariant
            i <= node.children@.len(),
            reversed == node.children@.reverse(),
            nodes_of(stack@) == nodes_of(old(stack)@) + reversed.take(node.children@.len() - i),
        decreases i,
    {
        i -= 1;
        let ghost before = nodes_of(stack@);
        stack.push(&node.children[i]);
        assert(nodes_of(stack@) =~= before.push(node.children@[i as int]));
        assert(reversed.take(node.children@.len() - i) =~= reversed.take(
            node.children@.len() - i - 1,
        ).push(node.children@[i as int]));
    }
    assert(reversed.take(node.children@.len() as int) =~= reversed);
}

} // verus!
