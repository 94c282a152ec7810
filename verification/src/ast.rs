use vstd::prelude::*;

verus! {

/// One item of a list: the blocks it holds, in order.
#[derive(Debug, PartialEq, PartialOrd)]
pub struct ListItem(pub Vec<BlockNode>);

/// A block-level element of a document.
#[derive(Debug, PartialEq, PartialOrd)]
pub enum BlockNode {
    Heading { level: u8, content: Vec<InlineNode> },
    Paragraph(Vec<InlineNode>),
    BlockQuote(Vec<BlockNode>),
    OrderedList(Vec<ListItem>),
    UnorderedList(Vec<ListItem>),
    CodeBlock { language: Option<String>, code: String },
}

/// An inline element of a paragraph, heading or link.
#[derive(Debug, PartialEq, PartialOrd)]
pub enum InlineNode {
    Text(String),
    Bold(Vec<InlineNode>),
    Italics(Vec<InlineNode>),
    LineBreak,
    Link { href: String, title: Option<String>, children: Vec<InlineNode> },
    Image { src: String, alt: String, title: Option<String> },
    Code(String),
}

/// The mathematical value of an `InlineNode`: strings become character sequences.
pub enum InlineV {
    Text(Seq<char>),
    Bold(Seq<InlineV>),
    Italics(Seq<InlineV>),
    LineBreak,
    Link { href: Seq<char>, title: Option<Seq<char>>, children: Seq<InlineV> },
    Image { src: Seq<char>, alt: Seq<char>, title: Option<Seq<char>> },
    Code(Seq<char>),
}

/// The mathematical value of a `BlockNode`; a list item is the sequence of its blocks.
pub enum BlockV {
    Heading { level: u8, content: Seq<InlineV> },
    Paragraph(Seq<InlineV>),
    BlockQuote(Seq<BlockV>),
    OrderedList(Seq<Seq<BlockV>>),
    UnorderedList(Seq<Seq<BlockV>>),
    CodeBlock { language: Option<Seq<char>>, code: Seq<char> },
}

pub open spec fn opt_str_view(o: Option<String>) -> Option<Seq<char>> {
    match o {
        Some(s) => Some(s@),
        None => None,
    }
}

pub open spec fn inline_view(n: InlineNode) -> InlineV
    decreases n,
{
    match n {
        InlineNode::Text(s) => InlineV::Text(s@),
        InlineNode::Bold(c) => InlineV::Bold(inlines_view(c)),
        InlineNode::Italics(c) => InlineV::Italics(inlines_view(c)),
        InlineNode::LineBreak => InlineV::LineBreak,
        InlineNode::Link { href, title, children } => InlineV::Link {
            href: href@,
            title: opt_str_view(title),
            children: inlines_view(children),
        },
        InlineNode::Image { src, alt, title } => InlineV::Image {
            src: src@,
            alt: alt@,
            title: opt_str_view(title),
        },
        InlineNode::Code(s) => InlineV::Code(s@),
    }
}

pub open spec fn inlines_view(v: Vec<InlineNode>) -> Seq<InlineV>
    decreases v,
{
    Seq::new(
        v.len() as nat,
        |i: int|
            if 0 <= i < v.len() {
                inline_view(v[i])
            } else {
                InlineV::LineBreak
            },
    )
}

pub open spec fn block_view(b: BlockNode) -> BlockV
    decreases b,
{
    match b {
        BlockNode::Heading { level, content } => BlockV::Heading {
            level,
            content: inlines_view(content),
        },
        BlockNode::Paragraph(c) => BlockV::Paragraph(inlines_view(c)),
        BlockNode::BlockQuote(bs) => BlockV::BlockQuote(blocks_view(bs)),
        BlockNode::OrderedList(items) => BlockV::OrderedList(items_view(items)),
        BlockNode::UnorderedList(items) => BlockV::UnorderedList(items_view(items)),
        BlockNode::CodeBlock { language, code } => BlockV::CodeBlock {
            language: opt_str_view(language),
            code: code@,
        },
    }
}

pub open spec fn blocks_view(v: Vec<BlockNode>) -> Seq<BlockV>
    decreases v,
{
    Seq::new(
        v.len() as nat,
        |i: int|
            if 0 <= i < v.len() {
                block_view(v[i])
            } else {
                BlockV::Paragraph(seq![])
            },
    )
}

pub open spec fn item_view(it: ListItem) -> Seq<BlockV>
    decreases it,
{
    blocks_view(it.0)
}

pub open spec fn items_view(v: Vec<ListItem>) -> Seq<Seq<BlockV>>
    decreases v,
{
    Seq::new(
        v.len() as nat,
        |i: int|
            if 0 <= i < v.len() {
                item_view(v[i])
            } else {
                seq![]
            },
    )
}

} // verus!

verus! {

pub open spec fn opt_inline_view(o: Option<InlineNode>) -> Option<InlineV> {
    match o {
        Some(n) => Some(inline_view(n)),
        None => None,
    }
}

pub open spec fn opt_block_view(o: Option<BlockNode>) -> Option<BlockV> {
    match o {
        Some(b) => Some(block_view(b)),
        None => None,
    }
}

pub open spec fn opt_item_view(o: Option<ListItem>) -> Option<Seq<BlockV>> {
    match o {
        Some(it) => Some(item_view(it)),
        None => None,
    }
}

} // verus!
