//! The plain-data model of a results container.  A caller parses the HTML
//! page with a document model of its choice, selects the results
//! container, and hands over only what the extraction logic reads: text
//! content, style attributes, anchors and block boundaries.

use vstd::prelude::*;

verus! {

/// The first anchor element of a paragraph: its `href` attribute (absent
/// when the markup omits it), its concatenated text, and the concatenated
/// text of its first `sup` element (empty when there is none).
pub struct Anchor {
    pub href: Option<String>,
    pub text: String,
    pub sup_text: String,
}

/// The mathematical shape of an [`Anchor`].
pub struct AnchorModel {
    pub href: Option<Seq<char>>,
    pub text: Seq<char>,
    pub sup_text: Seq<char>,
}

impl View for Anchor {
    type V = AnchorModel;

    open spec fn view(&self) -> AnchorModel {
        AnchorModel { href: self.href.deep_view(), text: self.text@, sup_text: self.sup_text@ }
    }
}

impl DeepView for Anchor {
    type V = AnchorModel;

    open spec fn deep_view(&self) -> AnchorModel {
        self@
    }
}

/// One paragraph-like element of an entry block: its style attribute
/// (absent when the markup omits it), its concatenated text, and its first
/// anchor, if any.
pub struct Paragraph {
    pub style: Option<String>,
    pub text: String,
    pub anchor: Option<Anchor>,
}

/// The mathematical shape of a [`Paragraph`].
pub struct ParagraphModel {
    pub style: Option<Seq<char>>,
    pub text: Seq<char>,
    pub anchor: Option<AnchorModel>,
}

impl View for Paragraph {
    type V = ParagraphModel;

    open spec fn view(&self) -> ParagraphModel {
        ParagraphModel {
            style: self.style.deep_view(),
            text: self.text@,
            anchor: self.anchor.deep_view(),
        }
    }
}

impl DeepView for Paragraph {
    type V = ParagraphModel;

    open spec fn deep_view(&self) -> ParagraphModel {
        self@
    }
}

/// One entry block of the results container, in document order.  A block
/// whose first child node is itself a structural element rather than text
/// is decorative and is skipped.
pub struct Block {
    pub leading_element: bool,
    pub paragraphs: Vec<Paragraph>,
}

/// The mathematical shape of a [`Block`].
pub struct BlockModel {
    pub leading_element: bool,
    pub paragraphs: Seq<ParagraphModel>,
}

impl View for Block {
    type V = BlockModel;

    open spec fn view(&self) -> BlockModel {
        BlockModel {
            leading_element: self.leading_element,
            paragraphs: self.paragraphs.deep_view(),
        }
    }
}

impl DeepView for Block {
    type V = BlockModel;

    open spec fn deep_view(&self) -> BlockModel {
        self@
    }
}

/// The results container of one lookup: its full visible text content (all
/// descendant text nodes concatenated in document order), the first text
/// node of its first anchor (carrying the suggested word on the ambiguous
/// path), and its entry blocks.
pub struct ResultsPage {
    pub text: String,
    pub first_anchor_text: Option<String>,
    pub blocks: Vec<Block>,
}

/// The mathematical shape of a [`ResultsPage`].
pub struct PageModel {
    pub text: Seq<char>,
    pub first_anchor_text: Option<Seq<char>>,
    pub blocks: Seq<BlockModel>,
}

impl View for ResultsPage {
    type V = PageModel;

    open spec fn view(&self) -> PageModel {
        PageModel {
            text: self.text@,
            first_anchor_text: self.first_anchor_text.deep_view(),
            blocks: self.blocks.deep_view(),
        }
    }
}

} // verus!
