//! The text-style vocabulary of the layout engine: slant, weight, colour, the
//! font face they select, and the classification of tag names by their effect.

use crate::text::same_text;
use vstd::prelude::*;

verus! {

/// The slant of the running text.
#[derive(Clone, Copy, Debug, PartialEq, Eq, Structural)]
pub enum Style {
    Roman,
    Italic,
    Mono,
}

/// The weight of the running text.
#[derive(Clone, Copy, Debug, PartialEq, Eq, Structural)]
pub enum Weight {
    Normal,
    Bold,
}

/// The font face a renderer draws a word with.
#[derive(Clone, Copy, Debug, PartialEq, Eq, Structural)]
pub enum FontVariant {
    Roman,
    Italic,
    Bold,
    BoldItalic,
    Mono,
    BoldMono,
}

/// The colour a word is drawn in.
#[derive(Clone, Copy, Debug, PartialEq, Eq, Structural)]
pub enum Color {
    /// Ordinary text.
    Text,
    /// Text inside a hyperlink.
    Link,
    /// Tag names in the source view.
    Markup,
}

/// What a tag does to the style context when it is entered and left.
#[derive(Clone, Copy, Debug, PartialEq, Eq, Structural)]
pub enum TagKind {
    /// `i`, `em`
    Italic,
    /// `b`, `strong`
    Bold,
    /// `small`
    Small,
    /// `big`
    Big,
    /// `h1`
    Heading,
    /// `br`, `br/`, `hr`, `hr/`, `p`
    Break,
    /// `code`, `pre`
    Mono,
    /// `a`
    Anchor,
    /// `head`, `style`, `script`
    Hidden,
    /// Every other name: no effect on style.
    Other,
}

/// The face selected by a slant and a weight. Bold combines with italic and
/// with mono; mono takes the place of the slant.
pub open spec fn font_variant_of(style: Style, weight: Weight) -> FontVariant {
    match (style, weight) {
        (Style::Italic, Weight::Bold) => FontVariant::BoldItalic,
        (Style::Mono, Weight::Bold) => FontVariant::BoldMono,
        (Style::Roman, Weight::Bold) => FontVariant::Bold,
        (Style::Italic, Weight::Normal) => FontVariant::Italic,
        (Style::Mono, Weight::Normal) => FontVariant::Mono,
        (Style::Roman, Weight::Normal) => FontVariant::Roman,
    }
}

/// The face selected by a slant and a weight.
pub fn font_variant(style: Style, weight: Weight) -> (v: FontVariant)
    ensures
        v == font_variant_of(style, weight),
{
    match weight {
        Weight::Bold => match style {
            Style::Italic => FontVariant::BoldItalic,
            Style::Mono => FontVariant::BoldMono,
            Style::Roman => FontVariant::Bold,
        },
        Weight::Normal => match style {
            Style::Italic => FontVariant::Italic,
            Style::Mono => FontVariant::Mono,
            Style::Roman => FontVariant::Roman,
        },
    }
}

/// The effect class of a (lower-case) tag name.
pub open spec fn tag_kind_of(name: Seq<char>) -> TagKind {
    if name == "i"@ || name == "em"@ {
        TagKind::Italic
    } else if name == "b"@ || name == "strong"@ {
        TagKind::Bold
    } else if name == "small"@ {
        TagKind::Small
    } else if name == "big"@ {
        TagKind::Big
    } else if name == "h1"@ {
        TagKind::Heading
    } else if name == "br"@ || name == "br/"@ || name == "hr"@ || name == "hr/"@ || name == "p"@ {
        TagKind::Break
    } else if name == "code"@ || name == "pre"@ {
        TagKind::Mono
    } else if name == "a"@ {
        TagKind::Anchor
    } else if name == "head"@ || name == "style"@ || name == "script"@ {
        TagKind::Hidden
    } else {
        TagKind::Other
    }
}

/// The effect class of a (lower-case) tag name.
pub fn tag_kind(name: &str) -> (kind: TagKind)
    ensures
        kind == tag_kind_of(name@),
{
    if same_text(name, "i") || same_text(name, "em") {
        TagKind::Italic
    } else if same_text(name, "b") || same_text(name, "strong") {
        TagKind::Bold
    } else if same_text(name, "small") {
        TagKind::Small
    } else if same_text(name, "big") {
        TagKind::Big
    } else if same_text(name, "h1") {
        TagKind::Heading
    } else if same_text(name, "br") || same_text(name, "br/") || same_text(name, "hr") || same_text(
        name,
        "hr/",
    ) || same_text(name, "p") {
        TagKind::Break
    } else if same_text(name, "code") || same_text(name, "pre") {
        TagKind::Mono
    } else if same_text(name, "a") {
        TagKind::Anchor
    } else if same_text(name, "head") || same_text(name, "style") || same_text(name, "script") {
        TagKind::Hidden
    } else {
        TagKind::Other
    }
}

} // verus!
