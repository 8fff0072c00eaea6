//! Layout of a flat run of tokens, without a tree: tags switch the style as
//! they come, opening and closing forms alike, and every token leaves at
//! least one display entry.

use crate::layout::{
    entry_views, flushed, initial_view, key_views, noted_if_absent, words_placed, DisplayEntry,
    DisplayEntryView, LayoutView,
};
use crate::lexer::{token_views, Token, TokenView};
use crate::metrics::{Dimensions, MeasureCache, MeasureKey, MeasureKeyView};
use crate::style::{font_variant, font_variant_of, Style, Weight};
use crate::text::{decode_entities, decoded_entities, same_text, split_whitespace, words};
use vstd::prelude::*;

verus! {

/// Where the first line stands: ten pixels below the top.
pub const TOP_MARGIN: u64 = 640;

/// The state that a flat pass starts from.
pub open spec fn flat_start() -> LayoutView {
    LayoutView { y: TOP_MARGIN, ..initial_view() }
}

/// The state after the tag whose text is `tag`. The text counts as it
/// stands: a tag with attributes or in upper case is none of these.
pub open spec fn flat_tag_applied(s: LayoutView, tag: Seq<char>) -> LayoutView {
    if tag == "i"@ || tag == "em"@ {
        LayoutView { style: Style::Italic, ..s }
    } else if tag == "/i"@ || tag == "/em"@ {
        LayoutView { style: Style::Roman, ..s }
    } else if tag == "b"@ || tag == "strong"@ {
        LayoutView { weight: Weight::Bold, ..s }
    } else if tag == "/b"@ || tag == "/strong"@ {
        LayoutView { weight: Weight::Normal, ..s }
    } else if tag == "small"@ {
        LayoutView { font_size: s.font_size.wrapping_sub(2), ..s }
    } else if tag == "/small"@ {
        LayoutView { font_size: s.font_size.wrapping_add(2), ..s }
    } else if tag == "big"@ {
        LayoutView { font_size: s.font_size.wrapping_add(4), ..s }
    } else if tag == "/big"@ {
        LayoutView { font_size: s.font_size.wrapping_sub(4), ..s }
    } else if tag == "br"@ || tag == "br/"@ || tag == "p"@ || tag == "/p"@ {
        flushed(s)
    } else if tag == "code"@ || tag == "pre"@ {
        LayoutView { style: Style::Mono, ..s }
    } else if tag == "/code"@ || tag == "/pre"@ {
        LayoutView { style: Style::Roman, ..s }
    } else {
        s
    }
}

/// The text that a token shows: a text token's own, a tag's none.
pub open spec fn shown_text(token: TokenView) -> Seq<char> {
    match token {
        TokenView::Text(text) => text,
        TokenView::Tag(_) => Seq::empty(),
    }
}

/// The state after an empty entry has been placed at the cursor, which
/// stays; where the empty text has no measurement, it is noted as missing.
pub open spec fn empty_placed(
    s: LayoutView,
    cache: Map<MeasureKeyView, Dimensions>,
) -> LayoutView {
    let key = MeasureKeyView {
        style: s.style,
        weight: s.weight,
        text: Seq::empty(),
        font_size: s.font_size,
    };
    if cache.dom().contains(key) {
        LayoutView {
            display_list: s.display_list.push(
                DisplayEntryView {
                    x: s.x,
                    y: s.y,
                    font_size: s.font_size,
                    text: Seq::empty(),
                    dimensions: cache[key],
                    font: font_variant_of(s.style, s.weight),
                    color: s.color,
                },
            ),
            ..s
        }
    } else {
        LayoutView { missing: noted_if_absent(s.missing, cache, key), ..s }
    }
}

/// The state after what a token shows, its character references resolved,
/// has been placed: its words in the current style, or an empty entry where
/// it has none.
pub open spec fn shown_laid(
    s: LayoutView,
    cache: Map<MeasureKeyView, Dimensions>,
    width: u32,
    decoded: Seq<char>,
) -> LayoutView {
    if words(decoded).len() == 0 {
        empty_placed(s, cache)
    } else {
        words_placed(s, cache, width, words(decoded), s.style, s.weight, 0, None)
    }
}

/// The state after one token: a tag switches the style; then what the
/// token shows is placed.
pub open spec fn token_laid(
    s: LayoutView,
    cache: Map<MeasureKeyView, Dimensions>,
    width: u32,
    token: TokenView,
) -> LayoutView {
    let styled = match token {
        TokenView::Text(_) => s,
        TokenView::Tag(tag) => flat_tag_applied(s, tag),
    };
    shown_laid(styled, cache, width, decoded_entities(shown_text(token)))
}

/// The state after a run of tokens.
pub open spec fn tokens_laid(
    s: LayoutView,
    cache: Map<MeasureKeyView, Dimensions>,
    width: u32,
    tokens: Seq<TokenView>,
) -> LayoutView
    decreases tokens.len(),
{
    if tokens.len() == 0 {
        s
    } else {
        token_laid(tokens_laid(s, cache, width, tokens.drop_last()), cache, width, tokens.last())
    }
}

/// What a flat pass leaves: the display list, the cursor and the style.
pub struct Layout {
    pub display_list: Vec<DisplayEntry>,
    /// The measurements that the pass looked for in vain. Where there are
    /// any, the display list lacks the words that they belong to.
    pub missing: Vec<MeasureKey>,
    pub x: u64,
    pub y: u64,
    pub style: Style,
    pub weight: Weight,
}

impl Layout {
    /// Lays out `tokens` for lines of the width `width`, from the
    /// measurements that `cache` holds.
    pub fn new(cache: &MeasureCache, tokens: &Vec<Token>, width: u32) -> (layout: Self)
        ensures
            ({
                let end = tokens_laid(flat_start(), cache@, width, token_views(tokens@));
                &&& entry_views(layout.display_list@) == end.display_list
                &&& key_views(layout.missing@) == end.missing
                &&& layout.x == end.x
                &&& layout.y == end.y
                &&& layout.style == end.style
                &&& layout.weight == end.weight
            }),
    {
        let mut engine = crate::layout::Layout::new(String::new());
        engine.y = TOP_MARGIN;
        let ghost all = token_views(tokens@);
        assert(all.take(0) =~= Seq::empty());
        let mut i: usize = 0;
        while i < tokens.len()
            invariant
                i <= tokens.len(),
                all == token_views(tokens@),
                engine@ == tokens_laid(flat_start(), cache@, width, all.take(i as int)),
            decreases tokens.len() - i,
        {
            proof {
                reveal_strlit("");
                assert(""@ =~= Seq::<char>::empty());
                assert(all.take(i + 1).drop_last() =~= all.take(i as int));
                assert(all.take(i + 1).last() == tokens@[i as int]@);
            }
            let decoded = match &tokens[i] {
                Token::Text(text) => decode_entities(text.text.as_str()),
                Token::Tag(tag) => {
                    apply_tag(&mut engine, tag.tag.as_str());
                    decode_entities("")
                },
            };
            place_shown(&mut engine, cache, width, decoded.as_str());
            i += 1;
        }
        assert(all.take(tokens.len() as int) =~= all);
        Layout {
            display_list: engine.display_list,
            missing: engine.missing,
            x: engine.x,
            y: engine.y,
            style: engine.style,
            weight: engine.weight,
        }
    }
}

/// Places what a token shows, its character references resolved: its
/// words in the current style, or an empty entry where it has none.
pub fn place_shown(
    engine: &mut crate::layout::Layout,
    cache: &MeasureCache,
    width: u32,
    decoded: &str,
)
    ensures
        final(engine)@ == shown_laid(old(engine)@, cache@, width, decoded@),
{
    let shown = split_whitespace(decoded);
    if shown.len() == 0 {
        place_empty(engine, cache);
    } else {
        let style = engine.style;
        let weight = engine.weight;
        engine.place_words(cache, width, &shown, style, weight, 0, None);
    }
}

/// Switches the style as the tag whose text is `tag` says.
pub fn apply_tag(engine: &mut crate::layout::Layout, tag: &str)
    ensures
        final(engine)@ == flat_tag_applied(old(engine)@, tag@),
{
    if same_text(tag, "i") || same_text(tag, "em") {
        engine.style = Style::Italic;
    } else if same_text(tag, "/i") || same_text(tag, "/em") {
        engine.style = Style::Roman;
    } else if same_text(tag, "b") || same_text(tag, "strong") {
        engine.weight = Weight::Bold;
    } else if same_text(tag, "/b") || same_text(tag, "/strong") {
        engine.weight = Weight::Normal;
    } else if same_text(tag, "small") {
        engine.font_size = engine.font_size.wrapping_sub(2);
    } else if same_text(tag, "/small") {
        engine.font_size = engine.font_size.wrapping_add(2);
    } else if same_text(tag, "big") {
        engine.font_size = engine.font_size.wrapping_add(4);
    } else if same_text(tag, "/big") {
        engine.font_size = engine.font_size.wrapping_sub(4);
    } else if same_text(tag, "br") || same_text(tag, "br/") || same_text(tag, "p") || same_text(
        tag,
        "/p",
    ) {
        engine.flush();
    } else if same_text(tag, "code") || same_text(tag, "pre") {
        engine.style = Style::Mono;
    } else if same_text(tag, "/code") || same_text(tag, "/pre") {
        engine.style = Style::Roman;
    }
}

/// Places an empty entry at the cursor.
pub fn place_empty(engine: &mut crate::layout::Layout, cache: &MeasureCache)
    ensures
        final(engine)@ == empty_placed(old(engine)@, cache@),
{
    let style = engine.style;
    let weight = engine.weight;
    let font_size: u16 = engine.font_size;
    proof {
        reveal_strlit("");
        assert(""@ =~= Seq::<char>::empty());
    }
    match crate::layout::Layout::cached_measure(cache, "", style, weight, font_size) {
        Some(dimensions) => {
            let ghost before = entry_views(engine.display_list@);
            let entry = DisplayEntry {
                x: engine.x,
                y: engine.y,
                font_size,
                text: String::new(),
                dimensions,
                font: font_variant(style, weight),
                color: engine.color,
            };
            engine.display_list.push(entry);
            assert(entry_views(engine.display_list@) =~= before.push(entry@));
        },
        None => {
            engine.note_missing(MeasureKey::new(style, weight, "", font_size));
        },
    }
}

/// In a flat pass, `b` makes the text bold and `/b` ends it, and neither
/// changes anything else.
pub proof fn lemma_flat_bold(s: LayoutView)
    ensures
        flat_tag_applied(s, "b"@) == (LayoutView { weight: Weight::Bold, ..s }),
        flat_tag_applied(s, "/b"@) == (LayoutView { weight: Weight::Normal, ..s }),
{
    reveal_strlit("i");
    reveal_strlit("em");
    reveal_strlit("/i");
    reveal_strlit("/em");
    reveal_strlit("b");
    reveal_strlit("strong");
    reveal_strlit("/b");
    assert("b"@.len() == 1 && "b"@[0] == 'b');
    assert("/b"@.len() == 2 && "/b"@[1] == 'b');
    assert("i"@[0] == 'i' && "/i"@[1] == 'i');
}

} // verus!
