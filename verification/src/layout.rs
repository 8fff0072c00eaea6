//! The line-layout engine: a pre-order walk of the document tree that keeps a
//! style context and a cursor, and places each word on a line.
//!
//! All lengths are integers in units of 1/64 pixel. Cursor coordinates
//! saturate at the top of their range instead of overflowing, and font
//! sizes are counted modulo 65536.
//!
//! Entering a tag saves the style context and then changes it; leaving the
//! tag puts the saved context back. So what follows an element is set in
//! the style that was in force before it, however tags nest.
//!
//! The engine does not measure text. It looks measurements up in a
//! [`MeasureCache`]; what it does not find there it lists as missing, for
//! the caller to measure before the next pass.

pub mod flat;
pub mod laws;

use crate::arena::{arena_well_formed, forest, lemma_forest_next, subtree};
use crate::dom::{Element, ElementView, NodeView, Tree};
use crate::metrics::{Dimensions, MeasureCache, MeasureKey, MeasureKeyView};
use crate::style::{
    font_variant, font_variant_of, tag_kind, tag_kind_of, Color, FontVariant, Style, TagKind,
    Weight,
};
use crate::text::{decode_entities, decoded_entities, same_text, split_whitespace, texts, words};
use vstd::prelude::*;

verus! {

/// The distance from one line to the next: 22.5 pixels, whatever the font size.
pub const LINE_HEIGHT: u64 = 1440;

/// Where the first line stands: one pixel below the top.
pub const TOP_MARGIN: u64 = 64;

/// The font size that a layout pass starts with.
pub const BASE_FONT_SIZE: u16 = 16;

/// One positioned, styled word, ready for a renderer.
#[derive(Debug)]
pub struct DisplayEntry {
    pub x: u64,
    pub y: u64,
    pub font_size: u16,
    pub text: String,
    pub dimensions: Dimensions,
    pub font: FontVariant,
    pub color: Color,
}

/// The mathematical value of a [`DisplayEntry`].
pub ghost struct DisplayEntryView {
    pub x: u64,
    pub y: u64,
    pub font_size: u16,
    pub text: Seq<char>,
    pub dimensions: Dimensions,
    pub font: FontVariant,
    pub color: Color,
}

impl View for DisplayEntry {
    type V = DisplayEntryView;

    open spec fn view(&self) -> DisplayEntryView {
        DisplayEntryView {
            x: self.x,
            y: self.y,
            font_size: self.font_size,
            text: self.text@,
            dimensions: self.dimensions,
            font: self.font,
            color: self.color,
        }
    }
}

/// How a document is presented.
#[derive(Clone, Copy, Debug, PartialEq, Eq, Structural)]
pub enum LayoutMode {
    /// The text, styled by its tags.
    Rendered,
    /// The markup itself, indented by nesting depth.
    Source,
}

/// The text-formatting state in force at a point of the document.
#[derive(Clone, Copy, Debug, PartialEq, Eq, Structural)]
pub struct StyleContext {
    pub style: Style,
    pub weight: Weight,
    pub font_size: u16,
    pub color: Color,
    pub visible: bool,
}

/// The layout engine's state: the style context, the cursor, and what has
/// been placed so far.
pub struct Layout {
    pub display_list: Vec<DisplayEntry>,
    /// The measurements that the last pass looked for in vain.
    pub missing: Vec<MeasureKey>,
    /// The style contexts that were in force when the tags that are open
    /// were entered, outermost first.
    pub entered: Vec<StyleContext>,
    pub x: u64,
    pub y: u64,
    pub style: Style,
    pub weight: Weight,
    pub font_size: u16,
    pub mode: LayoutMode,
    pub color: Color,
    pub visible: bool,
}

/// The mathematical value of a [`Layout`] in the middle of a pass.
pub ghost struct LayoutView {
    pub style: Style,
    pub weight: Weight,
    pub font_size: u16,
    pub color: Color,
    pub visible: bool,
    pub x: u64,
    pub y: u64,
    pub display_list: Seq<DisplayEntryView>,
    pub missing: Seq<MeasureKeyView>,
    pub entered: Seq<StyleContext>,
}

/// The views of a run of display entries.
pub open spec fn entry_views(entries: Seq<DisplayEntry>) -> Seq<DisplayEntryView> {
    Seq::new(entries.len(), |i: int| entries[i]@)
}

/// The views of a run of measurement keys.
pub open spec fn key_views(keys: Seq<MeasureKey>) -> Seq<MeasureKeyView> {
    Seq::new(keys.len(), |i: int| keys[i]@)
}

impl View for Layout {
    type V = LayoutView;

    open spec fn view(&self) -> LayoutView {
        LayoutView {
            style: self.style,
            weight: self.weight,
            font_size: self.font_size,
            color: self.color,
            visible: self.visible,
            x: self.x,
            y: self.y,
            display_list: entry_views(self.display_list@),
            missing: key_views(self.missing@),
            entered: self.entered@,
        }
    }
}

/// The state that every pass starts from.
pub open spec fn initial_view() -> LayoutView {
    LayoutView {
        style: Style::Roman,
        weight: Weight::Normal,
        font_size: BASE_FONT_SIZE,
        color: Color::Text,
        visible: true,
        x: 0,
        y: TOP_MARGIN,
        display_list: Seq::empty(),
        missing: Seq::empty(),
        entered: Seq::empty(),
    }
}

/// A line break: the cursor moves down one line and back to the left margin.
pub open spec fn flushed(s: LayoutView) -> LayoutView {
    LayoutView { x: 0, y: s.y.saturating_add(LINE_HEIGHT), ..s }
}

/// `missing` with `key` noted, once.
pub open spec fn noted(missing: Seq<MeasureKeyView>, key: MeasureKeyView) -> Seq<MeasureKeyView> {
    if missing.contains(key) {
        missing
    } else {
        missing.push(key)
    }
}

/// `missing` with `key` noted if `cache` does not hold it.
pub open spec fn noted_if_absent(
    missing: Seq<MeasureKeyView>,
    cache: Map<MeasureKeyView, Dimensions>,
    key: MeasureKeyView,
) -> Seq<MeasureKeyView> {
    if cache.dom().contains(key) {
        missing
    } else {
        noted(missing, key)
    }
}

/// How far a line is indented: `indent` times the width of a space.
pub open spec fn indent_offset(space_width: u32, indent: u32) -> u64 {
    (space_width * indent) as u64
}

/// The state after one word has been handled.
///
/// The word and a single space are looked up in `cache` under the given
/// style and the current font size. If either is absent, it is noted as
/// missing and nothing else changes. Otherwise a cursor at the left margin
/// first moves to the indentation offset (at most `width`); if the word would
/// reach `width`, the cursor moves down one line and to the indentation
/// offset; the word is placed at the cursor, which then advances by the
/// width of the word and of a space.
pub open spec fn word_placed(
    s: LayoutView,
    cache: Map<MeasureKeyView, Dimensions>,
    width: u32,
    word: Seq<char>,
    style: Style,
    weight: Weight,
    indent: u32,
    color: Option<Color>,
) -> LayoutView {
    let space_key = MeasureKeyView { style, weight, text: " "@, font_size: s.font_size };
    let word_key = MeasureKeyView { style, weight, text: word, font_size: s.font_size };
    if !cache.dom().contains(space_key) || !cache.dom().contains(word_key) {
        LayoutView {
            missing: noted_if_absent(noted_if_absent(s.missing, cache, space_key), cache, word_key),
            ..s
        }
    } else {
        let space = cache[space_key];
        let dims = cache[word_key];
        let offset = indent_offset(space.width, indent);
        let start = if s.x == 0 {
            if offset <= width {
                offset
            } else {
                width as u64
            }
        } else {
            s.x
        };
        let wraps = start + dims.width >= width;
        let x = if wraps {
            offset
        } else {
            start
        };
        let y = if wraps {
            s.y.saturating_add(LINE_HEIGHT)
        } else {
            s.y
        };
        let entry = DisplayEntryView {
            x,
            y,
            font_size: s.font_size,
            text: word,
            dimensions: dims,
            font: font_variant_of(style, weight),
            color: match color {
                Some(c) => c,
                None => s.color,
            },
        };
        LayoutView {
            x: x.saturating_add((dims.width + space.width) as u64),
            y,
            display_list: s.display_list.push(entry),
            ..s
        }
    }
}

/// The state after a run of words, each handled as [`word_placed`] says.
pub open spec fn words_placed(
    s: LayoutView,
    cache: Map<MeasureKeyView, Dimensions>,
    width: u32,
    words: Seq<Seq<char>>,
    style: Style,
    weight: Weight,
    indent: u32,
    color: Option<Color>,
) -> LayoutView
    decreases words.len(),
{
    if words.len() == 0 {
        s
    } else {
        word_placed(
            words_placed(s, cache, width, words.drop_last(), style, weight, indent, color),
            cache,
            width,
            words.last(),
            style,
            weight,
            indent,
            color,
        )
    }
}

/// The style context of `s`.
pub open spec fn context_of(s: LayoutView) -> StyleContext {
    StyleContext {
        style: s.style,
        weight: s.weight,
        font_size: s.font_size,
        color: s.color,
        visible: s.visible,
    }
}

/// `s` in the style context `context`.
pub open spec fn in_context(s: LayoutView, context: StyleContext) -> LayoutView {
    LayoutView {
        style: context.style,
        weight: context.weight,
        font_size: context.font_size,
        color: context.color,
        visible: context.visible,
        ..s
    }
}

/// What a tag of the given kind does when it is entered.
pub open spec fn tag_applied(s: LayoutView, kind: TagKind) -> LayoutView {
    match kind {
        TagKind::Italic => LayoutView { style: Style::Italic, ..s },
        TagKind::Bold => LayoutView { weight: Weight::Bold, ..s },
        TagKind::Small => LayoutView { font_size: s.font_size.wrapping_sub(2), ..s },
        TagKind::Big => LayoutView { font_size: s.font_size.wrapping_add(4), ..s },
        TagKind::Heading => flushed(
            LayoutView { font_size: s.font_size.wrapping_add(16), ..flushed(s) },
        ),
        TagKind::Break => flushed(s),
        TagKind::Mono => LayoutView { style: Style::Mono, ..s },
        TagKind::Anchor => LayoutView { color: Color::Link, ..s },
        TagKind::Hidden => LayoutView { visible: false, ..s },
        TagKind::Other => s,
    }
}

/// What leaving a tag of the given kind puts back where no context was
/// saved: the plain slant, weight, colour or visibility, or the font size
/// from before a tag of that kind.
pub open spec fn tag_reverted(s: LayoutView, kind: TagKind) -> LayoutView {
    match kind {
        TagKind::Italic => LayoutView { style: Style::Roman, ..s },
        TagKind::Bold => LayoutView { weight: Weight::Normal, ..s },
        TagKind::Small => LayoutView { font_size: s.font_size.wrapping_add(2), ..s },
        TagKind::Big => LayoutView { font_size: s.font_size.wrapping_sub(4), ..s },
        TagKind::Heading => LayoutView { font_size: s.font_size.wrapping_sub(16), ..s },
        TagKind::Break => s,
        TagKind::Mono => LayoutView { style: Style::Roman, ..s },
        TagKind::Anchor => LayoutView { color: Color::Text, ..s },
        TagKind::Hidden => LayoutView { visible: true, ..s },
        TagKind::Other => s,
    }
}

/// The state after a tag of the given kind has been entered: the style
/// context is saved, and then the tag does what its kind says.
pub open spec fn tag_opened(s: LayoutView, kind: TagKind) -> LayoutView {
    tag_applied(LayoutView { entered: s.entered.push(context_of(s)), ..s }, kind)
}

/// The state after a tag has been left: the style context is the one that
/// was saved last, which is saved no longer; the cursor and what has been
/// placed stay. Where nothing was saved, the tag's kind says what is put
/// back.
pub open spec fn tag_closed(s: LayoutView, kind: TagKind) -> LayoutView {
    if s.entered.len() > 0 {
        in_context(LayoutView { entered: s.entered.drop_last(), ..s }, s.entered.last())
    } else {
        tag_reverted(s, kind)
    }
}

/// The state after a run of text whose character references have been
/// resolved: nothing happens while text is hidden; otherwise each of its
/// words is placed in the current style.
pub open spec fn text_laid(
    s: LayoutView,
    cache: Map<MeasureKeyView, Dimensions>,
    width: u32,
    decoded: Seq<char>,
) -> LayoutView {
    if !s.visible {
        s
    } else {
        words_placed(s, cache, width, words(decoded), s.style, s.weight, 0, None)
    }
}

/// The state after the subtree `node` has been laid out as rendered text:
/// a tag is entered, its children are laid out in order, and it is left,
/// which puts the style context back to what it was before the tag.
pub open spec fn node_laid(
    node: NodeView,
    s: LayoutView,
    cache: Map<MeasureKeyView, Dimensions>,
    width: u32,
) -> LayoutView
    decreases node,
{
    match node.value {
        ElementView::Text(text) => text_laid(s, cache, width, decoded_entities(text)),
        ElementView::Tag { name, .. } => tag_closed(
            nodes_laid(node.children, tag_opened(s, tag_kind_of(name)), cache, width),
            tag_kind_of(name),
        ),
    }
}

/// The state after a run of subtrees has been laid out as rendered text.
pub open spec fn nodes_laid(
    nodes: Seq<NodeView>,
    s: LayoutView,
    cache: Map<MeasureKeyView, Dimensions>,
    width: u32,
) -> LayoutView
    decreases nodes,
{
    if nodes.len() == 0 {
        s
    } else {
        node_laid(nodes.last(), nodes_laid(nodes.drop_last(), s, cache, width), cache, width)
    }
}

/// The state after the three words of a tag have been placed in bold, the
/// name in the markup colour, and the line has been broken.
pub open spec fn markup_laid(
    s: LayoutView,
    cache: Map<MeasureKeyView, Dimensions>,
    width: u32,
    bracket: Seq<char>,
    name: Seq<char>,
    indent: u32,
) -> LayoutView {
    let a = word_placed(s, cache, width, bracket, Style::Roman, Weight::Bold, indent, None);
    let b = word_placed(
        a,
        cache,
        width,
        name,
        Style::Roman,
        Weight::Bold,
        indent,
        Some(Color::Markup),
    );
    let c = word_placed(b, cache, width, ">"@, Style::Roman, Weight::Bold, indent, None);
    flushed(c)
}

/// The state after the subtree `node` has been laid out as source: a tag
/// shows as `<`, its name and `>` on a line of their own, its children two
/// levels further in, and `</`, its name and `>`; a text shows its words as
/// they stand, one level further in, on one line.
pub open spec fn source_laid(
    node: NodeView,
    s: LayoutView,
    cache: Map<MeasureKeyView, Dimensions>,
    width: u32,
    indent: u32,
) -> LayoutView
    decreases node,
{
    match node.value {
        ElementView::Text(text) => flushed(
            words_placed(
                s,
                cache,
                width,
                words(text),
                Style::Roman,
                Weight::Normal,
                indent.saturating_add(1),
                None,
            ),
        ),
        ElementView::Tag { name, .. } => markup_laid(
            sources_laid(
                node.children,
                markup_laid(s, cache, width, "<"@, name, indent),
                cache,
                width,
                indent.saturating_add(2),
            ),
            cache,
            width,
            "</"@,
            name,
            indent,
        ),
    }
}

/// The state after a run of subtrees has been laid out as source.
pub open spec fn sources_laid(
    nodes: Seq<NodeView>,
    s: LayoutView,
    cache: Map<MeasureKeyView, Dimensions>,
    width: u32,
    indent: u32,
) -> LayoutView
    decreases nodes,
{
    if nodes.len() == 0 {
        s
    } else {
        source_laid(
            nodes.last(),
            sources_laid(nodes.drop_last(), s, cache, width, indent),
            cache,
            width,
            indent,
        )
    }
}

/// The state after a whole pass over `tree` in the given mode.
pub open spec fn laid_out(
    mode: LayoutMode,
    tree: NodeView,
    cache: Map<MeasureKeyView, Dimensions>,
    width: u32,
) -> LayoutView {
    match mode {
        LayoutMode::Rendered => node_laid(tree, initial_view(), cache, width),
        LayoutMode::Source => source_laid(tree, initial_view(), cache, width, 0),
    }
}

/// Why a layout pass failed.
#[derive(Clone, Copy, Debug, PartialEq, Eq, Structural)]
pub enum LayoutError {
    /// The cache holds no dimensions for some text that had to be placed.
    /// The engine's `missing` lists what has to be measured.
    MeasurementFailure,
}

/// An indentation offset fits the cursor's range.
proof fn lemma_indent_offset_fits(space_width: u32, indent: u32)
    ensures
        space_width * indent <= u64::MAX,
{
    assert(space_width * indent <= 0xffff_ffff * 0xffff_ffff) by (nonlinear_arith)
        requires
            0 <= space_width <= 0xffff_ffff,
            0 <= indent <= 0xffff_ffff,
    ;
}

impl Layout {
    /// A layout engine for the mode that `mode` names: `"source"` for the
    /// source view, anything else for rendered text.
    pub fn new(mode: String) -> (layout: Self)
        ensures
            layout@ == initial_view(),
            layout.mode == (if mode@ == "source"@ {
                LayoutMode::Source
            } else {
                LayoutMode::Rendered
            }),
    {
        let mode = if same_text(mode.as_str(), "source") {
            LayoutMode::Source
        } else {
            LayoutMode::Rendered
        };
        let layout = Layout {
            display_list: Vec::new(),
            missing: Vec::new(),
            entered: Vec::new(),
            x: 0,
            y: TOP_MARGIN,
            style: Style::Roman,
            weight: Weight::Normal,
            font_size: BASE_FONT_SIZE,
            mode,
            color: Color::Text,
            visible: true,
        };
        assert(layout@.display_list =~= Seq::empty());
        assert(layout@.missing =~= Seq::empty());
        assert(layout@.entered =~= Seq::empty());
        layout
    }

    /// The memoized dimensions of `text` set in the given style and size.
    pub fn cached_measure(
        cache: &MeasureCache,
        text: &str,
        style: Style,
        weight: Weight,
        font_size: u16,
    ) -> (r: Option<Dimensions>)
        ensures
            r == ({
                let key = MeasureKeyView { style, weight, text: text@, font_size };
                if cache@.dom().contains(key) {
                    Some(cache@[key])
                } else {
                    None
                }
            }),
    {
        cache.get(&MeasureKey::new(style, weight, text, font_size))
    }

    /// Breaks the line.
    pub fn flush(&mut self)
        ensures
            final(self)@ == flushed(old(self)@),
            final(self).mode == old(self).mode,
    {
        self.y = self.y.saturating_add(LINE_HEIGHT);
        self.x = 0;
    }

    /// Puts the engine back into the state that a pass starts from.
    pub fn reset(&mut self)
        ensures
            final(self)@ == initial_view(),
            final(self).mode == old(self).mode,
    {
        self.display_list.clear();
        self.missing.clear();
        self.entered.clear();
        self.x = 0;
        self.y = TOP_MARGIN;
        self.style = Style::Roman;
        self.weight = Weight::Normal;
        self.font_size = BASE_FONT_SIZE;
        self.color = Color::Text;
        self.visible = true;
        assert(self@.display_list =~= Seq::empty());
        assert(self@.missing =~= Seq::empty());
        assert(self@.entered =~= Seq::empty());
    }

    /// Notes `key` as missing, unless it is noted already.
    pub fn note_missing(&mut self, key: MeasureKey)
        ensures
            final(self)@ == (LayoutView { missing: noted(old(self)@.missing, key@), ..old(self)@ }),
            final(self).mode == old(self).mode,
    {
        let mut i: usize = 0;
        while i < self.missing.len()
            invariant
                i <= self.missing.len(),
                forall|j: int| 0 <= j < i ==> key_views(self.missing@)[j] != key@,
            decreases self.missing.len() - i,
        {
            if self.missing[i].same(&key) {
                assert(key_views(self.missing@)[i as int] == key@);
                return ;
            }
            i += 1;
        }
        let ghost before = key_views(self.missing@);
        self.missing.push(key);
        assert(key_views(self.missing@) =~= before.push(key@));
    }

    /// Handles one word: measures it, wraps the line if it would reach
    /// `width`, and places it. `style` and `weight` select the face, `indent`
    /// counts the spaces that lines are indented by, and `color` overrides the
    /// current colour.
    pub fn word(
        &mut self,
        cache: &MeasureCache,
        width: u32,
        word: &str,
        style: Style,
        weight: Weight,
        indent: u32,
        color: Option<Color>,
    )
        ensures
            final(self)@ == word_placed(old(self)@, cache@, width, word@, style, weight, indent, color),
            final(self).mode == old(self).mode,
    {
        let space_measure = Self::cached_measure(cache, " ", style, weight, self.font_size);
        let measure = Self::cached_measure(cache, word, style, weight, self.font_size);
        match (space_measure, measure) {
            (Some(space), Some(dims)) => {
                proof {
                    lemma_indent_offset_fits(space.width, indent);
                }
                let offset: u64 = (space.width as u64) * (indent as u64);
                if self.x == 0 {
                    self.x = if offset <= width as u64 {
                        offset
                    } else {
                        width as u64
                    };
                }
                if self.x.saturating_add(dims.width as u64) >= width as u64 {
                    self.y = self.y.saturating_add(LINE_HEIGHT);
                    self.x = offset;
                }
                let ghost before = entry_views(self.display_list@);
                let entry = DisplayEntry {
                    x: self.x,
                    y: self.y,
                    font_size: self.font_size,
                    text: word.to_owned(),
                    dimensions: dims,
                    font: font_variant(style, weight),
                    color: match color {
                        Some(c) => c,
                        None => self.color,
                    },
                };
                self.display_list.push(entry);
                assert(entry_views(self.display_list@) =~= before.push(entry@));
                self.x = self.x.saturating_add(dims.width as u64 + space.width as u64);
            },
            _ => {
                if space_measure.is_none() {
                    self.note_missing(MeasureKey::new(style, weight, " ", self.font_size));
                }
                if measure.is_none() {
                    self.note_missing(MeasureKey::new(style, weight, word, self.font_size));
                }
            },
        }
    }

    /// Handles a run of words, one after the other.
    pub fn place_words(
        &mut self,
        cache: &MeasureCache,
        width: u32,
        words: &Vec<String>,
        style: Style,
        weight: Weight,
        indent: u32,
        color: Option<Color>,
    )
        ensures
            final(self)@ == words_placed(
                old(self)@,
                cache@,
                width,
                texts(words@),
                style,
                weight,
                indent,
                color,
            ),
            final(self).mode == old(self).mode,
    {
        let ghost all = texts(words@);
        assert(all.take(0) =~= Seq::empty());
        let mut i: usize = 0;
        while i < words.len()
            invariant
                i <= words.len(),
                all == texts(words@),
                self.mode == old(self).mode,
                self@ == words_placed(
                    old(self)@,
                    cache@,
                    width,
                    all.take(i as int),
                    style,
                    weight,
                    indent,
                    color,
                ),
            decreases words.len() - i,
        {
            assert(all.take(i + 1).drop_last() =~= all.take(i as int));
            assert(all.take(i + 1).last() == words@[i as int]@);
            self.word(cache, width, words[i].as_str(), style, weight, indent, color);
            i += 1;
        }
        assert(all.take(words.len() as int) =~= all);
    }

    /// The style context that is in force.
    pub fn context(&self) -> (c: StyleContext)
        ensures
            c == context_of(self@),
    {
        StyleContext {
            style: self.style,
            weight: self.weight,
            font_size: self.font_size,
            color: self.color,
            visible: self.visible,
        }
    }

    /// Enters a tag: saves the style context, and then applies what the
    /// tag's name does to it.
    pub fn open_tag(&mut self, tag: &str)
        ensures
            final(self)@ == tag_opened(old(self)@, tag_kind_of(tag@)),
            final(self).mode == old(self).mode,
    {
        let saved = self.context();
        self.entered.push(saved);
        match tag_kind(tag) {
            TagKind::Italic => {
                self.style = Style::Italic;
            },
            TagKind::Bold => {
                self.weight = Weight::Bold;
            },
            TagKind::Small => {
                self.font_size = self.font_size.wrapping_sub(2);
            },
            TagKind::Big => {
                self.font_size = self.font_size.wrapping_add(4);
            },
            TagKind::Heading => {
                self.flush();
                self.font_size = self.font_size.wrapping_add(16);
                self.flush();
            },
            TagKind::Break => {
                self.flush();
            },
            TagKind::Mono => {
                self.style = Style::Mono;
            },
            TagKind::Anchor => {
                self.color = Color::Link;
            },
            TagKind::Hidden => {
                self.visible = false;
            },
            TagKind::Other => {},
        }
    }

    /// Leaves a tag: puts the style context back that was saved when the
    /// tag was entered. Where none was saved, the tag's name says what is
    /// put back: the plain slant, weight, colour and visibility, and the
    /// font size from before a tag of that name.
    pub fn close_tag(&mut self, tag: &str)
        ensures
            final(self)@ == tag_closed(old(self)@, tag_kind_of(tag@)),
            final(self).mode == old(self).mode,
    {
        match self.entered.pop() {
            Some(saved) => {
                assert(self.entered@ =~= old(self).entered@.drop_last());
                self.style = saved.style;
                self.weight = saved.weight;
                self.font_size = saved.font_size;
                self.color = saved.color;
                self.visible = saved.visible;
            },
            None => {
                match tag_kind(tag) {
                    TagKind::Italic => {
                        self.style = Style::Roman;
                    },
                    TagKind::Bold => {
                        self.weight = Weight::Normal;
                    },
                    TagKind::Small => {
                        self.font_size = self.font_size.wrapping_add(2);
                    },
                    TagKind::Big => {
                        self.font_size = self.font_size.wrapping_sub(4);
                    },
                    TagKind::Heading => {
                        self.font_size = self.font_size.wrapping_sub(16);
                    },
                    TagKind::Break => {},
                    TagKind::Mono => {
                        self.style = Style::Roman;
                    },
                    TagKind::Anchor => {
                        self.color = Color::Text;
                    },
                    TagKind::Hidden => {
                        self.visible = true;
                    },
                    TagKind::Other => {},
                }
            },
        }
    }

    /// Lays out a run of text whose character references have been resolved.
    pub fn text(&mut self, cache: &MeasureCache, width: u32, decoded: &str)
        ensures
            final(self)@ == text_laid(old(self)@, cache@, width, decoded@),
            final(self).mode == old(self).mode,
    {
        if !self.visible {
            return ;
        }
        let words = split_whitespace(decoded);
        let style = self.style;
        let weight = self.weight;
        self.place_words(cache, width, &words, style, weight, 0, None);
    }

    /// Lays out the subtree of the node `index` as rendered text.
    pub fn recurse(&mut self, cache: &MeasureCache, tree: &Tree, index: usize, width: u32)
        requires
            index < tree.nodes().len(),
        ensures
            final(self)@ == node_laid(subtree(tree.nodes(), index as int), old(self)@, cache@, width),
            final(self).mode == old(self).mode,
        decreases tree.nodes().len() - index,
    {
        let node = tree.node(index);
        let ghost nodes = tree.nodes();
        match &node.value {
            Element::Text(text) => {
                if !self.visible {
                    return ;
                }
                let decoded = decode_entities(text.as_str());
                self.text(cache, width, decoded.as_str());
            },
            Element::Tag(tag) => {
                self.open_tag(tag.tag.as_str());
                let ghost opened = self@;
                let ghost kids = node.children@;
                assert(kids.take(0) =~= Seq::empty());
                let mut j: usize = 0;
                while j < node.children.len()
                    invariant
                        j <= node.children.len(),
                        index < nodes.len(),
                        nodes == tree.nodes(),
                        arena_well_formed(nodes),
                        *node == nodes[index as int],
                        kids == node.children@,
                        self.mode == old(self).mode,
                        self@ == nodes_laid(
                            forest(nodes, kids.take(j as int), index as int),
                            opened,
                            cache@,
                            width,
                        ),
                    decreases node.children.len() - j,
                {
                    let child: usize = node.children[j];
                    proof {
                        lemma_forest_next(nodes, index as int, j as int);
                    }
                    self.recurse(cache, tree, child, width);
                    j += 1;
                }
                assert(kids.take(kids.len() as int) =~= kids);
                self.close_tag(tag.tag.as_str());
            },
        }
    }

    /// Places the three words of a tag and breaks the line.
    fn markup(&mut self, cache: &MeasureCache, width: u32, bracket: &str, name: &str, indent: u32)
        ensures
            final(self)@ == markup_laid(old(self)@, cache@, width, bracket@, name@, indent),
            final(self).mode == old(self).mode,
    {
        self.word(cache, width, bracket, Style::Roman, Weight::Bold, indent, None);
        self.word(cache, width, name, Style::Roman, Weight::Bold, indent, Some(Color::Markup));
        self.word(cache, width, ">", Style::Roman, Weight::Bold, indent, None);
        self.flush();
    }

    /// Lays out the subtree of the node `index` as source, `indent` levels in.
    pub fn recurse_source(
        &mut self,
        cache: &MeasureCache,
        tree: &Tree,
        index: usize,
        width: u32,
        indent: u32,
    )
        requires
            index < tree.nodes().len(),
        ensures
            final(self)@ == source_laid(
                subtree(tree.nodes(), index as int),
                old(self)@,
                cache@,
                width,
                indent,
            ),
            final(self).mode == old(self).mode,
        decreases tree.nodes().len() - index,
    {
        let node = tree.node(index);
        let ghost nodes = tree.nodes();
        match &node.value {
            Element::Text(text) => {
                let words = split_whitespace(text.as_str());
                self.place_words(
                    cache,
                    width,
                    &words,
                    Style::Roman,
                    Weight::Normal,
                    indent.saturating_add(1),
                    None,
                );
                self.flush();
            },
            Element::Tag(tag) => {
                self.markup(cache, width, "<", tag.tag.as_str(), indent);
                let ghost opened = self@;
                let ghost kids = node.children@;
                assert(kids.take(0) =~= Seq::empty());
                let inner: u32 = indent.saturating_add(2);
                let mut j: usize = 0;
                while j < node.children.len()
                    invariant
                        j <= node.children.len(),
                        index < nodes.len(),
                        nodes == tree.nodes(),
                        arena_well_formed(nodes),
                        *node == nodes[index as int],
                        kids == node.children@,
                        self.mode == old(self).mode,
                        self@ == sources_laid(
                            forest(nodes, kids.take(j as int), index as int),
                            opened,
                            cache@,
                            width,
                            inner,
                        ),
                    decreases node.children.len() - j,
                {
                    let child: usize = node.children[j];
                    proof {
                        lemma_forest_next(nodes, index as int, j as int);
                    }
                    self.recurse_source(cache, tree, child, width, inner);
                    j += 1;
                }
                assert(kids.take(kids.len() as int) =~= kids);
                self.markup(cache, width, "</", tag.tag.as_str(), indent);
            },
        }
    }

    /// Lays out the document `tree` for lines of the width `width`, from
    /// the measurements that `cache` holds. The pass starts from a fresh
    /// state every time. It fails where a measurement was missing; `missing`
    /// then lists each of them once.
    pub fn layout(&mut self, cache: &MeasureCache, tree: &Tree, width: u32) -> (r: Result<
        (),
        LayoutError,
    >)
        ensures
            final(self)@ == laid_out(old(self).mode, tree@, cache@, width),
            final(self).mode == old(self).mode,
            r is Ok <==> final(self)@.missing.len() == 0,
            r is Err ==> r == Err::<(), LayoutError>(LayoutError::MeasurementFailure),
    {
        self.reset();
        let root: usize = tree.root();
        match self.mode {
            LayoutMode::Source => {
                self.recurse_source(cache, tree, root, width, 0);
            },
            LayoutMode::Rendered => {
                self.recurse(cache, tree, root, width);
            },
        }
        if self.missing.len() == 0 {
            Ok(())
        } else {
            Err(LayoutError::MeasurementFailure)
        }
    }
}

} // verus!
