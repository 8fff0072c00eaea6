//! What holds of every layout pass.

use crate::dom::{ElementView, NodeView};
use crate::layout::{
    context_of, initial_view, laid_out, markup_laid, node_laid, nodes_laid, source_laid,
    sources_laid, tag_opened, word_placed, words_placed, DisplayEntryView, LayoutMode,
    LayoutView, LINE_HEIGHT,
};
use crate::metrics::{Dimensions, MeasureKeyView};
use crate::style::{tag_kind_of, Color, Style, TagKind, Weight};
use crate::text::{decoded_entities, words};
use vstd::prelude::*;

verus! {

/// Placing words leaves the style context and the saved contexts alone.
pub proof fn lemma_words_keep_context(
    s: LayoutView,
    cache: Map<MeasureKeyView, Dimensions>,
    width: u32,
    words: Seq<Seq<char>>,
    style: Style,
    weight: Weight,
    indent: u32,
    color: Option<Color>,
)
    ensures
        context_of(words_placed(s, cache, width, words, style, weight, indent, color))
            == context_of(s),
        words_placed(s, cache, width, words, style, weight, indent, color).entered == s.entered,
    decreases words.len(),
{
    if words.len() > 0 {
        lemma_words_keep_context(s, cache, width, words.drop_last(), style, weight, indent, color);
    }
}

/// Style symmetry. Laying out a subtree leaves the style context as it was
/// before the subtree was entered, whatever tags the subtree holds and
/// however they nest, and so it leaves the saved contexts: what follows the
/// subtree is set in the slant, weight, font size, colour and visibility of
/// what stood before it.
pub proof fn lemma_style_restored(
    node: NodeView,
    s: LayoutView,
    cache: Map<MeasureKeyView, Dimensions>,
    width: u32,
)
    ensures
        context_of(node_laid(node, s, cache, width)) == context_of(s),
        node_laid(node, s, cache, width).entered == s.entered,
    decreases node,
{
    match node.value {
        ElementView::Text(text) => {
            lemma_words_keep_context(
                s,
                cache,
                width,
                words(decoded_entities(text)),
                s.style,
                s.weight,
                0,
                None,
            );
        },
        ElementView::Tag { name, .. } => {
            let opened = tag_opened(s, tag_kind_of(name));
            lemma_all_style_restored(node.children, opened, cache, width);
            assert(opened.entered.drop_last() =~= s.entered);
        },
    }
}

/// The same of a run of subtrees.
pub proof fn lemma_all_style_restored(
    nodes: Seq<NodeView>,
    s: LayoutView,
    cache: Map<MeasureKeyView, Dimensions>,
    width: u32,
)
    ensures
        context_of(nodes_laid(nodes, s, cache, width)) == context_of(s),
        nodes_laid(nodes, s, cache, width).entered == s.entered,
    decreases nodes,
{
    if nodes.len() > 0 {
        lemma_all_style_restored(nodes.drop_last(), s, cache, width);
        lemma_style_restored(
            nodes.last(),
            nodes_laid(nodes.drop_last(), s, cache, width),
            cache,
            width,
        );
    }
}

/// While text is hidden, a subtree places nothing and asks for no
/// measurement, whatever it holds.
pub proof fn lemma_hidden_stays_hidden(
    node: NodeView,
    s: LayoutView,
    cache: Map<MeasureKeyView, Dimensions>,
    width: u32,
)
    requires
        !s.visible,
    ensures
        node_laid(node, s, cache, width).display_list == s.display_list,
        node_laid(node, s, cache, width).missing == s.missing,
        !node_laid(node, s, cache, width).visible,
    decreases node,
{
    lemma_style_restored(node, s, cache, width);
    match node.value {
        ElementView::Text(_) => {},
        ElementView::Tag { name, .. } => {
            lemma_all_hidden_stay_hidden(node.children, tag_opened(s, tag_kind_of(name)), cache, width);
        },
    }
}

/// The same of a run of subtrees.
pub proof fn lemma_all_hidden_stay_hidden(
    nodes: Seq<NodeView>,
    s: LayoutView,
    cache: Map<MeasureKeyView, Dimensions>,
    width: u32,
)
    requires
        !s.visible,
    ensures
        nodes_laid(nodes, s, cache, width).display_list == s.display_list,
        nodes_laid(nodes, s, cache, width).missing == s.missing,
        !nodes_laid(nodes, s, cache, width).visible,
    decreases nodes,
{
    if nodes.len() > 0 {
        lemma_all_hidden_stay_hidden(nodes.drop_last(), s, cache, width);
        lemma_hidden_stays_hidden(
            nodes.last(),
            nodes_laid(nodes.drop_last(), s, cache, width),
            cache,
            width,
        );
    }
}

/// Visibility suppression. A `head`, `style` or `script` element adds
/// nothing to the display list and asks for no measurement, however many
/// words stand inside it and whatever elements it holds.
pub proof fn lemma_hidden_places_nothing(
    node: NodeView,
    s: LayoutView,
    cache: Map<MeasureKeyView, Dimensions>,
    width: u32,
)
    requires
        node.value matches ElementView::Tag { name, .. } && tag_kind_of(name) == TagKind::Hidden,
    ensures
        node_laid(node, s, cache, width).display_list == s.display_list,
        node_laid(node, s, cache, width).missing == s.missing,
{
    lemma_all_hidden_stay_hidden(node.children, tag_opened(s, TagKind::Hidden), cache, width);
}

/// The names of the tags that hide text.
pub proof fn lemma_hiding_names()
    ensures
        tag_kind_of("head"@) == TagKind::Hidden,
        tag_kind_of("style"@) == TagKind::Hidden,
        tag_kind_of("script"@) == TagKind::Hidden,
{
    reveal_strlit("i");
    reveal_strlit("em");
    reveal_strlit("b");
    reveal_strlit("strong");
    reveal_strlit("small");
    reveal_strlit("big");
    reveal_strlit("h1");
    reveal_strlit("br");
    reveal_strlit("br/");
    reveal_strlit("hr");
    reveal_strlit("hr/");
    reveal_strlit("p");
    reveal_strlit("code");
    reveal_strlit("pre");
    reveal_strlit("a");
    reveal_strlit("head");
    reveal_strlit("style");
    reveal_strlit("script");
    assert("head"@.len() == 4 && "head"@[0] == 'h' && "head"@[1] == 'e');
    assert("style"@.len() == 5 && "style"@[1] == 't');
    assert("script"@.len() == 6);
    assert("strong"@[1] == 't' && "strong"@[2] == 'r');
    assert("script"@[1] == 'c');
    assert("small"@[1] == 'm');
}

/// Every word of `words` and a space have their measurements in `cache`,
/// under the given style and font size.
pub open spec fn all_measured(
    cache: Map<MeasureKeyView, Dimensions>,
    words: Seq<Seq<char>>,
    style: Style,
    weight: Weight,
    font_size: u16,
) -> bool {
    &&& cache.dom().contains(MeasureKeyView { style, weight, text: " "@, font_size })
    &&& forall|i: int|
        0 <= i < words.len() ==> cache.dom().contains(
            MeasureKeyView { style, weight, text: #[trigger] words[i], font_size },
        )
}

/// The measured width of `word`.
pub open spec fn width_of(
    cache: Map<MeasureKeyView, Dimensions>,
    word: Seq<char>,
    style: Style,
    weight: Weight,
    font_size: u16,
) -> u32 {
    cache[MeasureKeyView { style, weight, text: word, font_size }].width
}

/// The wrap rule, in sums that are not cut off. On a line that is not
/// indented, with the word and a space measured, and as long as the cursor
/// stays within its range: a word that would reach the line width from the
/// cursor is placed at the left margin one line height further down, any
/// other word at the cursor; and the cursor is left on the word's line,
/// behind the word and a space. The line height is the same for every font
/// size.
pub proof fn lemma_word_wraps(
    s: LayoutView,
    cache: Map<MeasureKeyView, Dimensions>,
    width: u32,
    word: Seq<char>,
    style: Style,
    weight: Weight,
    color: Option<Color>,
)
    requires
        all_measured(cache, seq![word], style, weight, s.font_size),
        s.y + LINE_HEIGHT <= u64::MAX,
        s.x + width_of(cache, word, style, weight, s.font_size) + width_of(
            cache,
            " "@,
            style,
            weight,
            s.font_size,
        ) <= u64::MAX,
    ensures
        ({
            let after = word_placed(s, cache, width, word, style, weight, 0, color);
            let w = width_of(cache, word, style, weight, s.font_size);
            let space = width_of(cache, " "@, style, weight, s.font_size);
            let entry = after.display_list.last();
            &&& after.display_list == s.display_list.push(entry)
            &&& entry.text == word
            &&& s.x + w >= width ==> entry.x == 0 && entry.y == s.y + LINE_HEIGHT
            &&& s.x + w < width ==> entry.x == s.x && entry.y == s.y
            &&& after.x == entry.x + w + space
            &&& after.y == entry.y
        }),
{
    assert(seq![word][0] == word);
    assert(cache.dom().contains(
        MeasureKeyView { style, weight, text: seq![word][0], font_size: s.font_size },
    ));
}

/// Wrap determinism. Where a word lands depends on the words before it only
/// through their measured widths, on the width of a space, on the line
/// width and on where the cursor started: two runs of words that agree in
/// these are placed at the same coordinates, one entry for each word, and
/// leave the cursor at the same place.
pub proof fn lemma_placement_depends_on_widths(
    a: LayoutView,
    b: LayoutView,
    cache_a: Map<MeasureKeyView, Dimensions>,
    cache_b: Map<MeasureKeyView, Dimensions>,
    width: u32,
    words_a: Seq<Seq<char>>,
    words_b: Seq<Seq<char>>,
    style_a: Style,
    weight_a: Weight,
    style_b: Style,
    weight_b: Weight,
    indent: u32,
)
    requires
        a.x == b.x,
        a.y == b.y,
        words_a.len() == words_b.len(),
        all_measured(cache_a, words_a, style_a, weight_a, a.font_size),
        all_measured(cache_b, words_b, style_b, weight_b, b.font_size),
        width_of(cache_a, " "@, style_a, weight_a, a.font_size) == width_of(
            cache_b,
            " "@,
            style_b,
            weight_b,
            b.font_size,
        ),
        forall|i: int|
            0 <= i < words_a.len() ==> width_of(cache_a, words_a[i], style_a, weight_a, a.font_size)
                == width_of(cache_b, words_b[i], style_b, weight_b, b.font_size),
    ensures
        ({
            let ra = words_placed(a, cache_a, width, words_a, style_a, weight_a, indent, None);
            let rb = words_placed(b, cache_b, width, words_b, style_b, weight_b, indent, None);
            &&& ra.x == rb.x
            &&& ra.y == rb.y
            &&& ra.display_list.len() == a.display_list.len() + words_a.len()
            &&& rb.display_list.len() == b.display_list.len() + words_b.len()
            &&& ra.display_list.take(a.display_list.len() as int) == a.display_list
            &&& rb.display_list.take(b.display_list.len() as int) == b.display_list
            &&& forall|k: int|
                #![trigger ra.display_list.skip(a.display_list.len() as int)[k]]
                0 <= k < words_a.len() ==> {
                    let at_a = ra.display_list.skip(a.display_list.len() as int)[k];
                    let at_b = rb.display_list.skip(b.display_list.len() as int)[k];
                    at_a.x == at_b.x && at_a.y == at_b.y
                }
        }),
    decreases words_a.len(),
{
    if words_a.len() > 0 {
        let front_a = words_a.drop_last();
        let front_b = words_b.drop_last();
        let n = words_a.len() - 1;
        assert forall|i: int| 0 <= i < front_a.len() implies cache_a.dom().contains(
            MeasureKeyView {
                style: style_a,
                weight: weight_a,
                text: #[trigger] front_a[i],
                font_size: a.font_size,
            },
        ) by {
            assert(front_a[i] == words_a[i]);
        }
        assert forall|i: int| 0 <= i < front_b.len() implies cache_b.dom().contains(
            MeasureKeyView {
                style: style_b,
                weight: weight_b,
                text: #[trigger] front_b[i],
                font_size: b.font_size,
            },
        ) by {
            assert(front_b[i] == words_b[i]);
        }
        assert forall|i: int| 0 <= i < front_a.len() implies width_of(
            cache_a,
            front_a[i],
            style_a,
            weight_a,
            a.font_size,
        ) == width_of(cache_b, front_b[i], style_b, weight_b, b.font_size) by {
            assert(front_a[i] == words_a[i]);
            assert(front_b[i] == words_b[i]);
        }
        lemma_placement_depends_on_widths(
            a,
            b,
            cache_a,
            cache_b,
            width,
            front_a,
            front_b,
            style_a,
            weight_a,
            style_b,
            weight_b,
            indent,
        );
        lemma_words_keep_context(a, cache_a, width, front_a, style_a, weight_a, indent, None);
        lemma_words_keep_context(b, cache_b, width, front_b, style_b, weight_b, indent, None);
        assert(words_a.last() == words_a[n]);
        assert(words_b.last() == words_b[n]);
        let fa = words_placed(a, cache_a, width, front_a, style_a, weight_a, indent, None);
        let fb = words_placed(b, cache_b, width, front_b, style_b, weight_b, indent, None);
        let ra = words_placed(a, cache_a, width, words_a, style_a, weight_a, indent, None);
        let rb = words_placed(b, cache_b, width, words_b, style_b, weight_b, indent, None);
        let base_a = a.display_list.len() as int;
        let base_b = b.display_list.len() as int;
        assert(ra.display_list.take(base_a) =~= fa.display_list.take(base_a));
        assert(rb.display_list.take(base_b) =~= fb.display_list.take(base_b));
        assert forall|k: int|
            #![trigger ra.display_list.skip(base_a)[k]]
            0 <= k < words_a.len() implies {
            let at_a = ra.display_list.skip(base_a)[k];
            let at_b = rb.display_list.skip(base_b)[k];
            at_a.x == at_b.x && at_a.y == at_b.y
        } by {
            if k < n {
                assert(ra.display_list.skip(base_a)[k] == fa.display_list.skip(base_a)[k]);
                assert(rb.display_list.skip(base_b)[k] == fb.display_list.skip(base_b)[k]);
            }
        }
    } else {
        assert(a.display_list.take(a.display_list.len() as int) =~= a.display_list);
        assert(b.display_list.take(b.display_list.len() as int) =~= b.display_list);
    }
}

/// Two passes over one document stand at the same point: `second`, made
/// with the measurements `fuller`, is in the same style context as `first`,
/// with the same contexts saved, and has found nothing missing that `first`
/// did not miss too.
pub open spec fn follows(
    first: LayoutView,
    second: LayoutView,
    fuller: Map<MeasureKeyView, Dimensions>,
) -> bool {
    &&& context_of(first) == context_of(second)
    &&& first.entered == second.entered
    &&& forall|i: int|
        0 <= i < second.missing.len() ==> first.missing.contains(#[trigger] second.missing[i])
            && !fuller.dom().contains(second.missing[i])
}

/// `fuller` holds every measurement that `cache` holds.
pub open spec fn extends(
    cache: Map<MeasureKeyView, Dimensions>,
    fuller: Map<MeasureKeyView, Dimensions>,
) -> bool {
    forall|k: MeasureKeyView| cache.dom().contains(k) ==> fuller.dom().contains(k)
}

/// A word keeps the second pass following the first.
proof fn lemma_word_follows(
    a: LayoutView,
    b: LayoutView,
    cache: Map<MeasureKeyView, Dimensions>,
    fuller: Map<MeasureKeyView, Dimensions>,
    width: u32,
    word: Seq<char>,
    style: Style,
    weight: Weight,
    indent: u32,
    color: Option<Color>,
)
    requires
        extends(cache, fuller),
        follows(a, b, fuller),
    ensures
        follows(
            word_placed(a, cache, width, word, style, weight, indent, color),
            word_placed(b, fuller, width, word, style, weight, indent, color),
            fuller,
        ),
{
    let space_key = MeasureKeyView { style, weight, text: " "@, font_size: a.font_size };
    let word_key = MeasureKeyView { style, weight, text: word, font_size: a.font_size };
    let a1 = word_placed(a, cache, width, word, style, weight, indent, color);
    let b1 = word_placed(b, fuller, width, word, style, weight, indent, color);
    assert forall|i: int| 0 <= i < a.missing.len() implies a1.missing.contains(
        #[trigger] a.missing[i],
    ) by {
        let k = a.missing[i];
        assert(a.missing.push(space_key)[i] == k);
        assert(a.missing.push(word_key)[i] == k);
        assert(a.missing.push(space_key).push(word_key)[i] == k);
    }
    if !fuller.dom().contains(space_key) {
        let n = a.missing.len() as int;
        if !a.missing.contains(space_key) {
            assert(a.missing.push(space_key)[n] == space_key);
            assert(a.missing.push(space_key).push(word_key)[n] == space_key);
        }
        assert(a1.missing.contains(space_key));
    }
    if !fuller.dom().contains(word_key) {
        let mid = if cache.dom().contains(space_key) || a.missing.contains(space_key) {
            a.missing
        } else {
            a.missing.push(space_key)
        };
        if !mid.contains(word_key) {
            assert(mid.push(word_key)[mid.len() as int] == word_key);
        }
        assert(a1.missing.contains(word_key));
    }
    assert forall|i: int| 0 <= i < b1.missing.len() implies a1.missing.contains(
        #[trigger] b1.missing[i],
    ) && !fuller.dom().contains(b1.missing[i]) by {
        let k = b1.missing[i];
        if i < b.missing.len() {
            assert(k == b.missing[i]);
            assert(a.missing.contains(k));
            let j = choose|j: int| 0 <= j < a.missing.len() && a.missing[j] == k;
            assert(a1.missing.contains(a.missing[j]));
        }
    }
}

/// A run of words keeps the second pass following the first.
proof fn lemma_words_follow(
    a: LayoutView,
    b: LayoutView,
    cache: Map<MeasureKeyView, Dimensions>,
    fuller: Map<MeasureKeyView, Dimensions>,
    width: u32,
    words: Seq<Seq<char>>,
    style: Style,
    weight: Weight,
    indent: u32,
    color: Option<Color>,
)
    requires
        extends(cache, fuller),
        follows(a, b, fuller),
    ensures
        follows(
            words_placed(a, cache, width, words, style, weight, indent, color),
            words_placed(b, fuller, width, words, style, weight, indent, color),
            fuller,
        ),
    decreases words.len(),
{
    if words.len() > 0 {
        lemma_words_follow(
            a,
            b,
            cache,
            fuller,
            width,
            words.drop_last(),
            style,
            weight,
            indent,
            color,
        );
        lemma_word_follows(
            words_placed(a, cache, width, words.drop_last(), style, weight, indent, color),
            words_placed(b, fuller, width, words.drop_last(), style, weight, indent, color),
            cache,
            fuller,
            width,
            words.last(),
            style,
            weight,
            indent,
            color,
        );
    }
}

/// A rendered subtree keeps the second pass following the first.
proof fn lemma_node_follows(
    node: NodeView,
    a: LayoutView,
    b: LayoutView,
    cache: Map<MeasureKeyView, Dimensions>,
    fuller: Map<MeasureKeyView, Dimensions>,
    width: u32,
)
    requires
        extends(cache, fuller),
        follows(a, b, fuller),
    ensures
        follows(node_laid(node, a, cache, width), node_laid(node, b, fuller, width), fuller),
    decreases node,
{
    match node.value {
        ElementView::Text(text) => {
            lemma_words_follow(
                a,
                b,
                cache,
                fuller,
                width,
                words(decoded_entities(text)),
                a.style,
                a.weight,
                0,
                None,
            );
        },
        ElementView::Tag { name, .. } => {
            let kind = tag_kind_of(name);
            lemma_nodes_follow(
                node.children,
                tag_opened(a, kind),
                tag_opened(b, kind),
                cache,
                fuller,
                width,
            );
        },
    }
}

/// A run of rendered subtrees keeps the second pass following the first.
proof fn lemma_nodes_follow(
    nodes: Seq<NodeView>,
    a: LayoutView,
    b: LayoutView,
    cache: Map<MeasureKeyView, Dimensions>,
    fuller: Map<MeasureKeyView, Dimensions>,
    width: u32,
)
    requires
        extends(cache, fuller),
        follows(a, b, fuller),
    ensures
        follows(nodes_laid(nodes, a, cache, width), nodes_laid(nodes, b, fuller, width), fuller),
    decreases nodes,
{
    if nodes.len() > 0 {
        lemma_nodes_follow(nodes.drop_last(), a, b, cache, fuller, width);
        lemma_node_follows(
            nodes.last(),
            nodes_laid(nodes.drop_last(), a, cache, width),
            nodes_laid(nodes.drop_last(), b, fuller, width),
            cache,
            fuller,
            width,
        );
    }
}

/// The words of a tag keep the second pass following the first.
proof fn lemma_markup_follows(
    a: LayoutView,
    b: LayoutView,
    cache: Map<MeasureKeyView, Dimensions>,
    fuller: Map<MeasureKeyView, Dimensions>,
    width: u32,
    bracket: Seq<char>,
    name: Seq<char>,
    indent: u32,
)
    requires
        extends(cache, fuller),
        follows(a, b, fuller),
    ensures
        follows(
            markup_laid(a, cache, width, bracket, name, indent),
            markup_laid(b, fuller, width, bracket, name, indent),
            fuller,
        ),
{
    let bold = Weight::Bold;
    let roman = Style::Roman;
    lemma_word_follows(a, b, cache, fuller, width, bracket, roman, bold, indent, None);
    let a1 = word_placed(a, cache, width, bracket, roman, bold, indent, None);
    let b1 = word_placed(b, fuller, width, bracket, roman, bold, indent, None);
    let markup = Some(Color::Markup);
    lemma_word_follows(a1, b1, cache, fuller, width, name, roman, bold, indent, markup);
    let a2 = word_placed(a1, cache, width, name, roman, bold, indent, markup);
    let b2 = word_placed(b1, fuller, width, name, roman, bold, indent, markup);
    lemma_word_follows(a2, b2, cache, fuller, width, ">"@, roman, bold, indent, None);
}

/// A subtree shown as source keeps the second pass following the first.
proof fn lemma_source_follows(
    node: NodeView,
    a: LayoutView,
    b: LayoutView,
    cache: Map<MeasureKeyView, Dimensions>,
    fuller: Map<MeasureKeyView, Dimensions>,
    width: u32,
    indent: u32,
)
    requires
        extends(cache, fuller),
        follows(a, b, fuller),
    ensures
        follows(
            source_laid(node, a, cache, width, indent),
            source_laid(node, b, fuller, width, indent),
            fuller,
        ),
    decreases node,
{
    match node.value {
        ElementView::Text(text) => {
            lemma_words_follow(
                a,
                b,
                cache,
                fuller,
                width,
                words(text),
                Style::Roman,
                Weight::Normal,
                indent.saturating_add(1),
                None,
            );
        },
        ElementView::Tag { name, .. } => {
            lemma_markup_follows(a, b, cache, fuller, width, "<"@, name, indent);
            let a1 = markup_laid(a, cache, width, "<"@, name, indent);
            let b1 = markup_laid(b, fuller, width, "<"@, name, indent);
            let inner = indent.saturating_add(2);
            lemma_sources_follow(node.children, a1, b1, cache, fuller, width, inner);
            lemma_markup_follows(
                sources_laid(node.children, a1, cache, width, inner),
                sources_laid(node.children, b1, fuller, width, inner),
                cache,
                fuller,
                width,
                "</"@,
                name,
                indent,
            );
        },
    }
}

/// A run of subtrees shown as source keeps the second pass following the
/// first.
proof fn lemma_sources_follow(
    nodes: Seq<NodeView>,
    a: LayoutView,
    b: LayoutView,
    cache: Map<MeasureKeyView, Dimensions>,
    fuller: Map<MeasureKeyView, Dimensions>,
    width: u32,
    indent: u32,
)
    requires
        extends(cache, fuller),
        follows(a, b, fuller),
    ensures
        follows(
            sources_laid(nodes, a, cache, width, indent),
            sources_laid(nodes, b, fuller, width, indent),
            fuller,
        ),
    decreases nodes,
{
    if nodes.len() > 0 {
        lemma_sources_follow(nodes.drop_last(), a, b, cache, fuller, width, indent);
        lemma_source_follows(
            nodes.last(),
            sources_laid(nodes.drop_last(), a, cache, width, indent),
            sources_laid(nodes.drop_last(), b, fuller, width, indent),
            cache,
            fuller,
            width,
            indent,
        );
    }
}

/// Measuring what a pass missed is enough. If a pass over `tree` with the
/// measurements `cache` fails, and `fuller` holds, besides all of `cache`,
/// every measurement that the pass lists as missing, then the pass with
/// `fuller` misses nothing.
pub proof fn lemma_measuring_the_missing_suffices(
    mode: LayoutMode,
    tree: NodeView,
    cache: Map<MeasureKeyView, Dimensions>,
    fuller: Map<MeasureKeyView, Dimensions>,
    width: u32,
)
    requires
        extends(cache, fuller),
        forall|i: int|
            0 <= i < laid_out(mode, tree, cache, width).missing.len() ==> fuller.dom().contains(
                #[trigger] laid_out(mode, tree, cache, width).missing[i],
            ),
    ensures
        laid_out(mode, tree, fuller, width).missing.len() == 0,
{
    let start = initial_view();
    match mode {
        LayoutMode::Rendered => {
            lemma_node_follows(tree, start, start, cache, fuller, width);
        },
        LayoutMode::Source => {
            lemma_source_follows(tree, start, start, cache, fuller, width, 0);
        },
    }
    let first = laid_out(mode, tree, cache, width);
    let second = laid_out(mode, tree, fuller, width);
    if second.missing.len() > 0 {
        let k = second.missing[0];
        assert(first.missing.contains(k));
        let j = choose|j: int| 0 <= j < first.missing.len() && first.missing[j] == k;
        assert(fuller.dom().contains(first.missing[j]));
        assert(false);
    }
}

/// The display list runs from top to bottom, and nothing in it stands
/// below the cursor.
pub open spec fn top_down(s: LayoutView) -> bool {
    &&& forall|i: int, j: int|
        0 <= i <= j < s.display_list.len() ==> (#[trigger] s.display_list[i]).y
            <= (#[trigger] s.display_list[j]).y
    &&& forall|i: int| 0 <= i < s.display_list.len() ==> (#[trigger] s.display_list[i]).y <= s.y
}

/// A word keeps the display list running from top to bottom.
proof fn lemma_word_top_down(
    s: LayoutView,
    cache: Map<MeasureKeyView, Dimensions>,
    width: u32,
    word: Seq<char>,
    style: Style,
    weight: Weight,
    indent: u32,
    color: Option<Color>,
)
    requires
        top_down(s),
    ensures
        top_down(word_placed(s, cache, width, word, style, weight, indent, color)),
{
    let after = word_placed(s, cache, width, word, style, weight, indent, color);
    let n = s.display_list.len() as int;
    assert forall|i: int| 0 <= i < after.display_list.len() implies (
    #[trigger] after.display_list[i]).y <= after.y by {
        if i < n {
            assert(after.display_list[i] == s.display_list[i]);
        }
    }
    assert forall|i: int, j: int| 0 <= i <= j < after.display_list.len() implies (
    #[trigger] after.display_list[i]).y <= (#[trigger] after.display_list[j]).y by {
        if j < n {
            assert(after.display_list[i] == s.display_list[i]);
            assert(after.display_list[j] == s.display_list[j]);
        } else if i < n {
            assert(after.display_list[i] == s.display_list[i]);
        }
    }
}

/// A run of words keeps the display list running from top to bottom.
proof fn lemma_words_top_down(
    s: LayoutView,
    cache: Map<MeasureKeyView, Dimensions>,
    width: u32,
    words: Seq<Seq<char>>,
    style: Style,
    weight: Weight,
    indent: u32,
    color: Option<Color>,
)
    requires
        top_down(s),
    ensures
        top_down(words_placed(s, cache, width, words, style, weight, indent, color)),
    decreases words.len(),
{
    if words.len() > 0 {
        lemma_words_top_down(s, cache, width, words.drop_last(), style, weight, indent, color);
        lemma_word_top_down(
            words_placed(s, cache, width, words.drop_last(), style, weight, indent, color),
            cache,
            width,
            words.last(),
            style,
            weight,
            indent,
            color,
        );
    }
}

/// A rendered subtree keeps the display list running from top to bottom.
proof fn lemma_node_top_down(
    node: NodeView,
    s: LayoutView,
    cache: Map<MeasureKeyView, Dimensions>,
    width: u32,
)
    requires
        top_down(s),
    ensures
        top_down(node_laid(node, s, cache, width)),
    decreases node,
{
    match node.value {
        ElementView::Text(text) => {
            lemma_words_top_down(
                s,
                cache,
                width,
                words(decoded_entities(text)),
                s.style,
                s.weight,
                0,
                None,
            );
        },
        ElementView::Tag { name, .. } => {
            lemma_nodes_top_down(node.children, tag_opened(s, tag_kind_of(name)), cache, width);
        },
    }
}

/// A run of rendered subtrees keeps the display list running from top to
/// bottom.
proof fn lemma_nodes_top_down(
    nodes: Seq<NodeView>,
    s: LayoutView,
    cache: Map<MeasureKeyView, Dimensions>,
    width: u32,
)
    requires
        top_down(s),
    ensures
        top_down(nodes_laid(nodes, s, cache, width)),
    decreases nodes,
{
    if nodes.len() > 0 {
        lemma_nodes_top_down(nodes.drop_last(), s, cache, width);
        lemma_node_top_down(
            nodes.last(),
            nodes_laid(nodes.drop_last(), s, cache, width),
            cache,
            width,
        );
    }
}

/// The words of a tag keep the display list running from top to bottom.
proof fn lemma_markup_top_down(
    s: LayoutView,
    cache: Map<MeasureKeyView, Dimensions>,
    width: u32,
    bracket: Seq<char>,
    name: Seq<char>,
    indent: u32,
)
    requires
        top_down(s),
    ensures
        top_down(markup_laid(s, cache, width, bracket, name, indent)),
{
    let bold = Weight::Bold;
    let roman = Style::Roman;
    lemma_word_top_down(s, cache, width, bracket, roman, bold, indent, None);
    let a = word_placed(s, cache, width, bracket, roman, bold, indent, None);
    lemma_word_top_down(a, cache, width, name, roman, bold, indent, Some(Color::Markup));
    let b = word_placed(a, cache, width, name, roman, bold, indent, Some(Color::Markup));
    lemma_word_top_down(b, cache, width, ">"@, roman, bold, indent, None);
}

/// A subtree shown as source keeps the display list running from top to
/// bottom.
proof fn lemma_source_top_down(
    node: NodeView,
    s: LayoutView,
    cache: Map<MeasureKeyView, Dimensions>,
    width: u32,
    indent: u32,
)
    requires
        top_down(s),
    ensures
        top_down(source_laid(node, s, cache, width, indent)),
    decreases node,
{
    match node.value {
        ElementView::Text(text) => {
            lemma_words_top_down(
                s,
                cache,
                width,
                words(text),
                Style::Roman,
                Weight::Normal,
                indent.saturating_add(1),
                None,
            );
        },
        ElementView::Tag { name, .. } => {
            lemma_markup_top_down(s, cache, width, "<"@, name, indent);
            let opened = markup_laid(s, cache, width, "<"@, name, indent);
            let inner = indent.saturating_add(2);
            lemma_sources_top_down(node.children, opened, cache, width, inner);
            lemma_markup_top_down(
                sources_laid(node.children, opened, cache, width, inner),
                cache,
                width,
                "</"@,
                name,
                indent,
            );
        },
    }
}

/// A run of subtrees shown as source keeps the display list running from
/// top to bottom.
proof fn lemma_sources_top_down(
    nodes: Seq<NodeView>,
    s: LayoutView,
    cache: Map<MeasureKeyView, Dimensions>,
    width: u32,
    indent: u32,
)
    requires
        top_down(s),
    ensures
        top_down(sources_laid(nodes, s, cache, width, indent)),
    decreases nodes,
{
    if nodes.len() > 0 {
        lemma_sources_top_down(nodes.drop_last(), s, cache, width, indent);
        lemma_source_top_down(
            nodes.last(),
            sources_laid(nodes.drop_last(), s, cache, width, indent),
            cache,
            width,
            indent,
        );
    }
}

/// The display list of a pass is in reading order from top to bottom: no
/// entry stands above one that was placed before it.
pub proof fn lemma_display_list_top_down(
    mode: LayoutMode,
    tree: NodeView,
    cache: Map<MeasureKeyView, Dimensions>,
    width: u32,
)
    ensures
        top_down(laid_out(mode, tree, cache, width)),
{
    match mode {
        LayoutMode::Rendered => lemma_node_top_down(tree, initial_view(), cache, width),
        LayoutMode::Source => lemma_source_top_down(tree, initial_view(), cache, width, 0),
    }
}

/// The texts of a run of display entries.
pub open spec fn entry_texts(entries: Seq<DisplayEntryView>) -> Seq<Seq<char>> {
    Seq::new(entries.len(), |i: int| entries[i].text)
}

/// The words that the subtree `node` shows as rendered text, in document
/// order: the words of its texts, their character references resolved, but
/// for the texts that stand under a tag that hides text.
pub open spec fn shown_words(node: NodeView, visible: bool) -> Seq<Seq<char>>
    decreases node,
{
    match node.value {
        ElementView::Text(text) => if visible {
            words(decoded_entities(text))
        } else {
            Seq::empty()
        },
        ElementView::Tag { name, .. } => all_shown_words(
            node.children,
            visible && tag_kind_of(name) != TagKind::Hidden,
        ),
    }
}

/// The words that a run of subtrees shows, in document order.
pub open spec fn all_shown_words(nodes: Seq<NodeView>, visible: bool) -> Seq<Seq<char>>
    decreases nodes,
{
    if nodes.len() == 0 {
        Seq::empty()
    } else {
        all_shown_words(nodes.drop_last(), visible) + shown_words(nodes.last(), visible)
    }
}

/// A run of words never shortens the list of what is missing; and where
/// nothing is missing after it, each of the words has been placed, in order.
proof fn lemma_words_show(
    s: LayoutView,
    cache: Map<MeasureKeyView, Dimensions>,
    width: u32,
    run: Seq<Seq<char>>,
    style: Style,
    weight: Weight,
    indent: u32,
    color: Option<Color>,
)
    ensures
        ({
            let after = words_placed(s, cache, width, run, style, weight, indent, color);
            &&& after.missing.len() >= s.missing.len()
            &&& after.missing.len() == 0 ==> entry_texts(after.display_list) == entry_texts(
                s.display_list,
            ) + run
        }),
    decreases run.len(),
{
    let after = words_placed(s, cache, width, run, style, weight, indent, color);
    if run.len() == 0 {
        assert(entry_texts(s.display_list) + run =~= entry_texts(s.display_list));
    } else {
        let front = run.drop_last();
        lemma_words_show(s, cache, width, front, style, weight, indent, color);
        let before = words_placed(s, cache, width, front, style, weight, indent, color);
        if after.missing.len() == 0 {
            assert(entry_texts(after.display_list) =~= entry_texts(before.display_list).push(
                run.last(),
            ));
            assert((entry_texts(s.display_list) + front).push(run.last()) =~= entry_texts(
                s.display_list,
            ) + run);
        }
    }
}

/// A subtree never shortens the list of what is missing; and where nothing
/// is missing after it, exactly the words that it shows have been placed,
/// in document order.
proof fn lemma_node_shows(
    node: NodeView,
    s: LayoutView,
    cache: Map<MeasureKeyView, Dimensions>,
    width: u32,
)
    ensures
        ({
            let after = node_laid(node, s, cache, width);
            &&& after.missing.len() >= s.missing.len()
            &&& after.missing.len() == 0 ==> entry_texts(after.display_list) == entry_texts(
                s.display_list,
            ) + shown_words(node, s.visible)
        }),
    decreases node,
{
    match node.value {
        ElementView::Text(text) => {
            if s.visible {
                lemma_words_show(
                    s,
                    cache,
                    width,
                    words(decoded_entities(text)),
                    s.style,
                    s.weight,
                    0,
                    None,
                );
            } else {
                assert(entry_texts(s.display_list) + Seq::<Seq<char>>::empty() =~= entry_texts(
                    s.display_list,
                ));
            }
        },
        ElementView::Tag { name, .. } => {
            lemma_nodes_show(node.children, tag_opened(s, tag_kind_of(name)), cache, width);
        },
    }
}

/// The same of a run of subtrees.
proof fn lemma_nodes_show(
    nodes: Seq<NodeView>,
    s: LayoutView,
    cache: Map<MeasureKeyView, Dimensions>,
    width: u32,
)
    ensures
        ({
            let after = nodes_laid(nodes, s, cache, width);
            &&& after.missing.len() >= s.missing.len()
            &&& after.missing.len() == 0 ==> entry_texts(after.display_list) == entry_texts(
                s.display_list,
            ) + all_shown_words(nodes, s.visible)
        }),
    decreases nodes,
{
    if nodes.len() == 0 {
        assert(entry_texts(s.display_list) + Seq::<Seq<char>>::empty() =~= entry_texts(
            s.display_list,
        ));
    } else {
        let front = nodes.drop_last();
        let before = nodes_laid(front, s, cache, width);
        lemma_nodes_show(front, s, cache, width);
        lemma_all_style_restored(front, s, cache, width);
        lemma_node_shows(nodes.last(), before, cache, width);
        let after = nodes_laid(nodes, s, cache, width);
        if after.missing.len() == 0 {
            assert((entry_texts(s.display_list) + all_shown_words(front, s.visible)) + shown_words(
                nodes.last(),
                s.visible,
            ) =~= entry_texts(s.display_list) + all_shown_words(nodes, s.visible));
        }
    }
}

/// What a rendered pass shows. Where no measurement is missing, the texts
/// of the display list are exactly the words of the document's texts, their
/// character references resolved, in document order, but for the texts
/// under `head`, `style` or `script`: none is left out, none is added, and
/// nothing of an earlier pass is left.
pub proof fn lemma_display_list_shows_the_words(
    tree: NodeView,
    cache: Map<MeasureKeyView, Dimensions>,
    width: u32,
)
    ensures
        laid_out(LayoutMode::Rendered, tree, cache, width).missing.len() == 0 ==> entry_texts(
            laid_out(LayoutMode::Rendered, tree, cache, width).display_list,
        ) == shown_words(tree, true),
{
    lemma_node_shows(tree, initial_view(), cache, width);
    assert(entry_texts(initial_view().display_list) + shown_words(tree, true) =~= shown_words(
        tree,
        true,
    ));
}

} // verus!
