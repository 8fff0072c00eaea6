use broust::dom::{HTMLParser, Tree};
use broust::layout::flat;
use broust::lexer::lex;
use broust::layout::{Layout, LayoutError, LayoutMode, BASE_FONT_SIZE, LINE_HEIGHT, TOP_MARGIN};
use broust::metrics::{Dimensions, MeasureCache, MeasureKey};
use broust::style::{Color, FontVariant, Style, Weight};

const SPACE: u32 = 100;

fn parse(body: &str) -> Tree {
    HTMLParser::new(body.to_string()).parse()
}

/// A cache in which, at size 16 and in every style, a space is 100 wide and
/// each of `words` is 300 wide.
fn cache_for(words: &[&str]) -> MeasureCache {
    let mut cache = MeasureCache::new();
    for style in [Style::Roman, Style::Italic, Style::Mono] {
        for weight in [Weight::Normal, Weight::Bold] {
            for size in [12u16, 14, 16, 18, 20, 32, 36] {
                cache.insert(
                    MeasureKey::new(style, weight, " ", size),
                    Dimensions { width: SPACE, height: 1000 },
                );
                for word in words {
                    cache.insert(
                        MeasureKey::new(style, weight, word, size),
                        Dimensions { width: 300, height: 1000 },
                    );
                }
            }
        }
    }
    cache
}

fn rendered(body: &str, words: &[&str], width: u32) -> Layout {
    let mut layout = Layout::new("rendered".to_string());
    let result = layout.layout(&cache_for(words), &parse(body), width);
    assert_eq!(result, Ok(()));
    layout
}

fn texts(layout: &Layout) -> Vec<&str> {
    layout.display_list.iter().map(|e| e.text.as_str()).collect()
}

fn positions(layout: &Layout) -> Vec<(u64, u64)> {
    layout.display_list.iter().map(|e| (e.x, e.y)).collect()
}

#[test]
fn a_new_engine_starts_at_the_top_left() {
    let layout = Layout::new("".to_string());
    assert_eq!(layout.mode, LayoutMode::Rendered);
    assert_eq!((layout.x, layout.y), (0, TOP_MARGIN));
    assert_eq!(layout.font_size, BASE_FONT_SIZE);
    assert_eq!(layout.style, Style::Roman);
    assert_eq!(layout.weight, Weight::Normal);
    assert_eq!(layout.color, Color::Text);
    assert!(layout.visible);
    assert!(layout.display_list.is_empty());
    assert_eq!(Layout::new("source".to_string()).mode, LayoutMode::Source);
    assert_eq!(Layout::new("Source".to_string()).mode, LayoutMode::Rendered);
}

#[test]
fn words_follow_each_other_and_wrap() {
    let layout = rendered("<p>aa bb cc</p>", &["aa", "bb", "cc"], 1000);
    assert_eq!(texts(&layout), vec!["aa", "bb", "cc"]);
    // <p> breaks the line first: the text starts one line below the top.
    let first = TOP_MARGIN + LINE_HEIGHT;
    assert_eq!(
        positions(&layout),
        vec![(0, first), (400, first), (0, first + LINE_HEIGHT)]
    );
    assert_eq!((layout.x, layout.y), (400, first + LINE_HEIGHT));
}

#[test]
fn a_word_that_reaches_the_line_width_wraps() {
    // 400 + 300 = 700: reaching the width counts as overflowing it.
    let layout = rendered("<a>aa bb</a>", &["aa", "bb"], 700);
    assert_eq!(positions(&layout), vec![(0, 64), (0, 64 + 1440)]);
    let layout = rendered("<a>aa bb</a>", &["aa", "bb"], 701);
    assert_eq!(positions(&layout), vec![(0, 64), (400, 64)]);
}

#[test]
fn a_word_wider_than_the_line_still_gets_placed() {
    let layout = rendered("<a>aa bb</a>", &["aa", "bb"], 200);
    assert_eq!(positions(&layout), vec![(0, 64 + 1440), (0, 64 + 2 * 1440)]);
}

#[test]
fn layout_is_repeatable() {
    let tree = parse("<div>aa <b>bb</b> cc<br>aa</div>");
    let cache = cache_for(&["aa", "bb", "cc"]);
    let mut layout = Layout::new("".to_string());
    assert_eq!(layout.layout(&cache, &tree, 900), Ok(()));
    let first: Vec<(u64, u64, String, FontVariant)> = layout
        .display_list
        .iter()
        .map(|e| (e.x, e.y, e.text.clone(), e.font))
        .collect();
    assert_eq!(layout.layout(&cache, &tree, 900), Ok(()));
    let second: Vec<(u64, u64, String, FontVariant)> = layout
        .display_list
        .iter()
        .map(|e| (e.x, e.y, e.text.clone(), e.font))
        .collect();
    assert_eq!(first, second);
    assert_eq!(first.len(), 4);
}

#[test]
fn weight_is_back_to_normal_after_bold() {
    let layout = rendered("<p><b>X</b>Y</p>", &["X", "Y"], 100_000);
    assert_eq!(texts(&layout), vec!["X", "Y"]);
    assert_eq!(layout.display_list[0].font, FontVariant::Bold);
    assert_eq!(layout.display_list[1].font, FontVariant::Roman);
    assert_eq!(layout.weight, Weight::Normal);
}

#[test]
fn style_is_restored_across_nested_tags() {
    let layout = rendered(
        "<p><i><b><small><big>X</big></small></b></i>Y</p>",
        &["X", "Y"],
        100_000,
    );
    assert_eq!(layout.display_list[0].font, FontVariant::BoldItalic);
    assert_eq!(layout.display_list[0].font_size, 16 - 2 + 4);
    assert_eq!(layout.display_list[1].font, FontVariant::Roman);
    assert_eq!(layout.display_list[1].font_size, 16);
    assert_eq!(layout.font_size, 16);
    assert_eq!(layout.style, Style::Roman);
}

#[test]
fn a_nested_bold_leaves_the_outer_bold_in_force() {
    let layout = rendered("<p><b><b>X</b>Y</b>Z</p>", &["X", "Y", "Z"], 100_000);
    assert_eq!(texts(&layout), vec!["X", "Y", "Z"]);
    assert_eq!(layout.display_list[0].font, FontVariant::Bold);
    assert_eq!(layout.display_list[1].font, FontVariant::Bold);
    assert_eq!(layout.display_list[2].font, FontVariant::Roman);
}

#[test]
fn every_part_of_the_style_comes_back_under_nesting() {
    let layout = rendered(
        "<p><i>a<code>b<em>c</em>d</code>e</i><a>f<a>g</a>h</a>i<big>j<h1>k</h1>l</big>m</p>",
        &["a", "b", "c", "d", "e", "f", "g", "h", "i", "j", "k", "l", "m"],
        100_000,
    );
    let shown: Vec<(&str, FontVariant, Color, u16)> = layout
        .display_list
        .iter()
        .map(|e| (e.text.as_str(), e.font, e.color, e.font_size))
        .collect();
    assert_eq!(
        shown,
        vec![
            ("a", FontVariant::Italic, Color::Text, 16),
            ("b", FontVariant::Mono, Color::Text, 16),
            ("c", FontVariant::Italic, Color::Text, 16),
            ("d", FontVariant::Mono, Color::Text, 16),
            ("e", FontVariant::Italic, Color::Text, 16),
            ("f", FontVariant::Roman, Color::Link, 16),
            ("g", FontVariant::Roman, Color::Link, 16),
            ("h", FontVariant::Roman, Color::Link, 16),
            ("i", FontVariant::Roman, Color::Text, 16),
            ("j", FontVariant::Roman, Color::Text, 20),
            ("k", FontVariant::Roman, Color::Text, 36),
            ("l", FontVariant::Roman, Color::Text, 20),
            ("m", FontVariant::Roman, Color::Text, 16),
        ]
    );
    assert!(layout.entered.is_empty());
}

#[test]
fn text_after_a_nested_script_stays_hidden() {
    let tree = parse("<head><script>s</script>t u</head>");
    for cache in [MeasureCache::new(), cache_for(&["s", "t", "u"])] {
        let mut layout = Layout::new("".to_string());
        assert_eq!(layout.layout(&cache, &tree, 100_000), Ok(()));
        assert!(layout.display_list.is_empty());
        assert!(layout.missing.is_empty());
        assert!(layout.visible);
    }
    let layout = rendered(
        "<html><head><style>a</style>b<script>c</script>d<head>e</head>f</head>x</html>",
        &["x"],
        100_000,
    );
    assert_eq!(texts(&layout), vec!["x"]);
}

#[test]
fn leaving_a_tag_puts_the_saved_context_back() {
    let mut layout = Layout::new("".to_string());
    layout.open_tag("b");
    layout.open_tag("i");
    layout.open_tag("b");
    layout.open_tag("script");
    layout.open_tag("small");
    assert_eq!(layout.entered.len(), 5);
    assert_eq!((layout.weight, layout.style, layout.visible, layout.font_size),
        (Weight::Bold, Style::Italic, false, 14));
    layout.close_tag("small");
    assert_eq!((layout.weight, layout.style, layout.visible, layout.font_size),
        (Weight::Bold, Style::Italic, false, 16));
    layout.close_tag("script");
    assert!(layout.visible);
    layout.close_tag("b");
    assert_eq!(layout.weight, Weight::Bold);
    layout.close_tag("i");
    assert_eq!((layout.weight, layout.style), (Weight::Bold, Style::Roman));
    layout.close_tag("b");
    assert_eq!(layout.weight, Weight::Normal);
    assert!(layout.entered.is_empty());
}

#[test]
fn leaving_without_entering_follows_the_table() {
    let mut layout = Layout::new("".to_string());
    layout.style = Style::Mono;
    layout.weight = Weight::Bold;
    layout.color = Color::Link;
    layout.visible = false;
    layout.close_tag("i");
    assert_eq!(layout.style, Style::Roman);
    layout.close_tag("strong");
    assert_eq!(layout.weight, Weight::Normal);
    layout.close_tag("a");
    assert_eq!(layout.color, Color::Text);
    layout.close_tag("head");
    assert!(layout.visible);
    layout.close_tag("small");
    assert_eq!(layout.font_size, 18);
    layout.close_tag("big");
    assert_eq!(layout.font_size, 14);
    layout.close_tag("h1");
    assert_eq!(layout.font_size, 65534);
    layout.close_tag("p");
    layout.close_tag("div");
    assert_eq!((layout.x, layout.y, layout.font_size), (0, 64, 65534));
}

#[test]
fn three_words_on_a_line_of_a_hundred() {
    // Words of width 30 and a space of 5 on a line of 100: the third word
    // would reach the width exactly, and wraps.
    let mut cache = MeasureCache::new();
    for text in [" ", "one", "two", "three"] {
        let width = if text == " " { 5 } else { 30 };
        cache.insert(
            MeasureKey::new(Style::Roman, Weight::Normal, text, 16),
            Dimensions { width, height: 10 },
        );
    }
    let mut layout = Layout::new("".to_string());
    for word in ["one", "two", "three"] {
        layout.word(&cache, 100, word, Style::Roman, Weight::Normal, 0, None);
    }
    assert_eq!(
        positions(&layout),
        vec![(0, TOP_MARGIN), (35, TOP_MARGIN), (0, TOP_MARGIN + LINE_HEIGHT)]
    );
    assert_eq!((layout.x, layout.y), (35, TOP_MARGIN + LINE_HEIGHT));
    // On a line of 101 the third word fits.
    let mut layout = Layout::new("".to_string());
    for word in ["one", "two", "three"] {
        layout.word(&cache, 101, word, Style::Roman, Weight::Normal, 0, None);
    }
    assert_eq!(
        positions(&layout),
        vec![(0, TOP_MARGIN), (35, TOP_MARGIN), (70, TOP_MARGIN)]
    );
    assert_eq!((layout.x, layout.y), (105, TOP_MARGIN));
}

#[test]
fn a_flat_pass_ends_bold_at_the_closing_tag() {
    let tokens = lex("<b>X</b>Y".to_string());
    let layout = flat::Layout::new(&cache_for(&["X", "Y", ""]), &tokens, 100_000);
    let words: Vec<(&str, FontVariant)> = layout
        .display_list
        .iter()
        .filter(|e| !e.text.is_empty())
        .map(|e| (e.text.as_str(), e.font))
        .collect();
    assert_eq!(words, vec![("X", FontVariant::Bold), ("Y", FontVariant::Roman)]);
}

#[test]
fn font_size_wraps_around_and_comes_back() {
    let body = format!("<div>{}X{}Y</div>", "<small>".repeat(9), "</small>".repeat(9));
    let tree = parse(&body);
    let mut cache = cache_for(&["Y"]);
    cache.insert(
        MeasureKey::new(Style::Roman, Weight::Normal, " ", 65534),
        Dimensions { width: 1, height: 1 },
    );
    cache.insert(
        MeasureKey::new(Style::Roman, Weight::Normal, "X", 65534),
        Dimensions { width: 1, height: 1 },
    );
    let mut layout = Layout::new("".to_string());
    assert_eq!(layout.layout(&cache, &tree, 100_000), Ok(()));
    assert_eq!(layout.display_list[0].font_size, 65534);
    assert_eq!(layout.display_list[1].font_size, 16);
}

#[test]
fn faces_combine_slant_and_weight() {
    let layout = rendered(
        "<p>a<i>b</i><b>c</b><code>d</code><b><i>e</i></b><b><pre>f</pre></b><em>g</em><strong>h</strong></p>",
        &["a", "b", "c", "d", "e", "f", "g", "h"],
        100_000,
    );
    let faces: Vec<FontVariant> = layout.display_list.iter().map(|e| e.font).collect();
    assert_eq!(
        faces,
        vec![
            FontVariant::Roman,
            FontVariant::Italic,
            FontVariant::Bold,
            FontVariant::Mono,
            FontVariant::BoldItalic,
            FontVariant::BoldMono,
            FontVariant::Italic,
            FontVariant::Bold,
        ]
    );
}

#[test]
fn links_are_coloured() {
    let layout = rendered("<p>a<a href=x>b</a>c</p>", &["a", "b", "c"], 100_000);
    let colors: Vec<Color> = layout.display_list.iter().map(|e| e.color).collect();
    assert_eq!(colors, vec![Color::Text, Color::Link, Color::Text]);
}

#[test]
fn a_heading_stands_on_its_own_lines_in_a_larger_size() {
    let layout = rendered("<div>a<h1>T</h1>b</div>", &["a", "T", "b"], 100_000);
    assert_eq!(texts(&layout), vec!["a", "T", "b"]);
    assert_eq!(layout.display_list[0].font_size, 16);
    assert_eq!(layout.display_list[1].font_size, 32);
    assert_eq!(layout.display_list[2].font_size, 16);
    assert_eq!(
        positions(&layout),
        vec![(0, 64), (0, 64 + 2 * 1440), (400, 64 + 2 * 1440)]
    );
}

#[test]
fn breaks_start_a_new_line() {
    let layout = rendered("<div>a<br>b<hr>c<p>d</p></div>", &["a", "b", "c", "d"], 100_000);
    assert_eq!(
        positions(&layout),
        vec![(0, 64), (0, 64 + 1440), (0, 64 + 2 * 1440), (0, 64 + 3 * 1440)]
    );
}

#[test]
fn unknown_tags_change_nothing() {
    let layout = rendered("<blink>a<marquee>b</marquee></blink>", &["a", "b"], 100_000);
    assert_eq!(positions(&layout), vec![(0, 64), (400, 64)]);
    assert_eq!(layout.display_list[1].font, FontVariant::Roman);
}

#[test]
fn text_in_the_head_is_not_shown() {
    let layout = rendered(
        "<html><head><title>many words stand in here</title><meta charset=x></head><body>x</body></html>",
        &["x"],
        100_000,
    );
    assert_eq!(texts(&layout), vec!["x"]);
    assert_eq!(positions(&layout), vec![(0, 64)]);
    assert!(layout.missing.is_empty());
}

#[test]
fn scripts_and_styles_are_not_shown() {
    let layout = rendered(
        "<div><script>var a = 1;</script><style>p { x: y }</style>x</div>",
        &["x"],
        100_000,
    );
    assert_eq!(texts(&layout), vec!["x"]);
}

#[test]
fn hidden_text_asks_for_no_measurement() {
    let tree = parse("<head>a b c d e f g</head>");
    let mut layout = Layout::new("".to_string());
    assert_eq!(layout.layout(&MeasureCache::new(), &tree, 1000), Ok(()));
    assert!(layout.display_list.is_empty());
    assert!(layout.missing.is_empty());
}

#[test]
fn character_references_are_resolved() {
    let layout = rendered("<p>a&amp;b &lt;c&gt; &#65;</p>", &["a&b", "<c>", "A"], 100_000);
    assert_eq!(texts(&layout), vec!["a&b", "<c>", "A"]);
}

#[test]
fn a_missing_measurement_fails_the_pass() {
    let tree = parse("<p>aa bb aa</p>");
    let mut layout = Layout::new("".to_string());
    let result = layout.layout(&MeasureCache::new(), &tree, 1000);
    assert_eq!(result, Err(LayoutError::MeasurementFailure));
    let missing: Vec<&str> = layout.missing.iter().map(|k| k.text.as_str()).collect();
    assert_eq!(missing, vec![" ", "aa", "bb"]);
    assert!(layout.display_list.is_empty());
    for key in &layout.missing {
        assert_eq!((key.style, key.weight, key.font_size), (Style::Roman, Weight::Normal, 16));
    }
}

#[test]
fn measuring_what_is_missing_makes_the_pass_succeed() {
    let tree = parse("<p>aa <b>bb</b></p>");
    let mut cache = MeasureCache::new();
    let mut layout = Layout::new("".to_string());
    assert_eq!(
        layout.layout(&cache, &tree, 1000),
        Err(LayoutError::MeasurementFailure)
    );
    assert_eq!(layout.missing.len(), 4);
    for key in &layout.missing {
        cache.insert(key.clone(), Dimensions { width: 10, height: 10 });
    }
    assert_eq!(layout.layout(&cache, &tree, 1000), Ok(()));
    assert!(layout.missing.is_empty());
    assert_eq!(texts(&layout), vec!["aa", "bb"]);
}

#[test]
fn only_the_word_that_is_missing_is_noted() {
    let tree = parse("<p>aa zz</p>");
    let mut layout = Layout::new("".to_string());
    let result = layout.layout(&cache_for(&["aa"]), &tree, 1000);
    assert_eq!(result, Err(LayoutError::MeasurementFailure));
    assert_eq!(layout.missing.len(), 1);
    assert_eq!(layout.missing[0].text, "zz");
    assert_eq!(texts(&layout), vec!["aa"]);
}

#[test]
fn source_view_shows_the_markup() {
    let tree = parse("<a>x y</a>");
    let cache = cache_for(&["<", "</", ">", "a", "x", "y"]);
    let mut layout = Layout::new("source".to_string());
    assert_eq!(layout.layout(&cache, &tree, 100_000), Ok(()));
    assert_eq!(texts(&layout), vec!["<", "a", ">", "x", "y", "</", "a", ">"]);
    assert_eq!(
        positions(&layout),
        vec![
            (0, 64),
            (400, 64),
            (800, 64),
            (3 * 100, 64 + 1440),
            (3 * 100 + 400, 64 + 1440),
            (0, 64 + 2 * 1440),
            (400, 64 + 2 * 1440),
            (800, 64 + 2 * 1440),
        ]
    );
    let faces: Vec<FontVariant> = layout.display_list.iter().map(|e| e.font).collect();
    assert_eq!(
        faces,
        vec![
            FontVariant::Bold,
            FontVariant::Bold,
            FontVariant::Bold,
            FontVariant::Roman,
            FontVariant::Roman,
            FontVariant::Bold,
            FontVariant::Bold,
            FontVariant::Bold,
        ]
    );
    let colors: Vec<Color> = layout.display_list.iter().map(|e| e.color).collect();
    assert_eq!(
        colors,
        vec![
            Color::Text,
            Color::Markup,
            Color::Text,
            Color::Text,
            Color::Text,
            Color::Text,
            Color::Markup,
            Color::Text,
        ]
    );
    assert_eq!((layout.x, layout.y), (0, 64 + 3 * 1440));
}

#[test]
fn source_view_indents_by_depth() {
    let tree = parse("<a><b></b></a>");
    let cache = cache_for(&["<", "</", ">", "a", "b"]);
    let mut layout = Layout::new("source".to_string());
    assert_eq!(layout.layout(&cache, &tree, 100_000), Ok(()));
    assert_eq!(texts(&layout), vec!["<", "a", ">", "<", "b", ">", "</", "b", ">", "</", "a", ">"]);
    assert_eq!(layout.display_list[3].x, 200);
    assert_eq!(layout.display_list[3].y, 64 + 1440);
    assert_eq!(layout.display_list[6].x, 200);
    assert_eq!(layout.display_list[9].x, 0);
}

#[test]
fn source_view_shows_hidden_text_and_keeps_references() {
    let tree = parse("<head>a&amp;b</head>");
    let cache = cache_for(&["<", "</", ">", "head", "a&amp;b"]);
    let mut layout = Layout::new("source".to_string());
    assert_eq!(layout.layout(&cache, &tree, 100_000), Ok(()));
    assert_eq!(texts(&layout), vec!["<", "head", ">", "a&amp;b", "</", "head", ">"]);
}

#[test]
fn source_view_wraps_to_the_indentation() {
    // At the margin the indentation is capped by the line width; after a
    // wrap it is not.
    let tree = parse("<a>x</a>");
    let cache = cache_for(&["<", "</", ">", "a", "x"]);
    let mut layout = Layout::new("source".to_string());
    assert_eq!(layout.layout(&cache, &tree, 250), Ok(()));
    // "x" at indent 3: starts at min(300, 250) = 250, wraps, lands at 300.
    let x_entry = &layout.display_list[3];
    assert_eq!(x_entry.text, "x");
    assert_eq!(x_entry.x, 300);
}

#[test]
fn the_cursor_saturates() {
    let mut layout = Layout::new("".to_string());
    layout.y = u64::MAX - 10;
    layout.flush();
    assert_eq!((layout.x, layout.y), (0, u64::MAX));
    layout.x = u64::MAX - 10;
    layout.word(
        &cache_for(&["aa"]),
        u32::MAX,
        "aa",
        Style::Roman,
        Weight::Normal,
        0,
        None,
    );
    assert_eq!(layout.display_list.len(), 1);
    assert_eq!((layout.display_list[0].x, layout.display_list[0].y), (0, u64::MAX));
    assert_eq!(layout.x, 400);
}

#[test]
fn a_word_takes_the_given_colour() {
    let mut layout = Layout::new("".to_string());
    let cache = cache_for(&["aa"]);
    layout.word(&cache, 1000, "aa", Style::Italic, Weight::Bold, 0, Some(Color::Markup));
    layout.word(&cache, 1000, "aa", Style::Mono, Weight::Normal, 0, None);
    assert_eq!(layout.display_list[0].color, Color::Markup);
    assert_eq!(layout.display_list[0].font, FontVariant::BoldItalic);
    assert_eq!(layout.display_list[0].dimensions, Dimensions { width: 300, height: 1000 });
    assert_eq!(layout.display_list[1].color, Color::Text);
    assert_eq!(layout.display_list[1].font, FontVariant::Mono);
    assert_eq!(layout.display_list[1].x, 400);
}

#[test]
fn open_and_close_tag_follow_the_table() {
    let mut layout = Layout::new("".to_string());
    layout.open_tag("em");
    assert_eq!(layout.style, Style::Italic);
    layout.close_tag("em");
    assert_eq!(layout.style, Style::Roman);
    layout.open_tag("strong");
    assert_eq!(layout.weight, Weight::Bold);
    layout.close_tag("b");
    assert_eq!(layout.weight, Weight::Normal);
    layout.open_tag("small");
    assert_eq!(layout.font_size, 14);
    layout.close_tag("small");
    layout.open_tag("big");
    assert_eq!(layout.font_size, 20);
    layout.close_tag("big");
    assert_eq!(layout.font_size, 16);
    layout.open_tag("pre");
    assert_eq!(layout.style, Style::Mono);
    layout.close_tag("code");
    assert_eq!(layout.style, Style::Roman);
    layout.open_tag("a");
    assert_eq!(layout.color, Color::Link);
    layout.close_tag("a");
    assert_eq!(layout.color, Color::Text);
    layout.open_tag("script");
    assert!(!layout.visible);
    layout.close_tag("style");
    assert!(layout.visible);
    assert_eq!((layout.x, layout.y), (0, 64));
    layout.open_tag("br/");
    layout.open_tag("hr/");
    assert_eq!(layout.y, 64 + 2 * 1440);
    layout.close_tag("p");
    layout.open_tag("h1");
    assert_eq!(layout.font_size, 32);
    assert_eq!(layout.y, 64 + 4 * 1440);
    layout.close_tag("h1");
    assert_eq!(layout.font_size, 16);
    layout.open_tag("H1");
    assert_eq!(layout.font_size, 16);
}

#[test]
fn a_flat_pass_places_every_token() {
    let tokens = lex("aa <b>bb</b><br>cc".to_string());
    let layout = flat::Layout::new(&cache_for(&["aa", "bb", "cc", ""]), &tokens, 100_000);
    assert!(layout.missing.is_empty());
    let shown: Vec<(&str, u64, u64, FontVariant)> = layout
        .display_list
        .iter()
        .map(|e| (e.text.as_str(), e.x, e.y, e.font))
        .collect();
    assert_eq!(
        shown,
        vec![
            ("aa", 0, 640, FontVariant::Roman),
            ("", 400, 640, FontVariant::Bold),
            ("bb", 400, 640, FontVariant::Bold),
            ("", 800, 640, FontVariant::Roman),
            ("", 0, 640 + 1440, FontVariant::Roman),
            ("cc", 0, 640 + 1440, FontVariant::Roman),
        ]
    );
    assert_eq!((layout.x, layout.y), (400, 640 + 1440));
    assert_eq!((layout.style, layout.weight), (Style::Roman, Weight::Normal));
}

#[test]
fn a_flat_pass_takes_tags_as_they_stand() {
    // A tag with attributes, a tag in upper case and an unknown tag switch nothing.
    let tokens = lex("<b class=x>aa<I>aa<tt>aa<em>aa</em>aa<code>aa</pre>aa".to_string());
    let layout = flat::Layout::new(&cache_for(&["aa", ""]), &tokens, 100_000);
    let faces: Vec<FontVariant> = layout
        .display_list
        .iter()
        .filter(|e| !e.text.is_empty())
        .map(|e| e.font)
        .collect();
    assert_eq!(
        faces,
        vec![
            FontVariant::Roman,
            FontVariant::Roman,
            FontVariant::Roman,
            FontVariant::Italic,
            FontVariant::Roman,
            FontVariant::Mono,
            FontVariant::Roman,
        ]
    );
}

#[test]
fn a_flat_pass_wraps_and_sizes() {
    let tokens = lex("<big>aa aa aa</big><small>aa".to_string());
    let layout = flat::Layout::new(&cache_for(&["aa", ""]), &tokens, 1000);
    let shown: Vec<(&str, u64, u64, u16)> = layout
        .display_list
        .iter()
        .map(|e| (e.text.as_str(), e.x, e.y, e.font_size))
        .collect();
    assert_eq!(
        shown,
        vec![
            ("", 0, 640, 20),
            ("aa", 0, 640, 20),
            ("aa", 400, 640, 20),
            ("aa", 0, 640 + 1440, 20),
            ("", 400, 640 + 1440, 16),
            ("", 400, 640 + 1440, 14),
            ("aa", 400, 640 + 1440, 14),
        ]
    );
}

#[test]
fn a_flat_pass_notes_what_is_missing() {
    let tokens = lex("<b>aa &amp;".to_string());
    let layout = flat::Layout::new(&MeasureCache::new(), &tokens, 1000);
    assert!(layout.display_list.is_empty());
    let missing: Vec<(&str, Weight)> =
        layout.missing.iter().map(|k| (k.text.as_str(), k.weight)).collect();
    assert_eq!(
        missing,
        vec![("", Weight::Bold), (" ", Weight::Bold), ("aa", Weight::Bold), ("&", Weight::Bold)]
    );
}

#[test]
fn the_display_list_runs_from_top_to_bottom() {
    let body = "<div>aa bb<h1>cc aa</h1><p>bb <b>cc</b> aa bb cc</p>aa<br>bb</div>";
    for mode in ["rendered", "source"] {
        let tree = parse(body);
        let cache = cache_for(&["aa", "bb", "cc", "<", "</", ">", "div", "h1", "p", "b", "br"]);
        let mut layout = Layout::new(mode.to_string());
        assert_eq!(layout.layout(&cache, &tree, 900), Ok(()));
        assert!(layout.display_list.len() >= 11);
        for pair in layout.display_list.windows(2) {
            assert!(pair[0].y <= pair[1].y);
            if pair[0].y == pair[1].y {
                assert!(pair[0].x < pair[1].x);
            }
        }
        assert!(layout.display_list.last().map(|e| e.y <= layout.y).unwrap_or(true));
    }
}

#[test]
fn the_steps_of_a_flat_pass() {
    let cache = cache_for(&["X", "Y", ""]);
    let mut engine = Layout::new("".to_string());
    flat::apply_tag(&mut engine, "b");
    assert_eq!(engine.weight, Weight::Bold);
    flat::place_shown(&mut engine, &cache, 100_000, "X");
    flat::apply_tag(&mut engine, "/b");
    assert_eq!(engine.weight, Weight::Normal);
    flat::place_shown(&mut engine, &cache, 100_000, " ");
    flat::place_shown(&mut engine, &cache, 100_000, "Y");
    flat::place_empty(&mut engine, &cache);
    let shown: Vec<(&str, u64, FontVariant)> = engine
        .display_list
        .iter()
        .map(|e| (e.text.as_str(), e.x, e.font))
        .collect();
    assert_eq!(
        shown,
        vec![
            ("X", 0, FontVariant::Bold),
            ("", 400, FontVariant::Roman),
            ("Y", 400, FontVariant::Roman),
            ("", 800, FontVariant::Roman),
        ]
    );
    flat::apply_tag(&mut engine, "/small");
    assert_eq!(engine.font_size, 18);
    flat::apply_tag(&mut engine, "p class=x");
    assert_eq!((engine.x, engine.y), (800, 64));
    flat::apply_tag(&mut engine, "/p");
    assert_eq!((engine.x, engine.y), (0, 64 + 1440));
}
