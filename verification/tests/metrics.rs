use broust::layout::Layout;
use broust::metrics::{Dimensions, MeasureCache, MeasureKey};
use broust::style::{font_variant, tag_kind, FontVariant, Style, TagKind, Weight};

fn key(text: &str, size: u16) -> MeasureKey {
    MeasureKey::new(Style::Roman, Weight::Normal, text, size)
}

#[test]
fn a_new_cache_is_empty() {
    let cache = MeasureCache::new();
    assert_eq!(cache.get(&key("a", 16)), None);
}

#[test]
fn a_measurement_is_found_again() {
    let mut cache = MeasureCache::new();
    let dims = Dimensions { width: 7, height: 9 };
    assert_eq!(cache.insert(key("a", 16), dims), dims);
    assert_eq!(cache.get(&key("a", 16)), Some(dims));
    assert_eq!(
        Layout::cached_measure(&cache, "a", Style::Roman, Weight::Normal, 16),
        Some(dims)
    );
}

#[test]
fn keys_differ_in_every_part() {
    let mut cache = MeasureCache::new();
    cache.insert(key("a", 16), Dimensions { width: 1, height: 1 });
    assert_eq!(cache.get(&key("a", 17)), None);
    assert_eq!(cache.get(&key("b", 16)), None);
    assert_eq!(cache.get(&key("", 16)), None);
    assert_eq!(cache.get(&MeasureKey::new(Style::Italic, Weight::Normal, "a", 16)), None);
    assert_eq!(cache.get(&MeasureKey::new(Style::Roman, Weight::Bold, "a", 16)), None);
    // The text "a1" at size 6 and the text "a" at size 16 are different keys.
    cache.insert(key("a1", 6), Dimensions { width: 2, height: 2 });
    assert_eq!(cache.get(&key("a", 16)), Some(Dimensions { width: 1, height: 1 }));
    assert_eq!(cache.get(&key("a1", 6)), Some(Dimensions { width: 2, height: 2 }));
}

#[test]
fn nothing_is_evicted_or_overwritten() {
    let mut cache = MeasureCache::new();
    for i in 0..200u32 {
        cache.insert(key(&format!("w{}", i), 16), Dimensions { width: i, height: 1 });
    }
    let kept = cache.insert(key("w5", 16), Dimensions { width: 999, height: 999 });
    assert_eq!(kept, Dimensions { width: 5, height: 1 });
    for i in 0..200u32 {
        assert_eq!(
            cache.get(&key(&format!("w{}", i), 16)),
            Some(Dimensions { width: i, height: 1 })
        );
    }
}

#[test]
fn keys_compare_by_value() {
    assert!(key("a", 16).same(&key("a", 16)));
    assert!(!key("a", 16).same(&key("a", 15)));
    assert!(!key("a", 16).same(&key("ab", 16)));
    let copy = key("a", 16).clone();
    assert!(copy.same(&key("a", 16)));
    assert_eq!(copy.text, "a");
}

#[test]
fn every_slant_and_weight_has_its_face() {
    assert_eq!(font_variant(Style::Roman, Weight::Normal), FontVariant::Roman);
    assert_eq!(font_variant(Style::Italic, Weight::Normal), FontVariant::Italic);
    assert_eq!(font_variant(Style::Mono, Weight::Normal), FontVariant::Mono);
    assert_eq!(font_variant(Style::Roman, Weight::Bold), FontVariant::Bold);
    assert_eq!(font_variant(Style::Italic, Weight::Bold), FontVariant::BoldItalic);
    assert_eq!(font_variant(Style::Mono, Weight::Bold), FontVariant::BoldMono);
}

#[test]
fn tag_names_are_classified() {
    let table = [
        ("i", TagKind::Italic),
        ("em", TagKind::Italic),
        ("b", TagKind::Bold),
        ("strong", TagKind::Bold),
        ("small", TagKind::Small),
        ("big", TagKind::Big),
        ("h1", TagKind::Heading),
        ("br", TagKind::Break),
        ("br/", TagKind::Break),
        ("hr", TagKind::Break),
        ("hr/", TagKind::Break),
        ("p", TagKind::Break),
        ("code", TagKind::Mono),
        ("pre", TagKind::Mono),
        ("a", TagKind::Anchor),
        ("head", TagKind::Hidden),
        ("style", TagKind::Hidden),
        ("script", TagKind::Hidden),
        ("div", TagKind::Other),
        ("", TagKind::Other),
        ("h2", TagKind::Other),
        ("B", TagKind::Other),
    ];
    for (name, kind) in table {
        assert_eq!(tag_kind(name), kind, "{}", name);
    }
}
