//! Stylesheets: which rules they come to, and with which properties.

use anydoc::cascade::Entry;
use anydoc::chars::chars_of;
use anydoc::css::{parse_declarations, parse_simple_selector, AttrSelector, StyleProps, Stylesheet};
use anydoc::number::{parse_i64, parse_u32, spell};
use anydoc::xml::{Attr, Element};
use anydoc::zero::numeric_is_zero;

fn sheet(css: &str) -> Stylesheet {
    let mut s = Stylesheet::default();
    s.add(css);
    s
}

fn count(css: &str) -> usize {
    sheet(css).rule_count()
}

fn priority(css: &str) -> u32 {
    sheet(css).rule(0).priority
}

fn tag_of(css: &str, i: usize) -> Option<String> {
    sheet(css).rule(i).selector.tag.clone()
}

fn normal(body: &str) -> StyleProps {
    parse_declarations(&chars_of(body)).normal
}

fn important(body: &str) -> StyleProps {
    parse_declarations(&chars_of(body)).important
}

fn zero(value: &str) -> Option<bool> {
    numeric_is_zero(&chars_of(value))
}

fn elem(local: &str, attrs: &[(&str, &str)]) -> Element {
    Element {
        ns: String::new(),
        local: local.to_string(),
        attrs: attrs
            .iter()
            .map(|(n, v)| Attr { ns: String::new(), local: n.to_string(), value: v.to_string() })
            .collect(),
        children: Vec::new(),
    }
}

#[test]
fn an_at_rule_is_skipped_with_every_rule_in_it() {
    let css = "@media print { .a { display: none } .b { display: none } } .c { display: none }";
    let s = sheet(css);
    assert_eq!(s.rule_count(), 1);
    assert_eq!(s.rule(0).selector.class.as_deref(), Some("c"));
    assert_eq!(count("@supports (x) { @media y { p { opacity: 0 } } } p { opacity: 0 }"), 1);
    assert_eq!(count("@media{p{color:red;display:none}}"), 0);
}

#[test]
fn an_at_rule_without_a_block_ends_at_its_semicolon() {
    let css = "@charset \"utf-8\"; @import url(x.css); p { display: none }";
    assert_eq!(count(css), 1);
    assert_eq!(tag_of(css, 0).as_deref(), Some("p"));
    assert_eq!(count("@import url(x.css)"), 0);
}

#[test]
fn strings_and_brackets_do_not_end_an_at_rule() {
    let css = "@import url(data:text/css;base64,AAAA); p { display: none }";
    assert_eq!(count(css), 1);
    assert_eq!(tag_of(css, 0).as_deref(), Some("p"));
    let css = r#"@import "a;b{c"; @namespace 'x\';y'; p { display: none }"#;
    assert_eq!(count(css), 1);
    assert_eq!(tag_of(css, 0).as_deref(), Some("p"));
    let css = r#"@media x { a { content: "}" } b { display: none } } p { display: none }"#;
    assert_eq!(count(css), 1);
    assert_eq!(tag_of(css, 0).as_deref(), Some("p"));
    let css = "@import 'a; p { display: none }";
    assert_eq!(count(css), 1, "a quote that nothing closes opens no string");
    assert_eq!(count("@import 'a; p { opacity: 0 }\n' } q { opacity: 0 }"), 2);
    assert_eq!(count("@import url(a; b); p { opacity: 0 }"), 1);
    assert_eq!(count("@import url(a; p { display: none } q { display: none }"), 1);
    assert_eq!(count("@media a) { q { opacity: 0 } } p { opacity: 0 }"), 1);
}

#[test]
fn what_is_left_of_a_string_is_no_at_rule() {
    let css = r#"p{c:"}@"}q{display:none}"#;
    assert_eq!(count(css), 1);
    assert_eq!(tag_of(css, 0).as_deref(), Some("q"));
    assert_eq!(count(r#"p{c:"}@x{"}q{display:none} r{display:none}"#), 2);
    assert_eq!(count(r#"p{c:"}"} @media x{q{opacity:0} r{opacity:0}}"#), 0);
    assert_eq!(count(r#"p{c:"} q{display:none}"#), 1);
    assert_eq!(count(r#"p{c:'} q{display:none}"#), 1);
    assert_eq!(count("p{c:(} q{display:none}"), 1);
}

#[test]
fn a_brace_in_a_string_nests_nothing() {
    let css = r#"p { content: "{"; display: none } q { display: none }"#;
    assert_eq!(count(css), 2);
    let css = r#"p { content: "{"; q { display: none } } b { display: none }"#;
    assert_eq!(count(css), 1);
    assert_eq!(tag_of(css, 0).as_deref(), Some("b"));
}

#[test]
fn a_selector_list_is_a_rule_for_each_part() {
    let rules = |css: &str| -> Vec<String> {
        let s = sheet(css);
        (0..s.rule_count())
            .map(|i| {
                let r = s.rule(i);
                format!("{:?} {:?} {} {:?}", r.selector.tag, r.selector.class, r.priority, r.props)
            })
            .collect()
    };
    let body = "display: none; font-weight: bold !important";
    for (s1, s2, n) in
        [("p", ".c", 4), ("  p", " q.r ", 4), ("div p", "b", 2), ("", "", 0), ("p, q", "b", 6)]
    {
        let joint = rules(&format!("{s1}, {s2} {{{body}}}"));
        assert_eq!(joint.len(), n, "{s1} and {s2}");
        assert_eq!(joint, rules(&format!("{s1} {{{body}}} {s2} {{{body}}}")), "{s1} and {s2}");
    }
}

#[test]
fn a_block_that_nests_another_is_skipped_whole() {
    let css = "div { p { display: none } .x { display: none } } .y { display: none }";
    let s = sheet(css);
    assert_eq!(s.rule_count(), 1);
    assert_eq!(s.rule(0).selector.class.as_deref(), Some("y"));
}

#[test]
fn an_unclosed_block_reaches_to_the_end() {
    assert_eq!(count("p { display: none"), 1);
    assert_eq!(count("@media x { p { display: none }"), 0);
    assert_eq!(count("p"), 0);
    assert_eq!(count(""), 0);
}

#[test]
fn a_stray_closing_brace_is_passed_over() {
    let css = "} x } p { display: none }";
    assert_eq!(count(css), 1);
    assert_eq!(tag_of(css, 0).as_deref(), Some("p"));
}

#[test]
fn comments_are_no_part_of_a_stylesheet() {
    assert_eq!(count("/* p { display: none } */ q { display: none }"), 1);
    assert_eq!(count("p { /* } */ display: none }"), 1);
    assert_eq!(count("p { display: none } /* never closed q { display: none }"), 1);
}

#[test]
fn a_rule_without_a_supported_property_makes_no_rule() {
    assert_eq!(count("p { color: red }"), 0);
    assert_eq!(count("p { display }"), 0);
    assert_eq!(count("p {}"), 0);
}

#[test]
fn specificity_counts_ids_classes_attributes_and_tags() {
    assert_eq!(priority("#i { opacity: 0 }"), 100);
    assert_eq!(priority(".c { opacity: 0 }"), 10);
    assert_eq!(priority("[hidden] { opacity: 0 }"), 10);
    assert_eq!(priority("t.c { opacity: 0 }"), 11);
    assert_eq!(priority("t { opacity: 0 }"), 1);
    assert_eq!(priority("t#i.c[hidden] { opacity: 0 }"), 121);
    assert_eq!(priority("t { opacity: 0 !important }"), 1_000_001);
}

#[test]
fn a_rule_can_stand_in_both_tiers() {
    let s = sheet("p { display: none; opacity: 0 !important }");
    assert_eq!(s.rule_count(), 2);
    assert_eq!(s.rule(0).priority, 1);
    assert_eq!(s.rule(0).props.display_none, Some(true));
    assert_eq!(s.rule(0).props.opacity_zero, None);
    assert_eq!(s.rule(1).priority, 1_000_001);
    assert_eq!(s.rule(1).props.opacity_zero, Some(true));
}

#[test]
fn adding_stylesheets_keeps_their_order() {
    let mut s = Stylesheet::default();
    s.add("a { opacity: 0 } b { opacity: 0 }");
    s.add("c { opacity: 0 }");
    assert_eq!(s.rule_count(), 3);
    assert_eq!(s.rule(2).selector.tag.as_deref(), Some("c"));
}

#[test]
fn an_unsupported_part_of_a_list_does_not_drop_the_others() {
    let s = sheet("div p, .a.b, #x, p:hover, *, , B { display: none }");
    assert_eq!(s.rule_count(), 2);
    assert_eq!(s.rule(0).selector.id.as_deref(), Some("x"));
    assert_eq!(s.rule(1).selector.tag.as_deref(), Some("b"));
}

#[test]
fn selectors_outside_the_subset_are_refused() {
    for s in [
        "div p", "a>b", "a+b", "a~b", "*", "p:first-child", ".a.b", "#a#b", "[hidden][hidden]",
        "[data-x]", "[hidden", ".", "#", "p.", "[aria-hidden=false]", "[hidden ]", "",
    ] {
        assert!(parse_simple_selector(&chars_of(s)).is_none(), "{s:?}");
    }
}

#[test]
fn a_compound_selector_has_all_its_components() {
    let p = parse_simple_selector(&chars_of("DIV#One.Two[ARIA-HIDDEN='TRUE']")).unwrap();
    assert_eq!(p.tag.as_deref(), Some("div"));
    assert_eq!(p.id.as_deref(), Some("One"));
    assert_eq!(p.class.as_deref(), Some("Two"));
    assert_eq!(p.attr, Some(AttrSelector::AriaHiddenTrue));
    let p = parse_simple_selector(&chars_of("[Hidden]")).unwrap();
    assert_eq!(p.attr, Some(AttrSelector::Hidden));
    assert_eq!(p.tag, None);
}

#[test]
fn font_weights_are_bold_from_six_hundred_on() {
    assert_eq!(normal("font-weight: bold").delta.bold, Some(true));
    assert_eq!(normal("font-weight: bolder").delta.bold, Some(true));
    assert_eq!(normal("font-weight: 600").delta.bold, Some(true));
    assert_eq!(normal("font-weight: 599").delta.bold, Some(false));
    assert_eq!(normal("font-weight: normal").delta.bold, Some(false));
    assert_eq!(normal("FONT-WEIGHT: BOLD").delta.bold, Some(true));
}

#[test]
fn text_decoration_strikes_or_not() {
    assert_eq!(normal("text-decoration: underline line-through").delta.strike, Some(true));
    assert_eq!(normal("text-decoration-line: none").delta.strike, Some(false));
    assert_eq!(normal("text-decoration: underline").delta.strike, None);
    assert_eq!(normal("font-style: oblique").delta.italic, Some(true));
    assert_eq!(normal("font-style: normal").delta.italic, Some(false));
}

#[test]
fn a_later_declaration_of_the_same_property_has_the_last_word() {
    assert_eq!(normal("display: none; display: block").display_none, Some(false));
    assert_eq!(normal("visibility: hidden; visibility: visible").visibility_hidden, Some(false));
    assert_eq!(normal("visibility: hidden; visibility: inherit").visibility_hidden, Some(true));
    assert_eq!(normal("opacity: 0; opacity: inherit").opacity_zero, Some(true));
}

#[test]
fn important_is_told_from_anything_else_after_a_bang() {
    assert_eq!(important("display: none ! important").display_none, Some(true));
    assert_eq!(normal("display: none !important").display_none, None);
    assert_eq!(normal("display: none !whatever").display_none, Some(true));
    assert_eq!(important("display: none !whatever").display_none, None);
}

#[test]
fn the_font_shorthand_takes_the_first_number_as_the_size() {
    assert_eq!(normal("font: 0/0 a").font_size_zero, Some(true));
    assert_eq!(normal("font: italic 0/0 a").font_size_zero, Some(true));
    assert_eq!(normal("font: bold 12px serif").font_size_zero, Some(false));
    assert_eq!(normal("font: 12px/1.4 serif").font_size_zero, Some(false));
    assert_eq!(normal("font: 12px / 0 serif").font_size_zero, Some(false));
    assert_eq!(normal("font: inherit").font_size_zero, None);
}

#[test]
fn a_weight_in_the_font_shorthand_is_not_the_size() {
    assert_eq!(normal("font: 700 0px serif").font_size_zero, Some(true));
    assert_eq!(normal("font: italic 700 0/1 serif").font_size_zero, Some(true));
    assert_eq!(normal("font: 700 italic small-caps 0 serif").font_size_zero, Some(true));
    assert_eq!(normal("font: 700 12px/0 serif").font_size_zero, Some(false));
    assert_eq!(normal("font: 700 serif").font_size_zero, Some(false));
}

#[test]
fn a_size_in_the_font_shorthand_is_not_a_weight() {
    assert_eq!(normal("font: 12 a 0").font_size_zero, Some(false));
    assert_eq!(normal("font: 12 a").font_size_zero, Some(false));
    assert_eq!(normal("font: 12px 0 serif").font_size_zero, Some(false));
    assert_eq!(normal("font: 12/0 serif").font_size_zero, Some(false));
    assert_eq!(normal("font: 1200 0 serif").font_size_zero, Some(false));
    assert_eq!(normal("font: -5 0 serif").font_size_zero, Some(false));
    assert_eq!(normal("font: 700 12 0 serif").font_size_zero, Some(false));
    assert_eq!(normal("font: 0 700 serif").font_size_zero, Some(true));
}

#[test]
fn zero_is_told_exactly() {
    for v in ["0", "-0", "+0", "0.0", ".0", "0.", "0px", "0%", "0e9", "000", "1e-400"] {
        assert_eq!(zero(v), Some(true), "{v}");
    }
    for v in ["1", "0.5", "-1", "1e-300", "10%", "2em", "1e400", "5e-324"] {
        assert_eq!(zero(v), Some(false), "{v}");
    }
    for v in ["", ".", "inherit", "px", "1 2", "--1", "0x", "e5"] {
        assert_eq!(zero(v), v.trim_end_matches(|c: char| c.is_ascii_alphabetic() || c == '%')
            .parse::<f64>().ok().map(|n| n == 0.0), "{v}");
    }
}

#[test]
fn zero_agrees_with_double_precision() {
    for v in [
        "2.4703282292062327e-324", "2.4703282292062328e-324", "2.47e-324", "2.5e-324",
        "0.00000001e-316", "0.1e-323", "123456789e-332", "1e-323", "-3e-324", "1e-99999999999",
        "0e99999999999", "1.e-5", "1e+5", "1e", "1e-", "+.5", "+", "-",
    ] {
        let expected = v
            .trim_end_matches(|c: char| c.is_ascii_alphabetic() || c == '%')
            .parse::<f64>()
            .ok()
            .map(|n| n == 0.0);
        assert_eq!(zero(v), expected, "{v}");
    }
}

#[test]
fn integers_are_read_within_their_range() {
    assert_eq!(parse_u32(&chars_of("+4294967295")), Some(u32::MAX));
    assert_eq!(parse_u32(&chars_of("4294967296")), None);
    assert_eq!(parse_u32(&chars_of("-1")), None);
    assert_eq!(parse_i64(&chars_of("-9223372036854775808")), Some(i64::MIN));
    assert_eq!(parse_i64(&chars_of("9223372036854775808")), None);
    assert_eq!(parse_i64(&chars_of("+-1")), None);
    assert_eq!(spell(i64::MIN).into_iter().collect::<String>(), "-9223372036854775808");
    assert_eq!(spell(0).into_iter().collect::<String>(), "0");
}

#[test]
fn the_highest_priority_wins_and_ties_go_to_the_last() {
    let s = sheet(
        "p { opacity: 0 } .c { opacity: 1 } #i { opacity: 0 } p { display: none } p { display: block }",
    );
    let e = elem("p", &[("class", "b c"), ("id", "i")]);
    let p = s.element_props(&e);
    assert_eq!(p.opacity_zero, Some(true));
    assert_eq!(p.display_none, Some(false));
    assert!(p.hidden);
    let entries: Vec<Entry> = s.matching_rules(&e);
    assert_eq!(entries.iter().map(|e| e.priority).collect::<Vec<_>>(), [1, 10, 100, 1, 1]);
}

#[test]
fn inline_style_stands_between_rules_and_important_rules() {
    let s = sheet("#i { display: none }");
    let e = elem("p", &[("id", "i"), ("style", "display: block")]);
    assert!(!s.element_props(&e).hidden);
    let s = sheet("p { display: none !important }");
    assert!(s.element_props(&e).hidden);
    let e = elem("p", &[("style", "display: block !important")]);
    assert!(!s.element_props(&e).hidden);
}

#[test]
fn the_two_attributes_hide_whatever_the_style_says() {
    let s = Stylesheet::default();
    let visible = ("style", "display: block !important; visibility: visible");
    assert!(s.element_props(&elem("p", &[("hidden", "until-found"), visible])).hidden);
    assert!(s.element_props(&elem("p", &[("aria-hidden", " True "), visible])).hidden);
    assert!(!s.element_props(&elem("p", &[("aria-hidden", "yes"), visible])).hidden);
    assert!(!s.element_props(&elem("p", &[("style", "font-size: 0")])).hidden);
}
