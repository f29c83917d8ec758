//! Bodies and stylesheets, and the blocks they come to.

use anydoc::css::Stylesheet;
use anydoc::error::ConvertError;
use anydoc::hooks::HtmlCtx;
use anydoc::html::to_blocks;
use anydoc::inlines::{block_text, inlines_to_plain_text};
use anydoc::model::{AnchorId, Block, CellSlot, ImageSource, Inline, LinkTarget, Table};
use anydoc::style::Style;
use anydoc::xml::{Attr, Element, Node};

struct NullCtx;

impl HtmlCtx for NullCtx {
    fn link_target(&self, href: &str) -> Option<LinkTarget> {
        if href.is_empty() {
            None
        } else {
            Some(LinkTarget::External(href.to_string()))
        }
    }

    fn image_source(&self, _src: &str) -> Result<Option<ImageSource>, ConvertError> {
        Ok(None)
    }

    fn anchor_id(&self, raw: &str) -> AnchorId {
        raw.to_string()
    }

    fn clean_text(&self, raw: &str) -> String {
        raw.to_string()
    }

    fn math_to_tex(&self, _math: &Element) -> String {
        String::new()
    }

    fn math_is_display(&self, _math: &Element) -> bool {
        false
    }

    fn header_rows(&self, _table: &Table, declared: usize) -> usize {
        declared
    }
}

/// Reads XML into an element tree: the root holds the top-level nodes. An end
/// tag closes the nearest open element of its name and all that is still open
/// in it.
fn parse_xml(src: &str) -> Element {
    let mut stack: Vec<(String, Element)> = vec![(String::new(), element("", "", Vec::new()))];
    let mut scopes: Vec<Vec<(String, String)>> = vec![Vec::new()];
    let mut rest = src;
    while let Some(open) = rest.find('<') {
        add_text(&mut stack, &rest[..open]);
        let close = rest[open..].find('>').expect("unterminated tag") + open;
        let tag = &rest[open + 1..close];
        rest = &rest[close + 1..];
        if let Some(name) = tag.strip_prefix('/') {
            let at = stack.iter().rposition(|(n, _)| n == name.trim()).expect("stray end tag");
            while stack.len() > at {
                close_last(&mut stack, &mut scopes);
            }
        } else if !tag.starts_with('?') && !tag.starts_with('!') {
            let empty = tag.ends_with('/');
            let (name, attrs) = split_tag(tag.strip_suffix('/').unwrap_or(tag));
            let mut scope = scopes.last().unwrap().clone();
            for (n, v) in &attrs {
                if n == "xmlns" {
                    scope.push((String::new(), v.clone()));
                } else if let Some(prefix) = n.strip_prefix("xmlns:") {
                    scope.push((prefix.to_string(), v.clone()));
                }
            }
            let (ns, local) = resolve_name(&name, &scope, true);
            let attrs = attrs
                .iter()
                .filter(|(n, _)| !n.starts_with("xmlns"))
                .map(|(n, v)| {
                    let (ns, local) = resolve_name(n, &scope, false);
                    Attr { ns, local, value: v.clone() }
                })
                .collect();
            stack.push((name, element(&ns, &local, attrs)));
            scopes.push(scope);
            if empty {
                close_last(&mut stack, &mut scopes);
            }
        }
    }
    add_text(&mut stack, rest);
    while stack.len() > 1 {
        close_last(&mut stack, &mut scopes);
    }
    stack.pop().unwrap().1
}

fn element(ns: &str, local: &str, attrs: Vec<Attr>) -> Element {
    Element { ns: ns.to_string(), local: local.to_string(), attrs, children: Vec::new() }
}

fn close_last(stack: &mut Vec<(String, Element)>, scopes: &mut Vec<Vec<(String, String)>>) {
    let (_, done) = stack.pop().unwrap();
    scopes.pop();
    stack.last_mut().unwrap().1.children.push(Node::Elem(done));
}

fn add_text(stack: &mut Vec<(String, Element)>, raw: &str) {
    if !raw.is_empty() {
        stack.last_mut().unwrap().1.children.push(Node::Text(unescape(raw)));
    }
}

fn unescape(raw: &str) -> String {
    raw.replace("&lt;", "<").replace("&gt;", ">").replace("&quot;", "\"").replace("&amp;", "&")
}

fn resolve_name(name: &str, scope: &[(String, String)], is_element: bool) -> (String, String) {
    let (prefix, local) = match name.split_once(':') {
        Some((p, l)) => (p, l),
        None => ("", name),
    };
    if prefix.is_empty() && !is_element {
        return (String::new(), local.to_string());
    }
    let ns = scope.iter().rev().find(|(p, _)| p == prefix).map(|(_, ns)| ns.clone());
    (ns.unwrap_or_default(), local.to_string())
}

fn split_tag(tag: &str) -> (String, Vec<(String, String)>) {
    let end = tag.find(char::is_whitespace).unwrap_or(tag.len());
    let name = tag[..end].to_string();
    let mut attrs = Vec::new();
    let mut rest = tag[end..].trim_start();
    while let Some(eq) = rest.find('=') {
        let attr = rest[..eq].trim().to_string();
        let value = rest[eq + 1..].trim_start();
        let quote = value.chars().next().unwrap();
        let close = value[1..].find(quote).unwrap() + 1;
        attrs.push((attr, unescape(&value[1..close])));
        rest = value[close + 1..].trim_start();
    }
    (name, attrs)
}

fn blocks_with_css(html: &str, css: &str) -> Vec<Block> {
    let tree = parse_xml(html);
    let body = tree
        .children
        .iter()
        .find_map(|n| match n {
            Node::Elem(e) => Some(e),
            Node::Text(_) => None,
        })
        .unwrap();
    let mut sheet = Stylesheet::default();
    sheet.add(css);
    to_blocks(body, &sheet, &NullCtx).unwrap()
}

fn blocks(html: &str) -> Vec<Block> {
    blocks_with_css(html, "")
}

fn para_text(block: &Block) -> String {
    let Block::Paragraph(inlines) = block else { panic!("expected paragraph: {block:?}") };
    inlines_to_plain_text(inlines)
}

fn first_text_style(inlines: &[Inline]) -> Style {
    for inline in inlines {
        match inline {
            Inline::Text { style, .. } => return *style,
            Inline::Link { content, .. } => return first_text_style(content),
            _ => {}
        }
    }
    panic!("no text run in {inlines:?}");
}

#[test]
fn whitespace_collapses_across_inline_boundaries() {
    // A lone space inside a span must survive between words, and
    // formatting splits must not double or drop spaces.
    let out = blocks("<body><p>foo<span> </span>bar</p></body>");
    assert_eq!(para_text(&out[0]), "foo bar");
    let out = blocks("<body><p>foo <span> bar</span></p></body>");
    assert_eq!(para_text(&out[0]), "foo bar");
    let out = blocks("<body><p>  foo\n  bar  </p></body>");
    assert_eq!(para_text(&out[0]), "foo bar ");
}

#[test]
fn link_label_whitespace_joins_the_surrounding_run() {
    // `foo <a> bar</a>`: the label's leading space collapses with the
    // space already emitted before the link.
    let out = blocks(r#"<body><p>foo <a href="u"> bar</a></p></body>"#);
    let Block::Paragraph(inlines) = &out[0] else { panic!() };
    let Some(Inline::Link { content, .. }) =
        inlines.iter().find(|i| matches!(i, Inline::Link { .. }))
    else {
        panic!("no link in {inlines:?}");
    };
    assert_eq!(inlines_to_plain_text(content), "bar");
    // `foo<a> bar</a>`: no space yet, so the label keeps its lead.
    let out = blocks(r#"<body><p>foo<a href="u"> bar</a></p></body>"#);
    assert_eq!(para_text(&out[0]), "foo bar");
}

#[test]
fn inline_style_overrides_the_tag_default() {
    // `<b style="font-weight: normal">` renders plain.
    let out = blocks(r#"<body><p><b style="font-weight: normal">x</b></p></body>"#);
    let Block::Paragraph(inlines) = &out[0] else { panic!() };
    assert!(!first_text_style(inlines).bold);
}

#[test]
fn important_declarations_win_the_cascade() {
    let css = "span.x { font-weight: bold !important } span.x { font-weight: normal }";
    let out = blocks_with_css(r#"<body><p><span class="x">x</span></p></body>"#, css);
    let Block::Paragraph(inlines) = &out[0] else { panic!() };
    assert!(first_text_style(inlines).bold);
}

#[test]
fn heading_styling_stays_out_of_its_content() {
    // A heading's own CSS is how the heading looks, so it does not reach
    // the runs; emphasis a child adds beyond it still does.
    let css = "h2 { font-style: italic; font-weight: bold }";
    let out = blocks_with_css("<body><h2>title <b>b</b></h2></body>", css);
    let Block::Heading { content, .. } = &out[0] else { panic!("{out:?}") };
    assert_eq!(first_text_style(content), Style::plain());

    let out = blocks_with_css("<body><h2>title <b>b</b></h2></body>", "");
    let Block::Heading { content, .. } = &out[0] else { panic!("{out:?}") };
    assert_eq!(first_text_style(content), Style::plain());
    let Some(Inline::Text { style, .. }) =
        content.iter().rfind(|i| matches!(i, Inline::Text { .. }))
    else {
        panic!()
    };
    assert!(style.bold);
}

#[test]
fn extreme_ordered_list_values_do_not_overflow() {
    // Source-controlled `start`/`value` sit anywhere in i64.
    let html = format!(
        "<body><ol start=\"{}\"><li>a</li><li>b</li><li value=\"{}\">c</li><li>d</li></ol></body>",
        i64::MAX,
        i64::MIN,
    );
    let out = blocks(&html);
    assert!(!out.is_empty());
}

#[test]
fn rowspan_zero_spans_to_the_end_of_the_row_group() {
    // rowspan="0" covers the remaining rows of its row group only.
    let html = r#"<body><table>
        <tbody>
            <tr><td rowspan="0">tall</td><td>a</td></tr>
            <tr><td>b</td></tr>
        </tbody>
        <tbody><tr><td>c</td><td>d</td></tr></tbody>
    </table></body>"#;
    let out = blocks(html);
    let Block::Table(t) = &out[0] else { panic!("{out:?}") };
    assert!(matches!(&t.grid[0][0], CellSlot::Origin(c) if c.row_span == 2));
    assert!(matches!(t.grid[1][0], CellSlot::Covered { origin_row: 0, origin_col: 0 }));
    assert!(matches!(&t.grid[2][0], CellSlot::Origin(_)), "next group must not be covered");
}

#[test]
fn visibility_hidden_and_collapse_drop_content_from_inline_style() {
    let out = blocks(r#"<body><p style="visibility: hidden">x</p><p>y</p></body>"#);
    assert_eq!(out.len(), 1);
    assert_eq!(para_text(&out[0]), "y");

    let out = blocks(r#"<body><p style="visibility: collapse">x</p><p>y</p></body>"#);
    assert_eq!(out.len(), 1);
    assert_eq!(para_text(&out[0]), "y");
}

#[test]
fn visibility_hidden_from_a_style_rule_by_class() {
    let css = "p.gone { visibility: hidden }";
    let out = blocks_with_css(r#"<body><p class="gone">x</p><p>y</p></body>"#, css);
    assert_eq!(out.len(), 1);
    assert_eq!(para_text(&out[0]), "y");
}

#[test]
fn opacity_zero_drops_content() {
    for value in ["0", "0.0", "0%"] {
        let html = format!(r#"<body><p style="opacity: {value}">x</p><p>y</p></body>"#);
        let out = blocks(&html);
        assert_eq!(out.len(), 1, "opacity: {value} should hide its paragraph");
        assert_eq!(para_text(&out[0]), "y");
    }
    // A non-zero opacity keeps the content.
    let out = blocks(r#"<body><p style="opacity: 0.5">x</p></body>"#);
    assert_eq!(out.len(), 1);
    assert_eq!(para_text(&out[0]), "x");
}

#[test]
fn font_size_zero_drops_content_in_any_unit() {
    for value in ["0", "0px", "0em", "0pt", "0%"] {
        let html = format!(r#"<body><p style="font-size: {value}">x</p><p>y</p></body>"#);
        let out = blocks(&html);
        assert_eq!(out.len(), 1, "font-size: {value} should hide its paragraph");
        assert_eq!(para_text(&out[0]), "y");
    }
}

#[test]
fn hidden_attribute_drops_content_regardless_of_value() {
    // XHTML must quote every attribute, so a boolean attribute is
    // written `hidden=""` (or `hidden="hidden"`) rather than bare
    // `hidden`; either still hides.
    let out = blocks(r#"<body><p hidden="">x</p><p>y</p></body>"#);
    assert_eq!(out.len(), 1);
    assert_eq!(para_text(&out[0]), "y");

    // Any value hides, including `hidden="until-found"`.
    let out = blocks(r#"<body><p hidden="until-found">x</p><p>y</p></body>"#);
    assert_eq!(out.len(), 1);
    assert_eq!(para_text(&out[0]), "y");
}

#[test]
fn aria_hidden_true_drops_content() {
    let out = blocks(r#"<body><p aria-hidden="true">x</p><p>y</p></body>"#);
    assert_eq!(out.len(), 1);
    assert_eq!(para_text(&out[0]), "y");

    // Any other value is not a hiding signal.
    let out = blocks(r#"<body><p aria-hidden="false">x</p></body>"#);
    assert_eq!(out.len(), 1);
    assert_eq!(para_text(&out[0]), "x");
}

#[test]
fn hidden_ancestor_hides_descendants_regardless_of_their_own_display() {
    // A child's `display: block` must not resurrect content inside a
    // `display: none` ancestor: descendants never see their own props
    // once the ancestor itself is skipped.
    let html = r#"<body>
        <div style="display: none">
            <p style="display: block">x</p>
        </div>
        <p>y</p>
    </body>"#;
    let out = blocks(html);
    assert_eq!(out.len(), 1);
    assert_eq!(para_text(&out[0]), "y");
}

#[test]
fn closed_details_body_is_left_visible() {
    // A UI-collapsed <details> is not author-hidden content: its body
    // stays in the output whether or not `open` is present.
    let out = blocks("<body><details><summary>s</summary><p>x</p></details></body>");
    let text: String = out.iter().map(para_text).collect::<Vec<_>>().join(" ");
    assert!(text.contains('x'), "{out:?}");
}

#[test]
fn hiding_properties_do_not_cancel_each_other() {
    // Each of the four CSS hiding triggers is independent: a later or
    // higher-priority declaration of a *different* property must not
    // resurrect content another property hid on the same element.
    let out = blocks(r#"<body><p style="font-size:0; display:inline">x</p></body>"#);
    assert!(out.is_empty(), "font-size:0 must survive display:inline: {out:?}");

    let out = blocks(r#"<body><p style="opacity:0; display:block">x</p></body>"#);
    assert!(out.is_empty(), "opacity:0 must survive display:block: {out:?}");

    let css = "p.h { display: none }";
    let out =
        blocks_with_css(r#"<body><p class="h" style="visibility: visible">x</p></body>"#, css);
    assert!(
        out.is_empty(),
        "display:none from a rule must survive visibility:visible: {out:?}"
    );

    // But a property's own opposite value, on the same element, still
    // cancels its own hide.
    let out = blocks(r#"<body><p style="opacity:0; opacity:0.5">x</p></body>"#);
    assert_eq!(out.len(), 1);
    assert_eq!(para_text(&out[0]), "x");
}

#[test]
fn aria_hidden_true_is_case_insensitive() {
    let out = blocks(r#"<body><p aria-hidden="TRUE">x</p><p>y</p></body>"#);
    assert_eq!(out.len(), 1);
    assert_eq!(para_text(&out[0]), "y");

    let out = blocks(r#"<body><p aria-hidden=" True ">x</p><p>y</p></body>"#);
    assert_eq!(out.len(), 1);
    assert_eq!(para_text(&out[0]), "y");
}

#[test]
fn hidden_body_yields_no_blocks() {
    let out = blocks(r#"<body hidden=""><p>x</p></body>"#);
    assert!(out.is_empty(), "{out:?}");

    let out = blocks(r#"<body style="display: none"><p>x</p></body>"#);
    assert!(out.is_empty(), "{out:?}");
}

#[test]
fn hidden_list_item_is_dropped() {
    let out = blocks(
        r#"<body><ul>
            <li>one</li>
            <li hidden="">two</li>
            <li style="display: none">three</li>
            <li>four</li>
        </ul></body>"#,
    );
    let Block::List(list) = &out[0] else { panic!("{out:?}") };
    let texts: Vec<String> = list.items.iter().map(|it| block_text(&it.blocks[0])).collect();
    assert_eq!(texts, vec!["one".to_string(), "four".to_string()]);
}

#[test]
fn list_item_emptied_entirely_by_hidden_content_is_dropped() {
    // The bullet itself is not hidden, but its only content is -
    // leaving no blocks. It must not survive as a bare marker; a
    // genuinely empty `<li></li>` is a separate, unaffected case.
    let out = blocks(
        r#"<body><ul>
            <li>one</li>
            <li><p hidden="">gone</p></li>
            <li>three</li>
            <li></li>
        </ul></body>"#,
    );
    let Block::List(list) = &out[0] else { panic!("{out:?}") };
    assert_eq!(list.items.len(), 3, "{list:?}");
    assert_eq!(block_text(&list.items[0].blocks[0]), "one");
    assert_eq!(block_text(&list.items[1].blocks[0]), "three");
    assert!(list.items[2].blocks.is_empty(), "source-empty <li> stays, empty: {list:?}");
}

#[test]
fn hidden_table_row_is_dropped() {
    let html = r#"<body><table>
        <tr><th>keep</th></tr>
        <tr hidden=""><th>gone</th></tr>
        <tr style="display: none"><td>also gone</td></tr>
        <tr><td>x</td></tr>
    </table></body>"#;
    let out = blocks(html);
    let Block::Table(t) = &out[0] else { panic!("{out:?}") };
    assert_eq!(t.grid.len(), 2, "hidden rows must not be counted: {t:?}");
    assert_eq!(t.header_rows, 1, "a hidden row must not be treated as a header row");
}

#[test]
fn hidden_table_cell_is_dropped() {
    let html = r#"<body><table>
        <tr><td>a</td><td hidden="">b</td></tr>
    </table></body>"#;
    let out = blocks(html);
    let Block::Table(t) = &out[0] else { panic!("{out:?}") };
    // Only the visible cell should occupy the grid.
    assert_eq!(t.grid[0].len(), 1, "{t:?}");
}

#[test]
fn hidden_table_row_group_drops_all_its_rows() {
    let html = r#"<body><table>
        <tbody hidden="">
            <tr><td>gone1</td></tr>
            <tr><td>gone2</td></tr>
        </tbody>
        <tbody><tr><td>kept</td></tr></tbody>
    </table></body>"#;
    let out = blocks(html);
    let Block::Table(t) = &out[0] else { panic!("{out:?}") };
    assert_eq!(t.grid.len(), 1, "{t:?}");
}

#[test]
fn hidden_table_caption_is_dropped() {
    // A caption is a part of its table's structure, like the rows, cells
    // and groups above, and is hidden the same way.
    let html = r#"<body><table>
        <caption hidden="">CAPTION-HIDDEN-LEAK</caption>
        <tr><td>x</td></tr>
    </table></body>"#;
    let out = blocks(html);
    assert_eq!(out.len(), 1, "{out:?}");
    assert!(matches!(&out[0], Block::Table(_)), "{out:?}");

    let html = r#"<body><table>
        <caption style="display: none">CAPTION-DISPLAYNONE-LEAK</caption>
        <tr><td>x</td></tr>
    </table></body>"#;
    let out = blocks(html);
    assert_eq!(out.len(), 1, "{out:?}");
    assert!(matches!(&out[0], Block::Table(_)), "{out:?}");
}

#[test]
fn visible_table_caption_still_renders_as_a_paragraph() {
    let html = r#"<body><table>
        <caption>Table Title</caption>
        <tr><td>x</td></tr>
    </table></body>"#;
    let out = blocks(html);
    assert_eq!(out.len(), 2, "{out:?}");
    assert_eq!(para_text(&out[0]), "Table Title");
    assert!(matches!(&out[1], Block::Table(_)), "{out:?}");
}

#[test]
fn pre_text_skips_hidden_descendants() {
    let out =
        blocks(r#"<body><pre>pre-visible <span hidden="">PRE-HIDDEN-LEAK</span></pre></body>"#);
    let Block::CodeBlock { text, .. } = &out[0] else { panic!("{out:?}") };
    assert!(!text.contains("PRE-HIDDEN-LEAK"), "{text:?}");
    assert!(text.contains("pre-visible"), "{text:?}");
}

#[test]
fn font_shorthand_zero_size_drops_content() {
    let out = blocks(r#"<body><p style="font: 0/0 a">x</p><p>y</p></body>"#);
    assert_eq!(out.len(), 1, "{out:?}");
    assert_eq!(para_text(&out[0]), "y");
}

#[test]
fn font_shorthand_with_nonzero_size_keeps_content() {
    let out = blocks(r#"<body><p style="font: 12px/1.4 serif">x</p></body>"#);
    assert_eq!(out.len(), 1, "{out:?}");
    assert_eq!(para_text(&out[0]), "x");
}

#[test]
fn opacity_and_font_size_zero_from_a_style_rule_by_class() {
    for prop in ["opacity: 0", "font-size: 0"] {
        let css = format!(".h {{ {prop} }}");
        let out = blocks_with_css(r#"<body><p class="h">x</p><p>y</p></body>"#, &css);
        assert_eq!(out.len(), 1, "{prop}: {out:?}");
        assert_eq!(para_text(&out[0]), "y", "{prop}");
    }
}

#[test]
fn font_size_zero_container_does_not_hide_a_child_that_resets_it() {
    // `font-size: 0` on a container followed by a non-zero reset on a
    // descendant is a common visible pattern (the classic `ul.ib {
    // font-size: 0 } ul.ib li { font-size: 16px }` inline-block
    // whitespace-removal hack, among others); unlike
    // display/visibility/opacity, font-size is an ordinary inherited
    // CSS property, so a descendant's own value cancels the ancestor's
    // zero instead of the whole subtree being blanket-hidden. (The
    // supported CSS subset has no descendant combinator, so this
    // exercises the same cascade with a `<div>`/`<p>` pair instead of
    // `ul`/`li`.)
    let out = blocks(
        r#"<body><div style="font-size: 0">
            <p style="font-size: 16px">IB-VISIBLE-ITEM-ONE</p>
            <p style="font-size: 16px">IB-VISIBLE-ITEM-TWO</p>
        </div></body>"#,
    );
    assert_eq!(out.len(), 2, "{out:?}");
    assert_eq!(para_text(&out[0]), "IB-VISIBLE-ITEM-ONE");
    assert_eq!(para_text(&out[1]), "IB-VISIBLE-ITEM-TWO");
}

#[test]
fn font_size_zero_hides_only_text_that_does_not_reset_it() {
    let html = r#"<body><p style="font-size: 0">gone <span style="font-size: 16px">kept</span></p></body>"#;
    let out = blocks(html);
    assert_eq!(out.len(), 1, "{out:?}");
    assert_eq!(para_text(&out[0]), "kept");
}

#[test]
fn font_size_zero_does_not_hide_non_text_content() {
    // Replaced content (an image) is unaffected by font-size either way.
    let html = r#"<body><p style="font-size: 0"><img src="a.png" alt="pic"></p></body>"#;
    let out = blocks(html);
    let Block::Paragraph(inlines) = &out[0] else { panic!("{out:?}") };
    assert!(inlines.iter().any(|i| matches!(i, Inline::Image { .. })), "{inlines:?}");
}

#[test]
fn skipped_ordered_list_item_does_not_shift_following_numbers() {
    // A middle item emptied entirely by hidden content must not steal a
    // number that renumbers the surviving items after it: the skipped
    // item is a discontinuity, so "three" starts a fresh run at its own
    // true source number (3) rather than landing at 2.
    let out = blocks(
        r#"<body><ol>
            <li>one</li>
            <li><span hidden="">gone</span></li>
            <li>three</li>
        </ol></body>"#,
    );
    let starts_and_text: Vec<(u64, String)> = out
        .iter()
        .map(|b| {
            let Block::List(l) = b else { panic!("{out:?}") };
            (l.start, block_text(&l.items[0].blocks[0]))
        })
        .collect();
    assert_eq!(
        starts_and_text,
        vec![(1, "one".to_string()), (3, "three".to_string())],
        "{out:?}"
    );
}

#[test]
fn skipped_first_ordered_list_item_does_not_lower_the_next_items_number() {
    let out = blocks(
        r#"<body><ol>
            <li><span hidden="">gone</span></li>
            <li>two</li>
        </ol></body>"#,
    );
    let Block::List(list) = &out[0] else { panic!("{out:?}") };
    assert_eq!(list.start, 2, "{list:?}");
    assert_eq!(block_text(&list.items[0].blocks[0]), "two");
}

#[test]
fn anchor_with_hidden_label_drops_the_whole_link() {
    // The label is not merely empty in the source - it was
    // emptied by dropping hidden content. Falling back to the URL as
    // link text would leak the attacker-chosen href as visible prose.
    let out = blocks(
        r#"<body><p><a href="https://evil.example/IGNORE"><span hidden="">x</span></a></p></body>"#,
    );
    assert!(out.is_empty(), "hidden-label link must not leak its URL: {out:?}");
}

#[test]
fn anchor_with_hidden_label_drops_the_link_but_keeps_a_visible_sibling() {
    let out = blocks(
        r#"<body><p>
            <a href="https://evil.example/IGNORE"><span hidden="">x</span></a>
            <a href="https://good.example">kept</a>
        </p></body>"#,
    );
    let Block::Paragraph(inlines) = &out[0] else { panic!("{out:?}") };
    let links: Vec<&str> = inlines
        .iter()
        .filter_map(|i| match i {
            Inline::Link { target: LinkTarget::External(u), .. } => Some(u.as_str()),
            _ => None,
        })
        .collect();
    assert_eq!(links, vec!["https://good.example"], "{inlines:?}");
}

#[test]
fn anchor_with_no_text_at_all_still_renders_the_url_as_label() {
    // A link that was genuinely empty in the source (nothing hidden,
    // just no label) is unaffected - the
    // renderer is the one that falls back to the URL as its own text.
    let out = blocks(r#"<body><p><a href="https://example.com"></a></p></body>"#);
    let Block::Paragraph(inlines) = &out[0] else { panic!("{out:?}") };
    let link = inlines.iter().find(|i| matches!(i, Inline::Link { .. }));
    assert!(
        matches!(
            link,
            Some(Inline::Link { content, target: LinkTarget::External(u) })
                if content.is_empty() && u == "https://example.com"
        ),
        "{inlines:?}"
    );
}

#[test]
fn anchor_wrapping_a_list_with_a_hidden_item_drops_the_link() {
    // A hidden `<li>` counts as a drop too, though a list picks its items
    // itself.
    let out = blocks(
        r#"<body><p>
            <a href="https://evil.example/X"><ul><li hidden="">x</li></ul></a>
            <a href="https://good.example">kept</a>
        </p></body>"#,
    );
    let Block::Paragraph(inlines) = &out[0] else { panic!("{out:?}") };
    let links: Vec<&str> = inlines
        .iter()
        .filter_map(|i| match i {
            Inline::Link { target: LinkTarget::External(u), .. } => Some(u.as_str()),
            _ => None,
        })
        .collect();
    assert_eq!(links, vec!["https://good.example"], "{inlines:?}");
}

#[test]
fn anchor_wrapping_a_table_with_a_hidden_row_drops_the_link() {
    // The same, by way of a table's rows.
    let out = blocks(
        r#"<body><p><a href="https://evil.example/X"><table><tr hidden=""><td>x</td></tr></table></a></p></body>"#,
    );
    assert!(out.is_empty(), "hidden-table-row label must not leak its URL: {out:?}");
}

#[test]
fn anchor_wrapping_pre_with_hidden_span_drops_the_link() {
    // The same, by way of preformatted text.
    let out = blocks(
        r#"<body><p><a href="https://evil.example/X"><pre><span hidden="">x</span></pre></a></p></body>"#,
    );
    assert!(out.is_empty(), "hidden-pre-content label must not leak its URL: {out:?}");
}

#[test]
fn id_selector_hides_the_element() {
    // `#byid` is an id selector, not a tag of that name.
    let css = "#byid { display: none }";
    let out = blocks_with_css(r#"<body><p id="byid">x</p><p>y</p></body>"#, css);
    assert_eq!(out.len(), 1, "{out:?}");
    assert_eq!(para_text(&out[0]), "y");
}

#[test]
fn tag_id_selector_hides_the_element() {
    let css = "p#byid { display: none }";
    let out = blocks_with_css(r#"<body><p id="byid">x</p><p>y</p></body>"#, css);
    assert_eq!(out.len(), 1, "{out:?}");
    assert_eq!(para_text(&out[0]), "y");

    // A tag mismatch on the same id must not match.
    let out = blocks_with_css(r#"<body><div id="byid">x</div></body>"#, css);
    assert_eq!(out.len(), 1, "{out:?}");
    assert_eq!(para_text(&out[0]), "x");
}

#[test]
fn hidden_attribute_selector_hides_the_element() {
    let css = "[hidden] { display: none }";
    let out = blocks_with_css(r#"<body><p hidden="">x</p><p>y</p></body>"#, css);
    assert_eq!(out.len(), 1, "{out:?}");
    assert_eq!(para_text(&out[0]), "y");
}

#[test]
fn aria_hidden_true_attribute_selector_hides_the_element() {
    for selector in [r#"[aria-hidden="true"]"#, r#"[aria-hidden=true]"#] {
        let css = format!("{selector} {{ display: none }}");
        let out = blocks_with_css(r#"<body><p aria-hidden="true">x</p><p>y</p></body>"#, &css);
        assert_eq!(out.len(), 1, "{selector}: {out:?}");
        assert_eq!(para_text(&out[0]), "y", "{selector}");
    }
}

#[test]
fn attribute_selectors_parse_into_exactly_the_two_supported_rules() {
    // `hidden_attribute_selector_hides_the_element` and
    // `aria_hidden_true_attribute_selector_hides_the_element` above only
    // exercise elements that the `hidden`/`aria-hidden="true"`
    // attributes already force-hide outright, regardless of CSS. This one
    // pins the parsing itself: exactly the two supported attribute
    // selectors produce a rule, and a lookalike (`[data-x]`) does not.
    for selector in ["[hidden]", r#"[aria-hidden="true"]"#, "[aria-hidden=true]"] {
        let mut sheet = Stylesheet::default();
        sheet.add(&format!("{selector} {{ display: none }}"));
        assert_eq!(sheet.rule_count(), 1, "{selector} should parse to one rule");
    }
    let mut sheet = Stylesheet::default();
    sheet.add("[data-x] { display: none }");
    assert_eq!(sheet.rule_count(), 0, "[data-x] is outside the supported subset");
}

#[test]
fn descendant_combinator_selector_is_skipped_not_matched() {
    // A known limitation: combinator selectors are out of the
    // supported subset, so the element stays visible rather than being
    // (mis)matched some other way.
    let css = "div.wrap p { display: none }";
    let out = blocks_with_css(r#"<body><div class="wrap"><p>x</p></div></body>"#, css);
    assert_eq!(out.len(), 1, "{out:?}");
    assert_eq!(para_text(&out[0]), "x");
}

#[test]
fn at_rule_wrapped_selector_is_skipped_not_matched() {
    // A known limitation: `@media`/`@supports`/`@import` (and any other
    // nested block) is skipped whole - the wrapped rule's declarations
    // never take effect, same as an unsupported selector.
    let css = "@media screen { #x { display: none } }";
    let out = blocks_with_css(r#"<body><p id="x">x</p></body>"#, css);
    assert_eq!(out.len(), 1, "{out:?}");
    assert_eq!(para_text(&out[0]), "x");
}

#[test]
fn general_attribute_selector_is_skipped_not_matched() {
    // `[data-x]` (and anything beyond the two hiding attributes above)
    // is out of the supported subset.
    let css = "p[data-x] { display: none }";
    let out = blocks_with_css(r#"<body><p data-x="1">x</p></body>"#, css);
    assert_eq!(out.len(), 1, "{out:?}");
    assert_eq!(para_text(&out[0]), "x");
}

#[test]
fn class_selector_still_works_alongside_id_and_attribute_selectors() {
    let css = ".gone { display: none }";
    let out = blocks_with_css(r#"<body><p class="gone">x</p><p>y</p></body>"#, css);
    assert_eq!(out.len(), 1, "{out:?}");
    assert_eq!(para_text(&out[0]), "y");
}

#[test]
fn selector_list_handles_each_part_independently() {
    let css = "#a, .b, [hidden] { display: none }";
    let out = blocks_with_css(
        r#"<body><p id="a">1</p><p class="b">2</p><p hidden="">3</p><p>4</p></body>"#,
        css,
    );
    assert_eq!(out.len(), 1, "{out:?}");
    assert_eq!(para_text(&out[0]), "4");
}
