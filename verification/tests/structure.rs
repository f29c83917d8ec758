//! Lists, tables and the other blocks that bodies come to.

use anydoc::css::Stylesheet;
use anydoc::error::ConvertError;
use anydoc::hooks::HtmlCtx;
use anydoc::html;
use anydoc::html::to_blocks;
use anydoc::inlines::{block_text, inlines_to_plain_text};
use anydoc::model::{
    AnchorId, Block, CellSlot, ImageSource, Inline, LinkTarget, List, MarkerKind, Table,
};
use anydoc::style::Style;
use anydoc::xml::{Attr, Element, Node};

/// Reads XML into an element tree: the root holds the top-level nodes. An end
/// tag closes the nearest open element of its name and all that is still open
/// in it.
fn parse_xml(src: &str) -> Element {
    let mut stack: Vec<(String, Element)> = vec![(String::new(), element("", "", Vec::new()))];
    let mut scopes: Vec<Vec<(String, String)>> = vec![Vec::new()];
    let mut rest = src;
    while let Some(open) = rest.find('<') {
        add_text(&mut stack, &rest[..open]);
        let close = rest[open..].find('>').expect("unterminated tag") + open;
        let tag = &rest[open + 1..close];
        rest = &rest[close + 1..];
        if let Some(name) = tag.strip_prefix('/') {
            let at = stack.iter().rposition(|(n, _)| n == name.trim()).expect("stray end tag");
            while stack.len() > at {
                close_last(&mut stack, &mut scopes);
            }
        } else if !tag.starts_with('?') && !tag.starts_with('!') {
            let empty = tag.ends_with('/');
            let (name, attrs) = split_tag(tag.strip_suffix('/').unwrap_or(tag));
            let mut scope = scopes.last().unwrap().clone();
            for (n, v) in &attrs {
                if n == "xmlns" {
                    scope.push((String::new(), v.clone()));
                } else if let Some(prefix) = n.strip_prefix("xmlns:") {
                    scope.push((prefix.to_string(), v.clone()));
                }
            }
            let (ns, local) = resolve_name(&name, &scope, true);
            let attrs = attrs
                .iter()
                .filter(|(n, _)| !n.starts_with("xmlns"))
                .map(|(n, v)| {
                    let (ns, local) = resolve_name(n, &scope, false);
                    Attr { ns, local, value: v.clone() }
                })
                .collect();
            stack.push((name, element(&ns, &local, attrs)));
            scopes.push(scope);
            if empty {
                close_last(&mut stack, &mut scopes);
            }
        }
    }
    add_text(&mut stack, rest);
    while stack.len() > 1 {
        close_last(&mut stack, &mut scopes);
    }
    stack.pop().unwrap().1
}

fn element(ns: &str, local: &str, attrs: Vec<Attr>) -> Element {
    Element { ns: ns.to_string(), local: local.to_string(), attrs, children: Vec::new() }
}

fn close_last(stack: &mut Vec<(String, Element)>, scopes: &mut Vec<Vec<(String, String)>>) {
    let (_, done) = stack.pop().unwrap();
    scopes.pop();
    stack.last_mut().unwrap().1.children.push(Node::Elem(done));
}

fn add_text(stack: &mut Vec<(String, Element)>, raw: &str) {
    if !raw.is_empty() {
        stack.last_mut().unwrap().1.children.push(Node::Text(unescape(raw)));
    }
}

fn unescape(raw: &str) -> String {
    raw.replace("&lt;", "<").replace("&gt;", ">").replace("&quot;", "\"").replace("&amp;", "&")
}

fn resolve_name(name: &str, scope: &[(String, String)], is_element: bool) -> (String, String) {
    let (prefix, local) = match name.split_once(':') {
        Some((p, l)) => (p, l),
        None => ("", name),
    };
    if prefix.is_empty() && !is_element {
        return (String::new(), local.to_string());
    }
    let ns = scope.iter().rev().find(|(p, _)| p == prefix).map(|(_, ns)| ns.clone());
    (ns.unwrap_or_default(), local.to_string())
}

fn split_tag(tag: &str) -> (String, Vec<(String, String)>) {
    let end = tag.find(char::is_whitespace).unwrap_or(tag.len());
    let name = tag[..end].to_string();
    let mut attrs = Vec::new();
    let mut rest = tag[end..].trim_start();
    while let Some(eq) = rest.find('=') {
        let attr = rest[..eq].trim().to_string();
        let value = rest[eq + 1..].trim_start();
        let quote = value.chars().next().unwrap();
        let close = value[1..].find(quote).unwrap() + 1;
        attrs.push((attr, unescape(&value[1..close])));
        rest = value[close + 1..].trim_start();
    }
    (name, attrs)
}

/// Hooks that answer visibly, so that a test sees what was asked of them.
struct Hooks {
    refuse_images: bool,
}

impl HtmlCtx for Hooks {
    fn link_target(&self, href: &str) -> Option<LinkTarget> {
        if let Some(id) = href.strip_prefix('#') {
            Some(LinkTarget::Anchor(format!("here-{id}")))
        } else if href == "nowhere" {
            None
        } else {
            Some(LinkTarget::External(href.to_string()))
        }
    }

    fn image_source(&self, src: &str) -> Result<Option<ImageSource>, ConvertError> {
        if self.refuse_images {
            Err(ConvertError::Unsupported(format!("image {src}")))
        } else if src == "known.png" {
            Ok(Some(ImageSource::Asset(7)))
        } else {
            Ok(None)
        }
    }

    fn anchor_id(&self, raw: &str) -> AnchorId {
        format!("here-{raw}")
    }

    fn clean_text(&self, raw: &str) -> String {
        raw.replace('\u{ad}', "")
    }

    fn math_to_tex(&self, math: &Element) -> String {
        math.children.iter().map(|n| if let Node::Text(t) = n { t.as_str() } else { "" }).collect()
    }

    fn math_is_display(&self, math: &Element) -> bool {
        math.attrs.iter().any(|a| a.local == "display" && a.value == "block")
    }

    fn header_rows(&self, table: &Table, declared: usize) -> usize {
        assert_eq!(table.header_rows, 0);
        declared * 10
    }
}

fn convert(html: &str, css: &str, refuse_images: bool) -> Result<Vec<Block>, ConvertError> {
    let tree = parse_xml(html);
    let body = tree
        .children
        .iter()
        .find_map(|n| match n {
            Node::Elem(e) => Some(e),
            Node::Text(_) => None,
        })
        .unwrap();
    let mut sheet = Stylesheet::default();
    sheet.add(css);
    to_blocks(body, &sheet, &Hooks { refuse_images })
}

fn styled(html: &str, css: &str) -> Vec<Block> {
    convert(html, css, false).unwrap()
}

fn blocks(html: &str) -> Vec<Block> {
    styled(html, "")
}

fn line(block: &Block) -> &Vec<Inline> {
    let Block::Paragraph(inlines) = block else { panic!("expected paragraph: {block:?}") };
    inlines
}

fn list(block: &Block) -> &List {
    let Block::List(list) = block else { panic!("expected list: {block:?}") };
    list
}

fn table(block: &Block) -> &Table {
    let Block::Table(table) = block else { panic!("expected table: {block:?}") };
    table
}

fn text(block: &Block) -> String {
    block_text(block)
}

fn items(list: &List) -> Vec<(Option<String>, String)> {
    list.items
        .iter()
        .map(|it| {
            let t: Vec<String> = it.blocks.iter().map(text).collect();
            (it.marker_label.clone(), t.join("|"))
        })
        .collect()
}

fn only_style(block: &Block) -> Style {
    match &line(block)[0] {
        Inline::Text { style, .. } => *style,
        other => panic!("expected text: {other:?}"),
    }
}

// ---------------------------------------------------------------------------
// Lists

#[test]
fn a_bullet_list_keeps_its_items() {
    let out = blocks("<body><ul><li>a</li><li><p>b</p><p>c</p></li></ul></body>");
    let l = list(&out[0]);
    assert_eq!(l.marker, MarkerKind::Bullet);
    assert_eq!(l.start, 1);
    assert_eq!(items(l), [(None, "a".to_string()), (None, "b|c".to_string())]);
}

#[test]
fn an_ordered_list_counts_from_its_start() {
    let out = blocks(r#"<body><ol start="3" type="I"><li>a</li><li>b</li></ol></body>"#);
    assert_eq!(out.len(), 1);
    let l = list(&out[0]);
    assert_eq!((l.marker, l.start), (MarkerKind::UpperRoman, 3));
    assert_eq!(items(l), [(None, "a".to_string()), (None, "b".to_string())]);
}

#[test]
fn list_types_choose_the_marker() {
    for (t, marker) in [
        ("a", MarkerKind::LowerAlpha),
        ("A", MarkerKind::UpperAlpha),
        ("i", MarkerKind::LowerRoman),
        ("I", MarkerKind::UpperRoman),
        ("1", MarkerKind::Decimal),
        ("x", MarkerKind::Decimal),
    ] {
        let out = blocks(&format!(r#"<body><ol type="{t}"><li>a</li></ol></body>"#));
        assert_eq!(list(&out[0]).marker, marker, "{t}");
    }
}

#[test]
fn a_reversed_list_counts_down_in_blocks_of_one() {
    let out = blocks(r#"<body><ol reversed=""><li>a</li><li>b</li><li>c</li></ol></body>"#);
    let got: Vec<(u64, String)> =
        out.iter().map(|b| (list(b).start, items(list(b))[0].1.clone())).collect();
    let want = [(3, "a".to_string()), (2, "b".to_string()), (1, "c".to_string())];
    assert_eq!(got, want);
}

#[test]
fn a_value_restarts_the_numbers() {
    let out = blocks(
        r#"<body><ol><li>a</li><li value="7">b</li><li>c</li><li value="8">d</li></ol></body>"#,
    );
    let got: Vec<(u64, usize)> =
        out.iter().map(|b| (list(b).start, list(b).items.len())).collect();
    assert_eq!(got, [(1, 1), (7, 2), (8, 1)]);
}

#[test]
fn zero_and_negative_numbers_become_labels() {
    let out = blocks(r#"<body><ol start="-1"><li>a</li><li>b</li><li>c</li></ol></body>"#);
    assert_eq!(out.len(), 1);
    let l = list(&out[0]);
    assert_eq!((l.marker, l.start), (MarkerKind::Decimal, 1));
    assert_eq!(
        items(l),
        [
            (Some("-1.".to_string()), "a".to_string()),
            (Some("0.".to_string()), "b".to_string()),
            (Some("1.".to_string()), "c".to_string()),
        ]
    );
}

#[test]
fn numbers_stay_at_the_end_of_their_range() {
    let html = format!(
        r#"<body><ol start="{}"><li>a</li><li>b</li></ol></body>"#,
        i64::MAX
    );
    let out = blocks(&html);
    let starts: Vec<u64> = out.iter().map(|b| list(b).start).collect();
    assert_eq!(starts, [i64::MAX as u64, i64::MAX as u64]);
}

#[test]
fn a_list_of_nothing_but_hidden_items_is_no_block() {
    assert!(blocks(r#"<body><ul><li hidden="">a</li></ul></body>"#).is_empty());
    assert!(blocks(r#"<body><ol><li><p hidden="">a</p></li></ol></body>"#).is_empty());
    assert!(blocks("<body><ol></ol></body>").is_empty());
}

#[test]
fn a_font_size_of_zero_on_a_list_is_reset_by_its_items() {
    let css = "ul { font-size: 0 } li { font-size: 16px }";
    let out = styled("<body><ul> <li>one</li> <li>two</li> </ul></body>", css);
    assert_eq!(items(list(&out[0])), [(None, "one".to_string()), (None, "two".to_string())]);
    let out = styled("<body><ul><li>one</li></ul></body>", "ul { font-size: 0 }");
    assert!(out.is_empty(), "{out:?}");
}

#[test]
fn the_style_of_an_item_reaches_its_text() {
    let out = blocks(r#"<body><ul><li style="font-weight: bold">a</li></ul></body>"#);
    assert!(only_style(&list(&out[0]).items[0].blocks[0]).bold);
}

// ---------------------------------------------------------------------------
// Tables

fn slots(t: &Table) -> Vec<Vec<String>> {
    t.grid
        .iter()
        .map(|row| {
            row.iter()
                .map(|s| match s {
                    CellSlot::Origin(c) => c.blocks.iter().map(text).collect(),
                    CellSlot::Covered { origin_row, origin_col } => {
                        format!("<{origin_row},{origin_col}>")
                    }
                })
                .collect()
        })
        .collect()
}

#[test]
fn spans_cover_the_slots_they_reach() {
    let html = r#"<body><table>
        <tr><td rowspan="2">a</td><td colspan="2">b</td></tr>
        <tr><td>c</td><td>d</td></tr>
    </table></body>"#;
    let out = blocks(html);
    assert_eq!(slots(table(&out[0])), [["a", "b", "<0,1>"], ["<0,0>", "c", "d"]]);
}

#[test]
fn a_gap_before_a_carried_column_is_an_empty_cell() {
    let html = r#"<body><table>
        <tr><td>a</td><td>b</td><td rowspan="2">c</td></tr>
        <tr></tr>
    </table></body>"#;
    let out = blocks(html);
    assert_eq!(slots(table(&out[0])), [["a", "b", "c"], ["", "", "<0,2>"]]);
}

#[test]
fn spans_are_kept_within_their_bounds() {
    let html = r#"<body><table>
        <tr><td colspan="0" rowspan="99999999">a</td><td colspan="2000">b</td><td rowspan="x">c</td></tr>
    </table></body>"#;
    let out = blocks(html);
    let row = &table(&out[0]).grid[0];
    let CellSlot::Origin(a) = &row[0] else { panic!() };
    assert_eq!((a.col_span, a.row_span), (1, 65534));
    let CellSlot::Origin(b) = &row[1] else { panic!() };
    assert_eq!((b.col_span, b.row_span), (1000, 1));
    let CellSlot::Origin(c) = &row[1001] else { panic!() };
    assert_eq!((c.col_span, c.row_span), (1, 1));
}

#[test]
fn a_row_that_gets_too_wide_is_refused() {
    let cells = "<td colspan=\"1000\">x</td>".repeat(11);
    let html = format!("<body><table><tr>{cells}</tr></table></body>");
    assert_eq!(convert(&html, "", false).unwrap_err(), ConvertError::LimitExceeded);
    let cells = "<td colspan=\"1000\">x</td>".repeat(10);
    let html = format!("<body><table><tr>{cells}</tr></table></body>");
    assert_eq!(table(&convert(&html, "", false).unwrap()[0]).grid[0].len(), 10_000);
}

#[test]
fn declared_headers_are_counted_from_the_top() {
    let html = r#"<body><table>
        <thead><tr><td>h</td></tr></thead>
        <tr><th>h</th></tr>
        <tr><td>x</td></tr>
        <tr><th>not</th></tr>
    </table></body>"#;
    assert_eq!(table(&blocks(html)[0]).header_rows, 20);
    let html = "<body><table><tr><th>h</th><td>x</td></tr></table></body>";
    assert_eq!(table(&blocks(html)[0]).header_rows, 0);
}

#[test]
fn rows_outside_a_group_share_theirs() {
    let html = r#"<body><table>
        <tr><td rowspan="0">a</td><td>b</td></tr>
        <caption>c</caption>
        <tr><td>d</td></tr>
        <tbody><tr><td>e</td><td>f</td></tr></tbody>
        <tr><td>g</td><td>h</td></tr>
    </table></body>"#;
    let out = blocks(html);
    assert_eq!(
        slots(table(&out[1])),
        [["a", "b"], ["<0,0>", "d"], ["e", "f"], ["g", "h"]]
    );
}

#[test]
fn a_table_without_a_cell_is_no_block() {
    assert!(blocks("<body><table><tr></tr></table></body>").is_empty());
    assert!(blocks("<body><table></table></body>").is_empty());
    assert!(blocks(r#"<body><table><tr><td hidden="">x</td></tr></table></body>"#).is_empty());
}

#[test]
fn a_font_size_of_zero_on_a_table_is_reset_on_the_way_to_its_cells() {
    for reset in ["td", "tr", "tbody"] {
        let css = format!("table {{ font-size: 0 }} {reset} {{ font-size: 12px }}");
        let html = "<body><table><tbody><tr><td>x</td></tr></tbody></table></body>";
        assert_eq!(slots(table(&styled(html, &css)[0])), [["x"]], "{reset}");
    }
    let html = "<body><table><tr><td>x</td></tr></table></body>";
    assert_eq!(slots(table(&styled(html, "table { font-size: 0 }")[0])), [[""]]);
}

// ---------------------------------------------------------------------------
// Other blocks

#[test]
fn headings_have_levels_and_anchors() {
    let out = blocks(r#"<body><h3 id="x">t</h3><h6>u</h6></body>"#);
    let Block::Heading { level, anchor, content } = &out[0] else { panic!("{out:?}") };
    assert_eq!((*level, anchor.as_deref()), (3, Some("here-x")));
    assert_eq!(inlines_to_plain_text(content), "t");
    let Block::Heading { level, anchor, .. } = &out[1] else { panic!("{out:?}") };
    assert_eq!((*level, anchor.as_deref()), (6, None));
}

#[test]
fn an_empty_heading_leaves_its_anchors() {
    let out = blocks(r#"<body><h1 id="x"><a name="y"></a> </h1><h2></h2></body>"#);
    assert_eq!(out.len(), 1);
    let ids: Vec<&str> = line(&out[0])
        .iter()
        .map(|i| match i {
            Inline::Anchor(id) => id.as_str(),
            other => panic!("{other:?}"),
        })
        .collect();
    assert_eq!(ids, ["here-x", "here-y"]);
}

#[test]
fn a_heading_in_bold_keeps_what_goes_beyond_it() {
    let out = styled(
        "<body><h1>a<i>b</i><a href=\"u\"><b>c</b></a></h1></body>",
        "h1 { font-weight: bold }",
    );
    let Block::Heading { content, .. } = &out[0] else { panic!("{out:?}") };
    let Inline::Text { style, .. } = &content[0] else { panic!() };
    assert_eq!(*style, Style::plain());
    let Inline::Text { style, .. } = &content[1] else { panic!() };
    assert!(style.italic && !style.bold);
    let Inline::Link { content, .. } = &content[2] else { panic!() };
    let Inline::Text { style, .. } = &content[0] else { panic!() };
    assert_eq!(*style, Style::plain());
}

#[test]
fn quotes_rules_and_preformatted_text_are_blocks() {
    let out = blocks(
        "<body>x<blockquote><p>q</p></blockquote><hr/><pre> a\n  b<i> c</i></pre><blockquote> </blockquote></body>",
    );
    assert_eq!(out.len(), 4, "{out:?}");
    assert_eq!(inlines_to_plain_text(line(&out[0])), "x");
    let Block::BlockQuote(inner) = &out[1] else { panic!("{out:?}") };
    assert_eq!(inlines_to_plain_text(line(&inner[0])), "q");
    assert!(matches!(&out[2], Block::Rule));
    let Block::CodeBlock { lang, text } = &out[3] else { panic!("{out:?}") };
    assert_eq!((lang.as_deref(), text.as_str()), (None, " a\n  b c"));
}

#[test]
fn formulas_stand_in_the_line_or_on_their_own() {
    let out = blocks(
        r#"<body><p>a<math>x</math><math/></p><p>b<math display="block">y</math>c</p></body>"#,
    );
    assert!(matches!(&line(&out[0])[1], Inline::Math(t) if t == "x"));
    assert_eq!(line(&out[0]).len(), 2);
    let out = blocks(r#"<body>b<math display="block">y</math>c</body>"#);
    assert_eq!(out.len(), 3, "{out:?}");
    assert!(matches!(&out[1], Block::Math(t) if t == "y"));
}

#[test]
fn containers_with_blocks_stand_on_lines_of_their_own() {
    let out = blocks(r#"<body>a<div id="d">b<p>c</p>d</div>e<span>f</span></body>"#);
    let got: Vec<String> = out.iter().map(|b| inlines_to_plain_text(line(b))).collect();
    assert_eq!(got, ["a", "b", "c", "d", "ef"]);
    assert!(matches!(&line(&out[0])[1], Inline::Anchor(id) if id == "here-d"));
    let out = blocks("<body>a<div>b</div>c</body>");
    assert_eq!(out.len(), 1);
    assert_eq!(inlines_to_plain_text(line(&out[0])), "abc");
}

#[test]
fn scripts_and_the_like_are_never_shown() {
    let out = blocks(
        "<body><script>a</script><style>b</style><template>c</template><noscript>d</noscript>e</body>",
    );
    assert_eq!(out.len(), 1);
    assert_eq!(inlines_to_plain_text(line(&out[0])), "e");
}

// ---------------------------------------------------------------------------
// Lines

#[test]
fn presentational_tags_style_their_text() {
    let out = blocks("<body><p><b>a</b><em>b</em><del>c</del><kbd>d</kbd>e</p></body>");
    let styles: Vec<Style> = line(&out[0])
        .iter()
        .map(|i| match i {
            Inline::Text { style, .. } => *style,
            other => panic!("{other:?}"),
        })
        .collect();
    assert!(styles[0].bold && styles[1].italic && styles[2].strike && styles[3].code);
    assert_eq!(styles[4], Style::plain());
}

#[test]
fn text_is_cleaned_before_its_spaces_collapse() {
    let out = blocks("<body><p>a \u{ad} b</p></body>");
    assert_eq!(inlines_to_plain_text(line(&out[0])), "a b");
}

#[test]
fn images_fall_back_to_their_text() {
    let html = r#"<body><p><img src="known.png" alt="k"/><img src="lost.png" alt="l"/><img src="lost.png" alt=" "/><image href="known.png"/></p></body>"#;
    let out = blocks(html);
    let l = line(&out[0]);
    assert_eq!(l.len(), 3, "{l:?}");
    assert!(matches!(&l[0], Inline::Image { alt, source: ImageSource::Asset(7) } if alt == "k"));
    assert!(matches!(&l[1], Inline::Image { alt, source: ImageSource::Unavailable } if alt == "l"));
    assert!(matches!(&l[2], Inline::Image { alt, source: ImageSource::Asset(7) } if alt.is_empty()));
}

#[test]
fn a_refused_image_ends_the_conversion_with_its_error() {
    let html = r#"<body><p>a</p><ul><li><a href="u"><img src="x.png"/></a></li></ul></body>"#;
    let e = convert(html, "", true).unwrap_err();
    assert_eq!(e, ConvertError::Unsupported("image x.png".to_string()));
}

#[test]
fn a_refused_image_that_is_hidden_is_never_asked_for() {
    let html = r#"<body><p>a<img hidden="" src="x.png"/></p></body>"#;
    assert_eq!(convert(html, "", true).unwrap().len(), 1);
}

#[test]
fn links_lead_where_the_hooks_say() {
    let out = blocks(
        r##"<body><p><a href="#s">a</a><a href="nowhere">b</a><a id="i" name="n">c</a></p></body>"##,
    );
    let l = line(&out[0]);
    assert!(matches!(&l[0], Inline::Link { target: LinkTarget::Anchor(id), .. } if id == "here-s"));
    assert!(matches!(&l[1], Inline::Text { text, .. } if text == "b"));
    assert!(matches!(&l[2], Inline::Anchor(id) if id == "here-i"));
    assert!(matches!(&l[3], Inline::Anchor(id) if id == "here-n"));
    assert!(matches!(&l[4], Inline::Text { text, .. } if text == "c"));
}

#[test]
fn a_drop_before_a_link_does_not_take_an_empty_link_with_it() {
    let out = blocks(r#"<body><p><span hidden="">x</span><a href="u"></a></p></body>"#);
    assert!(matches!(&line(&out[0])[0], Inline::Link { content, .. } if content.is_empty()));
}

#[test]
fn a_link_around_a_hidden_link_is_dropped_with_it() {
    for inner in [
        r#"<a href="https://inner.example"><span hidden="">x</span></a>"#,
        r#"<a><span hidden="">x</span></a>"#,
        r#"<b><a href="nowhere"><i hidden="">x</i></a></b>"#,
        r#"<a href="u"><span style="font-size: 0">x</span></a>"#,
    ] {
        let html = format!(r#"<body><p><a href="https://evil.example/X">{inner}</a></p></body>"#);
        assert!(blocks(&html).is_empty(), "{inner}: {:?}", blocks(&html));
    }
    let out = blocks(r#"<body><p><a href="u">y<a href="v"><i hidden="">x</i></a></a></p></body>"#);
    let Inline::Link { content, .. } = &line(&out[0])[0] else { panic!("{out:?}") };
    assert_eq!(inlines_to_plain_text(content), "y");
}

#[test]
fn whether_details_are_open_makes_no_difference() {
    let page = |open: &str| {
        format!(
            r#"<body><details{open} id="d"><summary>s</summary><p>x</p>
            <ul><li><details{open}>y</details></li></ul></details></body>"#
        )
    };
    let closed = format!("{:?}", blocks(&page("")));
    for open in [r#" open="""#, r#" open="open""#] {
        assert_eq!(format!("{:?}", blocks(&page(open))), closed);
    }
}

#[test]
fn block_elements_do_not_depend_on_what_stands_before_them() {
    for elem in [
        "<h2 id=\"h\">a</h2>",
        "<p> a <b>b</b></p>",
        "<ol start=\"2\"><li>a</li><li hidden=\"\">b</li></ol>",
        "<table><caption>c</caption><tr><td>a</td></tr></table>",
        "<blockquote>a</blockquote>",
        "<pre> a </pre>",
        "<hr/>",
        "<p><a href=\"u\"></a></p>",
    ] {
        let alone = blocks(&format!("<body>{elem}</body>"));
        for before in ["x <i>y</i> ", "<h1>x</h1>", "<b hidden=\"\">x</b>", " ", "<br/>x<p>y</p>"] {
            let first = blocks(&format!("<body>{before}</body>"));
            let both = blocks(&format!("<body>{before}{elem}</body>"));
            assert_eq!(format!("{:?}", &both[..first.len()]), format!("{first:?}"));
            assert_eq!(format!("{:?}", &both[first.len()..]), format!("{alone:?}"), "{before}{elem}");
        }
    }
}

fn holds_something(b: &Block) -> bool {
    match b {
        Block::Paragraph(i) => !i.is_empty(),
        Block::Heading { level, content, .. } => (1..=6).contains(level) && !content.is_empty(),
        Block::List(l) => {
            !l.items.is_empty() && l.items.iter().all(|i| i.blocks.iter().all(holds_something))
        }
        Block::BlockQuote(b) => !b.is_empty() && b.iter().all(holds_something),
        Block::CodeBlock { text, .. } => !text.trim().is_empty(),
        Block::Math(tex) => !tex.is_empty(),
        Block::Table(t) => {
            !t.grid.is_empty()
                && t.grid.iter().flatten().all(|s| match s {
                    CellSlot::Origin(c) => c.blocks.iter().all(holds_something),
                    CellSlot::Covered { .. } => true,
                })
        }
        Block::Rule => true,
    }
}

#[test]
fn nothing_empty_comes_out() {
    let parts = [
        "<p> </p>", "<h1></h1>", "<h3> <br/></h3>", "<ul></ul>", "<ol><li hidden=\"\">x</li></ol>",
        "<table></table>", "<table><tr></tr></table>", "<blockquote> </blockquote>",
        "<pre> \n </pre>", "<math display=\"block\"></math>", "<div><p></p></div>",
        "<table><tr><td hidden=\"\">x</td></tr></table>",
    ];
    for part in parts {
        assert!(blocks(&format!("<body>{part}</body>")).is_empty(), "{part}");
        for around in ["blockquote", "div", "b"] {
            let html = format!("<body><{around}>{part}</{around}></body>");
            assert!(blocks(&html).is_empty(), "{html}");
        }
        let html = format!(
            "<body>x<ul><li>{part}</li><li>y{part}</li></ul><table><tr><td>{part}</td><td>z</td></tr>
            <tr>{part}</tr></table><h2 id=\"i\">{part}</h2></body>"
        );
        let out = blocks(&html);
        assert!(!out.is_empty() && out.iter().all(holds_something), "{part}: {out:?}");
    }
}

#[test]
fn hooks_of_a_known_type_convert_alike() {
    let body = parse_xml("<p>a<a href=\"u\">b</a></p>");
    let sheet = Stylesheet::default();
    let hooks = Hooks { refuse_images: false };
    let known = html::convert(&body, &sheet, &hooks).unwrap();
    assert_eq!(format!("{known:?}"), format!("{:?}", to_blocks(&body, &sheet, &hooks).unwrap()));
    assert_eq!(text(&known[0]), "ab");
}

#[test]
fn blocks_in_a_label_become_one_line() {
    let out = blocks(r#"<body><p><a href="u"><p>a</p><ul><li>b  c</li></ul></a></p></body>"#);
    let Inline::Link { content, .. } = &line(&out[0])[0] else { panic!("{out:?}") };
    assert_eq!(content.len(), 3, "{content:?}");
    assert!(matches!(&content[1], Inline::LineBreak));
    assert!(matches!(&content[2], Inline::Text { text, .. } if text == "b c"));
}

#[test]
fn what_hidden_elements_hold_makes_no_difference() {
    let css = ".h { display: none }";
    let page = |inner: &str| {
        format!(
            r#"<body>a<p class="h">{inner}</p><ul><li>x</li><li hidden="">{inner}</li></ul>
            <table><caption class="h">{inner}</caption><tr><td>y</td><td class="h">{inner}</td></tr>
            <tbody hidden=""><tr><td>{inner}</td></tr></tbody></table>
            <pre>z<span class="h">{inner}</span></pre><a href="u"><i class="h">{inner}</i></a></body>"#
        )
    };
    let empty = format!("{:?}", styled(&page(""), css));
    for inner in ["secret", "<b>secret</b>", "<img src=\"known.png\"/>", "<li>secret</li>"] {
        assert_eq!(format!("{:?}", styled(&page(inner), css)), empty, "{inner}");
    }
    assert!(!empty.contains("secret"));
}

#[test]
fn the_style_of_a_body_reaches_its_text() {
    let out = blocks(r#"<body style="font-style: italic">a</body>"#);
    assert!(only_style(&out[0]).italic);
    assert!(blocks(r#"<body style="font-size: 0">a</body>"#).is_empty());
}
