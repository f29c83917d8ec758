//! Runs of text: white space, emptiness, plain text and emphasis.

use anydoc::chars::{chars_of, collapse_ws, is_ignoring_case, string_of};
use anydoc::css::Stylesheet;
use anydoc::grid::GridBuilder;
use anydoc::inlines::{
    at_space_boundary, block_text, flatten, inlines_are_empty, inlines_to_plain_text,
    keeps_paragraph, rebase_emphasis,
};
use anydoc::lists::{list_blocks, number_items, Kept, ListStyle};
use anydoc::model::{
    Block, Cell, CellSlot, ImageSource, Inline, LinkTarget, List, ListItem, MarkerKind, TableKind,
};
use anydoc::style::{Style, StyleDelta};
use anydoc::xml::Element;

fn text(t: &str) -> Inline {
    Inline::Text { text: t.to_string(), style: Style::plain() }
}

fn bold(t: &str) -> Inline {
    Inline::Text { text: t.to_string(), style: Style { bold: true, ..Style::plain() } }
}

fn link(content: Vec<Inline>) -> Inline {
    Inline::Link { content, target: LinkTarget::External("u".to_string()) }
}

fn collapsed(t: &str) -> String {
    string_of(&collapse_ws(&chars_of(t)))
}

#[test]
fn white_space_collapses_to_single_spaces() {
    assert_eq!(collapsed(" a\t\n b\u{a0}\u{2003}c "), " a b c ");
    assert_eq!(collapsed("\n"), " ");
    assert_eq!(collapsed(""), "");
    assert_eq!(collapsed(&collapsed("a  b \n c")), "a b c");
}

#[test]
fn case_is_ignored_for_ascii_letters_only() {
    assert!(is_ignoring_case(&chars_of("TrUe"), "true"));
    assert!(!is_ignoring_case(&chars_of("ÄB"), "äb"));
    assert!(!is_ignoring_case(&chars_of("tru"), "true"));
}

#[test]
fn a_boundary_is_seen_through_anchors_and_empty_labels() {
    assert!(at_space_boundary(&vec![], true));
    assert!(!at_space_boundary(&vec![], false));
    assert!(at_space_boundary(&vec![text("a "), Inline::Anchor("x".to_string())], false));
    assert!(!at_space_boundary(&vec![text("a"), link(vec![]), text("")], true));
    assert!(at_space_boundary(&vec![text("a"), link(vec![text("b ")])], false));
    assert!(at_space_boundary(&vec![text("a"), Inline::LineBreak], false));
    assert!(!at_space_boundary(&vec![text("a "), Inline::Math("x".to_string())], true));
}

#[test]
fn white_space_and_anchors_show_nothing() {
    let anchor = || Inline::Anchor("x".to_string());
    assert!(inlines_are_empty(&vec![text(" \n"), Inline::LineBreak, anchor()]));
    assert!(!inlines_are_empty(&vec![text("a")]));
    assert!(!inlines_are_empty(&vec![link(vec![])]));
    assert!(keeps_paragraph(&vec![text(" "), anchor()]));
    assert!(!keeps_paragraph(&vec![text(" ")]));
    assert!(!keeps_paragraph(&vec![]));
}

#[test]
fn blocks_spell_their_text() {
    let list = Block::List(List {
        marker: MarkerKind::Bullet,
        start: 1,
        items: vec![
            ListItem { blocks: vec![Block::Paragraph(vec![text("a")])], marker_label: None },
            ListItem { blocks: vec![Block::Math("b".to_string())], marker_label: None },
        ],
    });
    assert_eq!(block_text(&list), "a b");
    let quote = Block::BlockQuote(vec![list, Block::Rule]);
    assert_eq!(block_text(&quote), "a b ");
    let code = Block::CodeBlock { lang: None, text: "x  y".to_string() };
    assert_eq!(block_text(&code), "x  y");
}

#[test]
fn blocks_become_one_line_with_breaks_between() {
    let line = flatten(vec![
        Block::Paragraph(vec![text("a")]),
        Block::Heading { level: 1, anchor: None, content: vec![bold("b")] },
        Block::CodeBlock { lang: None, text: "c\n d".to_string() },
    ]);
    assert_eq!(line.len(), 5);
    assert!(matches!(&line[1], Inline::LineBreak));
    assert!(matches!(&line[2], Inline::Text { style, .. } if style.bold));
    assert!(matches!(&line[4], Inline::Text { text, .. } if text == "c d"));
    assert!(flatten(vec![]).is_empty());
}

#[test]
fn emphasis_goes_as_far_as_it_exceeds_the_base() {
    let base = Style { bold: true, ..Style::plain() };
    let out = rebase_emphasis(vec![bold("a"), link(vec![bold("b")]), Inline::LineBreak], base);
    assert!(matches!(&out[0], Inline::Text { style, .. } if *style == Style::plain()));
    let Inline::Link { content, .. } = &out[1] else { panic!() };
    assert!(matches!(&content[0], Inline::Text { style, .. } if *style == Style::plain()));
    let out = rebase_emphasis(vec![bold("a")], Style { italic: true, ..Style::plain() });
    assert!(matches!(&out[0], Inline::Text { style, .. } if style.bold && !style.italic));
}

#[test]
fn plain_text_is_what_the_runs_say() {
    let line = vec![text("a"), Inline::LineBreak, link(vec![bold("b")])];
    let plain = inlines_to_plain_text(&line);
    assert!(plain.starts_with('a') && plain.ends_with('b'), "{plain:?}");
    let image = Inline::Image { alt: "alt".to_string(), source: ImageSource::Unavailable };
    assert!(!inlines_are_empty(&vec![image]));
}

#[test]
fn an_element_that_nothing_applies_to_has_no_properties() {
    let e = Element {
        ns: String::new(),
        local: "p".to_string(),
        attrs: Vec::new(),
        children: Vec::new(),
    };
    let p = Stylesheet::default().element_props(&e);
    assert!(p.is_default() && !p.hidden);
    assert_eq!(StyleDelta::default().resolve(), Style::plain());
}

#[test]
fn numbers_follow_values_and_the_start() {
    let values = vec![None, Some(7), None, None];
    assert_eq!(number_items(&values, 3, false), [3, 7, 8, 9]);
    assert_eq!(number_items(&values, 3, true), [3, 7, 6, 5]);
    assert_eq!(number_items(&vec![None, None], i64::MIN, true), [i64::MIN, i64::MIN]);
}

#[test]
fn the_numbers_that_list_blocks_show_are_those_of_the_items() {
    let kept = |n: i64| Kept { number: n, blocks: Vec::new() };
    let numbers = [1, 2, 4, 5, 5, 9];
    let blocks = list_blocks(
        ListStyle::Counted(MarkerKind::Decimal),
        numbers.iter().map(|n| kept(*n)).collect(),
    );
    let mut shown: Vec<i64> = Vec::new();
    for block in &blocks {
        let Block::List(list) = block else { panic!("{block:?}") };
        for k in 0..list.items.len() {
            shown.push(list.start as i64 + k as i64);
        }
    }
    assert_eq!(shown, numbers);
    assert_eq!(blocks.len(), 4);
}

#[test]
fn a_grid_covers_what_its_cells_reach() {
    let cell = |cols: u32, rows: u32| Cell::spanning(Vec::new(), cols, rows);
    let mut g = GridBuilder::new();
    g.next_row();
    g.place(cell(2, 2)).unwrap();
    g.place(cell(1, 0)).unwrap();
    g.next_row();
    g.place(cell(1, 1)).unwrap();
    let t = g.finish(TableKind::Data);
    assert_eq!(t.grid.len(), 2);
    assert!(matches!(&t.grid[0][0], CellSlot::Origin(c) if c.col_span == 2));
    assert!(matches!(t.grid[0][1], CellSlot::Covered { origin_row: 0, origin_col: 0 }));
    assert!(matches!(&t.grid[0][2], CellSlot::Origin(c) if c.row_span == 1));
    assert!(matches!(t.grid[1][0], CellSlot::Covered { origin_row: 0, origin_col: 0 }));
    assert!(matches!(t.grid[1][1], CellSlot::Covered { origin_row: 0, origin_col: 0 }));
    assert!(matches!(&t.grid[1][2], CellSlot::Origin(_)));
    assert!(GridBuilder::new().finish(TableKind::Layout).grid.is_empty());
}
