//! Word packages and the documents they come to.

use anydoc::docx::{parse, Document};
use anydoc::error::ConvertError;
use anydoc::model::{Block, Inline};
use anydoc::notes::NoteKind;
use anydoc::package::{Asset, Content, Relationship, Seen, WordPackage};
use anydoc::style::Style;
use anydoc::xml::{Attr, Element, Node};
use std::collections::HashSet;

/// Reads XML into an element tree: the root holds the top-level nodes. An end
/// tag closes the nearest open element of its name and all that is still open
/// in it.
fn parse_xml(src: &str) -> Element {
    let mut stack: Vec<(String, Element)> = vec![(String::new(), element("", "", Vec::new()))];
    let mut scopes: Vec<Vec<(String, String)>> = vec![Vec::new()];
    let mut rest = src;
    while let Some(open) = rest.find('<') {
        add_text(&mut stack, &rest[..open]);
        let close = rest[open..].find('>').expect("unterminated tag") + open;
        let tag = &rest[open + 1..close];
        rest = &rest[close + 1..];
        if let Some(name) = tag.strip_prefix('/') {
            let at = stack.iter().rposition(|(n, _)| n == name.trim()).expect("stray end tag");
            while stack.len() > at {
                close_last(&mut stack, &mut scopes);
            }
        } else if !tag.starts_with('?') && !tag.starts_with('!') {
            let empty = tag.ends_with('/');
            let (name, attrs) = split_tag(tag.strip_suffix('/').unwrap_or(tag));
            let mut scope = scopes.last().unwrap().clone();
            for (n, v) in &attrs {
                if n == "xmlns" {
                    scope.push((String::new(), v.clone()));
                } else if let Some(prefix) = n.strip_prefix("xmlns:") {
                    scope.push((prefix.to_string(), v.clone()));
                }
            }
            let (ns, local) = resolve_name(&name, &scope, true);
            let attrs = attrs
                .iter()
                .filter(|(n, _)| !n.starts_with("xmlns"))
                .map(|(n, v)| {
                    let (ns, local) = resolve_name(n, &scope, false);
                    Attr { ns, local, value: v.clone() }
                })
                .collect();
            stack.push((name, element(&ns, &local, attrs)));
            scopes.push(scope);
            if empty {
                close_last(&mut stack, &mut scopes);
            }
        }
    }
    add_text(&mut stack, rest);
    while stack.len() > 1 {
        close_last(&mut stack, &mut scopes);
    }
    stack.pop().unwrap().1
}

fn element(ns: &str, local: &str, attrs: Vec<Attr>) -> Element {
    Element { ns: ns.to_string(), local: local.to_string(), attrs, children: Vec::new() }
}

fn close_last(stack: &mut Vec<(String, Element)>, scopes: &mut Vec<Vec<(String, String)>>) {
    let (_, done) = stack.pop().unwrap();
    scopes.pop();
    stack.last_mut().unwrap().1.children.push(Node::Elem(done));
}

fn add_text(stack: &mut Vec<(String, Element)>, raw: &str) {
    if !raw.is_empty() {
        stack.last_mut().unwrap().1.children.push(Node::Text(unescape(raw)));
    }
}

fn unescape(raw: &str) -> String {
    raw.replace("&lt;", "<").replace("&gt;", ">").replace("&quot;", "\"").replace("&amp;", "&")
}

fn resolve_name(name: &str, scope: &[(String, String)], is_element: bool) -> (String, String) {
    let (prefix, local) = match name.split_once(':') {
        Some((p, l)) => (p, l),
        None => ("", name),
    };
    if prefix.is_empty() && !is_element {
        return (String::new(), local.to_string());
    }
    let ns = scope.iter().rev().find(|(p, _)| p == prefix).map(|(_, ns)| ns.clone());
    (ns.unwrap_or_default(), local.to_string())
}

fn split_tag(tag: &str) -> (String, Vec<(String, String)>) {
    let end = tag.find(char::is_whitespace).unwrap_or(tag.len());
    let name = tag[..end].to_string();
    let mut attrs = Vec::new();
    let mut rest = tag[end..].trim_start();
    while let Some(eq) = rest.find('=') {
        let attr = rest[..eq].trim().to_string();
        let value = rest[eq + 1..].trim_start();
        let quote = value.chars().next().unwrap();
        let close = value[1..].find(quote).unwrap() + 1;
        attrs.push((attr, unescape(&value[1..close])));
        rest = value[close + 1..].trim_start();
    }
    (name, attrs)
}

const W_NS: &str = "http://schemas.openxmlformats.org/wordprocessingml/2006/main";
const W: &str = r#"xmlns:w="http://schemas.openxmlformats.org/wordprocessingml/2006/main""#;

/// A package whose parts are given as text, with a small reader of their
/// content: runs of text and note references, hidden runs and tracked
/// deletions left out. It names the files after what it was asked to read.
struct Parts {
    parts: Vec<(String, String)>,
}

/// The bytes of such a package.
fn docx_parts(parts: &[(&str, &str)]) -> Vec<u8> {
    let mut out = String::from("PK");
    for (name, body) in parts {
        out.push_str(&format!("{name}\u{1}{body}\u{2}"));
    }
    out.into_bytes()
}

impl Parts {
    fn tree(&self, name: &str) -> Result<Option<Element>, ConvertError> {
        match self.parts.iter().find(|(n, _)| n == name) {
            Some((_, body)) if body == "broken" => {
                Err(ConvertError::malformed_part(name.to_string(), "broken"))
            }
            Some((_, body)) => Ok(Some(parse_xml(body))),
            None => Ok(None),
        }
    }
}

fn refs(elem: &Element, ids: &mut HashSet<String>) {
    if elem.local == "footnoteReference" {
        ids.insert(format!("fn{}", elem.attr(W_NS, "id").unwrap()));
    }
    for node in &elem.children {
        if let Node::Elem(e) = node {
            refs(e, ids);
        }
    }
}

fn runs(elem: &Element, out: &mut Vec<Inline>, seen: &mut Seen<usize>) {
    for node in &elem.children {
        let Node::Elem(e) = node else { continue };
        match e.local.as_str() {
            "del" | "moveFrom" => refs(e, &mut seen.dropped),
            "r" => {
                let hidden = e.find(W_NS, "rPr").is_some_and(|p| p.find(W_NS, "vanish").is_some());
                if hidden {
                    refs(e, &mut seen.dropped);
                } else {
                    refs(e, &mut seen.visible);
                    runs(e, out, seen);
                }
            }
            "t" => out.push(Inline::Text { text: plain(e), style: Style::plain() }),
            "footnoteReference" => {
                out.push(Inline::NoteRef(format!("fn{}", e.attr(W_NS, "id").unwrap())))
            }
            _ => runs(e, out, seen),
        }
    }
}

fn plain(elem: &Element) -> String {
    elem.children
        .iter()
        .map(|n| match n {
            Node::Text(t) => t.clone(),
            Node::Elem(e) => plain(e),
        })
        .collect()
}

impl WordPackage for Parts {
    type Styles = String;
    type Numbering = String;
    type Counters = usize;

    fn open(bytes: &[u8]) -> Result<Parts, ConvertError> {
        let text = String::from_utf8(bytes.to_vec()).unwrap();
        let Some(body) = text.strip_prefix("PK") else {
            return Err(ConvertError::Unsupported("no package".to_string()));
        };
        let parts = body.split_terminator('\u{2}').map(|part| {
            let (name, body) = part.split_once('\u{1}').unwrap();
            (name.to_string(), body.to_string())
        });
        Ok(Parts { parts: parts.collect() })
    }

    fn probe_ole(bytes: &[u8]) -> Option<ConvertError> {
        if bytes.starts_with(b"OLE") {
            Some(ConvertError::Unsupported("an OLE file".to_string()))
        } else {
            None
        }
    }

    fn rels_part_for(part: &str) -> String {
        match part.rsplit_once('/') {
            Some((dir, name)) => format!("{dir}/_rels/{name}.rels"),
            None => format!("_rels/{part}.rels"),
        }
    }

    fn resolve(base: &str, reference: &str) -> Option<String> {
        if reference.starts_with("..") {
            return None;
        }
        match reference.strip_prefix('/') {
            Some(absolute) => Some(absolute.to_string()),
            None => match base.rsplit_once('/') {
                Some((dir, _)) => Some(format!("{dir}/{reference}")),
                None => Some(reference.to_string()),
            },
        }
    }

    fn read_rels(&self, part: &str) -> Result<Vec<Relationship>, ConvertError> {
        let Some(tree) = self.tree(part)? else { return Ok(Vec::new()) };
        let mut out = Vec::new();
        for top in &tree.children {
            let Node::Elem(top) = top else { continue };
            for node in &top.children {
                let Node::Elem(e) = node else { continue };
                out.push(Relationship {
                    rel_type: e.attr_any("Type").unwrap_or("").to_string(),
                    target: e.attr_any("Target").unwrap_or("").to_string(),
                });
            }
        }
        Ok(out)
    }

    fn optional_xml_part(&self, part: &str) -> Result<Option<Element>, ConvertError> {
        self.tree(part)
    }

    fn required_xml_part(&self, part: &str) -> Result<Element, ConvertError> {
        match self.tree(part)? {
            Some(tree) => Ok(tree),
            None => Err(ConvertError::MissingPart(part.to_string())),
        }
    }

    fn read_styles(root: Option<&Element>) -> String {
        match root {
            Some(root) => root.attr_any("name").unwrap_or("styles").to_string(),
            None => "no styles".to_string(),
        }
    }

    fn read_numbering(root: &Element, styles: &String) -> Result<String, ConvertError> {
        if root.attr_any("bad").is_some() {
            Err(ConvertError::Unsupported("numbering".to_string()))
        } else {
            Ok(format!("numbering for {styles}"))
        }
    }

    fn no_numbering() -> String {
        "no numbering".to_string()
    }

    fn new_counters() -> usize {
        1
    }

    fn read_blocks(
        &self,
        elem: &Element,
        rels: &Vec<Relationship>,
        part: &str,
        styles: &String,
        numbering: &String,
        seen: Seen<usize>,
    ) -> Result<Content<usize>, ConvertError> {
        let mut seen = seen;
        let name = format!(
            "{}. {} in {part} with {} rels, {styles}, {numbering}",
            seen.counters,
            elem.local,
            rels.len(),
        );
        seen.assets.push(Asset { name, bytes: Vec::new() });
        seen.counters += 1;
        let mut blocks = Vec::new();
        for node in &elem.children {
            let Node::Elem(p) = node else { continue };
            if p.local == "refused" {
                return Err(ConvertError::Unsupported(format!("in {part}")));
            }
            let mut inlines = Vec::new();
            runs(p, &mut inlines, &mut seen);
            if !inlines.is_empty() {
                blocks.push(Block::Paragraph(inlines));
            }
        }
        Ok(Content { blocks, seen })
    }
}

fn convert(bytes: &[u8]) -> Result<Document, ConvertError> {
    parse::<Parts>(bytes)
}

fn read(doc: &Document) -> Vec<&str> {
    doc.assets.iter().map(|a| a.name.as_str()).collect()
}

/// The text of a document with its note marks, then the notes.
fn document_to_markdown(doc: &Document) -> String {
    let mark = |id: &str| doc.notes.iter().position(|n| n.id == id).map(|i| i + 1);
    let text = |blocks: &[Block]| {
        let mut out = String::new();
        for block in blocks {
            let Block::Paragraph(inlines) = block else { continue };
            for inline in inlines {
                match inline {
                    Inline::Text { text, .. } => out.push_str(text),
                    Inline::NoteRef(id) => {
                        if let Some(n) = mark(id) {
                            out.push_str(&format!("[^{n}]"));
                        }
                    }
                    _ => {}
                }
            }
        }
        out
    };
    let mut out = text(&doc.blocks);
    for (i, note) in doc.notes.iter().enumerate() {
        out.push_str(&format!("\n[^{}]: {}", i + 1, text(&note.blocks)));
    }
    out
}

fn footnotes_docx(document: &str, footnote_body: &str) -> Vec<u8> {
    let footnotes = format!(
        r#"<w:footnotes {W}><w:footnote w:id="1"><w:p><w:r><w:t>{footnote_body}</w:t></w:r></w:p></w:footnote></w:footnotes>"#
    );
    docx_parts(&[("word/document.xml", document), ("word/footnotes.xml", &footnotes)])
}

const EMPTY: &str = r#"<w:document xmlns:w="http://schemas.openxmlformats.org/wordprocessingml/2006/main"><w:body><w:p><w:r><w:t>text</w:t></w:r></w:p></w:body></w:document>"#;

#[test]
fn a_footnote_referenced_only_from_hidden_content_is_dropped_entirely() {
    // The reference mark itself is hidden, so Word never shows this
    // footnote; its body must not survive as an unreferenced note either
    // (the renderer appends unreferenced notes at the document's end).
    let document = format!(
        r#"<w:document {W}><w:body><w:p>
        <w:r><w:t>before </w:t></w:r>
        <w:r><w:rPr><w:vanish/></w:rPr><w:footnoteReference w:id="1"/></w:r>
        </w:p></w:body></w:document>"#
    );
    let doc = convert(&footnotes_docx(&document, "HIDDEN-FOOTNOTE-BODY")).unwrap();
    assert!(doc.notes.iter().all(|n| n.id != "fn1"), "{:?}", doc.notes);
    let markdown = document_to_markdown(&doc);
    assert!(!markdown.contains("[^"), "{markdown:?}");
    assert!(!markdown.contains("HIDDEN-FOOTNOTE-BODY"), "{markdown:?}");
}

#[test]
fn a_footnote_reference_nested_in_a_text_box_inside_a_hidden_run_is_dropped_entirely() {
    // A note reference can sit arbitrarily deep under a hidden run's
    // w:drawing (wps:txbx/w:txbxContent), not just as a direct child:
    // the shallow field-marker walk used for hidden runs must still
    // find it so the note body doesn't survive as an unreferenced
    // trailing note. Word itself refuses to place footnotes inside
    // text boxes, but a crafted file can still reach this path.
    let document = format!(
        r#"<w:document {W}
        xmlns:wps="http://schemas.microsoft.com/office/word/2010/wordprocessingShape">
        <w:body><w:p>
        <w:r><w:t>before </w:t></w:r>
        <w:r><w:rPr><w:vanish/></w:rPr><w:drawing><wps:txbx><w:txbxContent>
            <w:p><w:r><w:footnoteReference w:id="1"/></w:r></w:p>
        </w:txbxContent></wps:txbx></w:drawing></w:r>
        </w:p></w:body></w:document>"#
    );
    let doc = convert(&footnotes_docx(&document, "HIDDEN-TEXTBOX-BODY")).unwrap();
    assert!(doc.notes.iter().all(|n| n.id != "fn1"), "{:?}", doc.notes);
    let markdown = document_to_markdown(&doc);
    assert!(!markdown.contains("[^"), "{markdown:?}");
    assert!(!markdown.contains("HIDDEN-TEXTBOX-BODY"), "{markdown:?}");
}

#[test]
fn a_footnote_referenced_once_hidden_and_once_visibly_is_kept() {
    let document = format!(
        r#"<w:document {W}><w:body><w:p>
        <w:r><w:rPr><w:vanish/></w:rPr><w:footnoteReference w:id="1"/></w:r>
        <w:r><w:t>seen</w:t></w:r>
        <w:r><w:footnoteReference w:id="1"/></w:r>
        </w:p></w:body></w:document>"#
    );
    let doc = convert(&footnotes_docx(&document, "visible body")).unwrap();
    assert!(doc.notes.iter().any(|n| n.id == "fn1"), "{:?}", doc.notes);
    let markdown = document_to_markdown(&doc);
    assert!(markdown.contains("[^1]: visible body"), "{markdown:?}");
}

#[test]
fn a_footnote_reference_inside_a_tracked_deletion_is_dropped_entirely() {
    let document = format!(
        r#"<w:document {W}><w:body><w:p>
        <w:r><w:t>t</w:t></w:r>
        <w:del w:id="1" w:author="a"><w:r><w:footnoteReference w:id="1"/></w:r></w:del>
        </w:p></w:body></w:document>"#
    );
    let doc = convert(&footnotes_docx(&document, "BODY-ONE")).unwrap();
    assert!(doc.notes.iter().all(|n| n.id != "fn1"), "{:?}", doc.notes);
    let markdown = document_to_markdown(&doc);
    assert!(!markdown.contains("[^"), "{markdown:?}");
}

#[test]
fn a_footnote_reference_inside_a_move_from_is_dropped_entirely() {
    let document = format!(
        r#"<w:document {W}><w:body><w:p>
        <w:r><w:t>t</w:t></w:r>
        <w:moveFrom w:id="1" w:author="a"><w:r><w:footnoteReference w:id="1"/></w:r></w:moveFrom>
        </w:p></w:body></w:document>"#
    );
    let doc = convert(&footnotes_docx(&document, "BODY-ONE")).unwrap();
    assert!(doc.notes.iter().all(|n| n.id != "fn1"), "{:?}", doc.notes);
    let markdown = document_to_markdown(&doc);
    assert!(!markdown.contains("[^"), "{markdown:?}");
}

// ---------------------------------------------------------------------------
// Parts

#[test]
fn the_main_part_is_where_the_package_says() {
    let rels = r#"<Relationships><Relationship Type="http://schemas.openxmlformats.org/officeDocument/2006/relationships/officeDocument" Target="/doc/main.xml"/></Relationships>"#;
    let doc = convert(&docx_parts(&[("_rels/.rels", rels), ("doc/main.xml", EMPTY)])).unwrap();
    assert_eq!(document_to_markdown(&doc), "text");
    assert_eq!(read(&doc), ["1. body in doc/main.xml with 0 rels, no styles, no numbering"]);
}

#[test]
fn related_parts_are_where_the_main_part_says() {
    let rels = r#"<Relationships>
        <Relationship Type="http://schemas.openxmlformats.org/officeDocument/2006/relationships/styles" Target="my-styles.xml"/>
        <Relationship Type="http://schemas.openxmlformats.org/officeDocument/2006/relationships/footnotes" Target="../outside.xml"/>
        <Relationship Type="http://schemas.openxmlformats.org/officeDocument/2006/relationships/endnotes" Target="/ends.xml"/>
    </Relationships>"#;
    let notes = format!(
        r#"<w:footnotes {W}><w:footnote w:id="2"><w:p><w:r><w:t>foot</w:t></w:r></w:p></w:footnote></w:footnotes>"#
    );
    let ends = format!(
        r#"<w:endnotes {W}><w:endnote w:id="2"><w:p><w:r><w:t>end</w:t></w:r></w:p></w:endnote></w:endnotes>"#
    );
    let styles = format!(r#"<w:styles {W} name="my styles"/>"#);
    let numbering = format!("<w:numbering {W}/>");
    let doc = convert(&docx_parts(&[
        ("word/document.xml", EMPTY),
        ("word/_rels/document.xml.rels", rels),
        ("word/my-styles.xml", &styles),
        ("word/numbering.xml", &numbering),
        ("word/footnotes.xml", &notes),
        ("_rels/ends.xml.rels", "<Relationships><Relationship/></Relationships>"),
        ("ends.xml", &ends),
    ]))
    .unwrap();
    let ids: Vec<(&str, NoteKind)> = doc.notes.iter().map(|n| (n.id.as_str(), n.kind)).collect();
    assert_eq!(ids, [("fn2", NoteKind::Footnote), ("en2", NoteKind::Endnote)]);
    // Every piece is resolved against the same definitions, and starts from
    // what the one before it has left.
    let with = "my styles, numbering for my styles";
    assert_eq!(
        read(&doc),
        [
            format!("1. body in word/document.xml with 3 rels, {with}"),
            format!("2. footnote in word/footnotes.xml with 0 rels, {with}"),
            format!("3. endnote in ends.xml with 1 rels, {with}"),
        ]
    );
}

#[test]
fn a_reference_in_a_later_note_counts_for_an_earlier_one() {
    // Pruning waits until the last note is read.
    let document = format!(
        r#"<w:document {W}><w:body><w:p>
        <w:r><w:rPr><w:vanish/></w:rPr><w:footnoteReference w:id="1"/></w:r>
        <w:r><w:rPr><w:vanish/></w:rPr><w:footnoteReference w:id="2"/></w:r>
        </w:p></w:body></w:document>"#
    );
    let footnotes = format!(
        r#"<w:footnotes {W}>
        <w:footnote w:id="1"><w:p><w:r><w:t>one</w:t></w:r></w:p></w:footnote>
        <w:footnote w:id="2"><w:p><w:r><w:t>two</w:t></w:r></w:p></w:footnote>
        <w:footnote w:id="3"><w:p><w:r><w:t>three</w:t></w:r></w:p></w:footnote>
        </w:footnotes>"#
    );
    let endnotes = format!(
        r#"<w:endnotes {W}><w:endnote w:id="1"><w:p><w:r><w:footnoteReference w:id="1"/></w:r>
        <w:del><w:r><w:footnoteReference w:id="3"/></w:r></w:del></w:p></w:endnote></w:endnotes>"#
    );
    let doc = convert(&docx_parts(&[
        ("word/document.xml", &document),
        ("word/footnotes.xml", &footnotes),
        ("word/endnotes.xml", &endnotes),
    ]))
    .unwrap();
    let ids: Vec<&str> = doc.notes.iter().map(|n| n.id.as_str()).collect();
    assert_eq!(ids, ["fn1", "en1"]);
}

#[test]
fn notes_that_only_separate_are_left_out() {
    let footnotes = format!(
        r#"<w:footnotes {W}>
        <w:footnote w:type="separator" w:id="-1"><w:p><w:r><w:t>a</w:t></w:r></w:p></w:footnote>
        <w:footnote w:type="continuationSeparator" w:id="0"><w:p/></w:footnote>
        <w:footnote w:type="continuationNotice" w:id="1"><w:p/></w:footnote>
        <w:footnote><w:p><w:r><w:t>no id</w:t></w:r></w:p></w:footnote>
        <w:other w:id="9"/>
        <w:footnote w:type="normal" w:id="3"><w:p><w:r><w:t>b</w:t></w:r></w:p></w:footnote>
        </w:footnotes>"#
    );
    let doc =
        convert(&docx_parts(&[("word/document.xml", EMPTY), ("word/footnotes.xml", &footnotes)]))
            .unwrap();
    assert_eq!(document_to_markdown(&doc), "text\n[^1]: b");
    assert_eq!(doc.notes[0].id, "fn3");
}

// ---------------------------------------------------------------------------
// Errors

#[test]
fn bytes_that_are_no_package_are_named_when_they_are_known() {
    let e = convert(b"OLE").unwrap_err();
    assert_eq!(e, ConvertError::Unsupported("an OLE file".to_string()));
    let e = convert(b"other").unwrap_err();
    assert_eq!(e, ConvertError::Unsupported("no package".to_string()));
}

#[test]
fn a_main_part_without_a_body_is_malformed() {
    for main in ["<x/>", &format!("<w:document {W}/>"), "<document><body/></document>"] {
        let e = convert(&docx_parts(&[("word/document.xml", main)])).unwrap_err();
        let expected =
            ConvertError::malformed_part("word/document.xml".to_string(), "no document body");
        assert_eq!(e, expected, "{main}");
    }
    let e = convert(&docx_parts(&[])).unwrap_err();
    assert_eq!(e, ConvertError::MissingPart("word/document.xml".to_string()));
}

#[test]
fn a_broken_part_ends_the_conversion() {
    for part in [
        "_rels/.rels",
        "word/_rels/document.xml.rels",
        "word/styles.xml",
        "word/numbering.xml",
        "word/footnotes.xml",
        "word/endnotes.xml",
    ] {
        let e = convert(&docx_parts(&[("word/document.xml", EMPTY), (part, "broken")])).unwrap_err();
        assert_eq!(e, ConvertError::malformed_part(part.to_string(), "broken"), "{part}");
    }
}

#[test]
fn the_first_error_is_the_one_reported() {
    let numbering = format!(r#"<w:numbering {W} bad="1"/>"#);
    let refused = format!("<w:document {W}><w:body><w:refused/></w:body></w:document>");
    let notes = format!(
        r#"<w:endnotes {W}><w:endnote w:id="1"><w:refused/></w:endnote></w:endnotes>"#
    );
    let all = [
        ("word/numbering.xml", numbering.as_str()),
        ("word/document.xml", refused.as_str()),
        ("word/endnotes.xml", notes.as_str()),
    ];
    let e = convert(&docx_parts(&all)).unwrap_err();
    assert_eq!(e, ConvertError::Unsupported("numbering".to_string()));
    let e = convert(&docx_parts(&all[1..])).unwrap_err();
    assert_eq!(e, ConvertError::Unsupported("in word/document.xml".to_string()));
    let e = convert(&docx_parts(&[("word/document.xml", EMPTY), all[2]])).unwrap_err();
    assert_eq!(e, ConvertError::Unsupported("in word/endnotes.xml".to_string()));
}
