//! What a converted document promises: its body and every note of it hold
//! exactly what the package gave when it was asked for them.

use crate::docx;
use crate::docx::{Collected, Finished, Halt, NoteView, Opened, Setting};
use crate::laws;
use crate::model;
use crate::notes;
use crate::notes::NoteKind;
use crate::package::{Query, Reading, Relationship, SeenView, WordPackage};
use crate::xml;
use crate::xml::{Element, Node};
use vstd::prelude::*;

verus! {

/// The questions for content, in order.
pub open spec fn readings<P: WordPackage>(asked: Seq<Query<P>>) -> Seq<Query<P>>
    decreases asked.len(),
{
    if asked.len() == 0 {
        Seq::empty()
    } else {
        let before = readings(asked.drop_last());
        if asked.last() is Blocks {
            before.push(asked.last())
        } else {
            before
        }
    }
}

/// The elements that content was asked of, in order.
pub open spec fn elems<P: WordPackage>(asked: Seq<Query<P>>) -> Seq<Element> {
    readings(asked).map_values(|q: Query<P>| q->asked.elem)
}

/// The note that an answer comes to: what its element is called says which
/// kind it is, and its blocks are those of the answer.
pub open spec fn note_of<P: WordPackage>(q: Query<P>) -> NoteView {
    let elem = q->asked.elem;
    let number = xml::value_in(elem.attrs@, docx::W@, "id"@)->Some_0;
    let blocks = model::block_views((q->content)->Ok_0.blocks@);
    if elem.local@ == "footnote"@ {
        NoteView { id: "fn"@ + number, kind: NoteKind::Footnote, blocks }
    } else {
        NoteView { id: "en"@ + number, kind: NoteKind::Endnote, blocks }
    }
}

/// Whether an element among a part's notes is one with content of its own.
pub open spec fn is_note(node: Node, kind: NoteKind) -> bool {
    &&& node matches Node::Elem(e)
    &&& e.ns@ == docx::W@
    &&& e.local@ == match kind {
        NoteKind::Footnote => "footnote"@,
        NoteKind::Endnote => "endnote"@,
    }
    &&& xml::value_in(e.attrs@, docx::W@, "id"@) is Some
    &&& xml::value_in(e.attrs@, docx::W@, "type"@) matches Some(t) ==> t != "separator"@ && t
        != "continuationSeparator"@ && t != "continuationNotice"@
}

/// The notes among the first `n` nodes, in order.
pub open spec fn notes_among(nodes: Seq<Node>, kind: NoteKind, n: int) -> Seq<Element>
    decreases n,
{
    if n <= 0 {
        Seq::empty()
    } else {
        let before = notes_among(nodes, kind, n - 1);
        if is_note(nodes[n - 1], kind) {
            before.push(nodes[n - 1]->Elem_0)
        } else {
            before
        }
    }
}

/// The notes that a part holds; none where there is no such part.
pub open spec fn notes_of_part(tree: Option<Element>, kind: NoteKind) -> Seq<Element> {
    let name = match kind {
        NoteKind::Footnote => "footnotes"@,
        NoteKind::Endnote => "endnotes"@,
    };
    match tree {
        None => Seq::empty(),
        Some(t) => match t.child(docx::W@, name) {
            None => Seq::empty(),
            Some(root) => notes_among(root.children@, kind, root.children@.len() as int),
        },
    }
}

/// Whether a piece of content was asked for in a part that the questions from
/// `a` on have read, with the links that they have found for that part.
pub open spec fn sourced_at<P: WordPackage>(
    asked: Seq<Query<P>>,
    a: int,
    piece: Reading<P>,
) -> bool {
    &&& 0 <= a && a + 2 < asked.len()
    &&& asked[a] matches Query::Optional { pkg, part, tree: Ok(Some(_)) } && pkg == piece.pkg
        && part == piece.part
    &&& asked[a + 1] matches Query::RelsPart { part, .. } && part == piece.part
    &&& asked[a + 2] matches Query::Rels { pkg, part, rels: Ok(v) } && pkg == piece.pkg && part
        == (asked[a + 1]->name)@ && v@ == piece.rels
}

/// Whether a piece of content was asked for with the links of its own part.
pub open spec fn sourced<P: WordPackage>(asked: Seq<Query<P>>, piece: Reading<P>) -> bool {
    exists|a: int| sourced_at(asked, a, piece)
}

/// Whether each of the notes is what its question was answered with; the first
/// question is that for the body.
pub open spec fn told_by<P: WordPackage>(asked: Seq<Query<P>>, all: Seq<NoteView>) -> bool {
    let r = readings(asked);
    &&& r.len() == all.len() + 1
    &&& forall|i: int|
        0 <= i < all.len() ==> #[trigger] all[i] == note_of(r[i + 1]) && r[i + 1]->content is Ok
            && sourced(asked, r[i + 1]->asked)
}

/// A question about anything but content is no reading.
proof fn lemma_aside<P: WordPackage>()
    ensures
        forall|a: Seq<Query<P>>, q: Query<P>|
            !(q is Blocks) ==> #[trigger] readings(a.push(q)) == readings(a),
        forall|a: Seq<Query<P>>, q: Query<P>|
            q is Blocks ==> #[trigger] readings(a.push(q)) == readings(a).push(q),
{
    assert forall|a: Seq<Query<P>>, q: Query<P>| !(q is Blocks) implies #[trigger] readings(
        a.push(q),
    ) == readings(a) by {
        assert(a.push(q).drop_last() =~= a);
    }
    assert forall|a: Seq<Query<P>>, q: Query<P>| q is Blocks implies #[trigger] readings(
        a.push(q),
    ) == readings(a).push(q) by {
        assert(a.push(q).drop_last() =~= a);
    }
}

/// Further questions keep what was told, as long as no content is asked for.
proof fn lemma_longer<P: WordPackage>(
    asked: Seq<Query<P>>,
    more: Seq<Query<P>>,
    all: Seq<NoteView>,
)
    requires
        told_by(asked, all),
        asked.is_prefix_of(more),
        readings(more) == readings(asked),
    ensures
        told_by(more, all),
{
    let r = readings(asked);
    assert forall|i: int| 0 <= i < all.len() implies #[trigger] all[i] == note_of(r[i + 1]) && r[i
        + 1]->content is Ok && sourced(more, r[i + 1]->asked) by {
        lemma_sourced(asked, more, r[i + 1]->asked);
    }
}

proof fn lemma_sourced<P: WordPackage>(
    asked: Seq<Query<P>>,
    more: Seq<Query<P>>,
    piece: Reading<P>,
)
    requires
        sourced(asked, piece),
        asked.is_prefix_of(more),
    ensures
        sourced(more, piece),
{
    let a = choose|a: int| sourced_at(asked, a, piece);
    assert(more[a] == asked[a]);
    assert(more[a + 1] == asked[a + 1]);
    assert(more[a + 2] == asked[a + 2]);
    assert(sourced_at(more, a, piece));
}

proof fn lemma_names()
    ensures
        "footnote"@ != "endnote"@,
{
    reveal_strlit("footnote");
    reveal_strlit("endnote");
    assert("footnote"@.len() != "endnote"@.len());
}

proof fn lemma_notes<P: WordPackage>(
    script: Seq<Query<P>>,
    with: Setting<P>,
    root: Element,
    kind: NoteKind,
    rels: Seq<Relationship>,
    part: Seq<char>,
    n: int,
    c: Collected<P>,
    a: int,
)
    requires
        told_by(c.asked, c.notes),
        n <= root.children@.len(),
        forall|piece: Reading<P>|
            piece.pkg == with.pkg && piece.part == part && piece.rels == rels
                ==> #[trigger] sourced_at(c.asked, a, piece),
    ensures
        docx::notes_upto(script, with, root, kind, rels, part, n, c) matches Ok(p) ==> {
            &&& told_by(p.asked, p.notes)
            &&& c.asked.is_prefix_of(p.asked)
            &&& elems(p.asked) == elems(c.asked) + notes_among(root.children@, kind, n)
            &&& readings(c.asked).is_prefix_of(readings(p.asked))
        },
    decreases n,
{
    lemma_aside::<P>();
    lemma_names();
    if n <= 0 {
        assert(elems(c.asked) + notes_among(root.children@, kind, n) =~= elems(c.asked));
    } else if docx::notes_upto(script, with, root, kind, rels, part, n, c) is Ok {
        lemma_notes(script, with, root, kind, rels, part, n - 1, c, a);
        let p = docx::notes_upto(script, with, root, kind, rels, part, n - 1, c)->Ok_0;
        let after = docx::notes_upto(script, with, root, kind, rels, part, n, c)->Ok_0;
        let node = root.children@[n - 1];
        if is_note(node, kind) {
            let elem = node->Elem_0;
            let content = docx::reply(script, p.asked)->content;
            let piece = Reading {
                pkg: with.pkg,
                elem,
                rels,
                part,
                styles: with.styles,
                numbering: with.numbering,
                seen: p.seen,
            };
            let q = Query::Blocks { asked: piece, content };
            assert(after.asked == p.asked.push(q));
            let r = readings(p.asked);
            let s = readings(after.asked);
            assert(s == r.push(q));
            assert(sourced_at(c.asked, a, piece));
            lemma_sourced(c.asked, after.asked, piece);
            assert forall|i: int| 0 <= i < after.notes.len() implies #[trigger] after.notes[i]
                == note_of(s[i + 1]) && s[i + 1]->content is Ok && sourced(
                after.asked,
                s[i + 1]->asked,
            ) by {
                if i < p.notes.len() {
                    assert(after.notes[i] == p.notes[i]);
                    lemma_sourced(p.asked, after.asked, r[i + 1]->asked);
                }
            }
            assert(elems(after.asked) =~= elems(p.asked).push(elem));
            assert(elems(after.asked) =~= elems(c.asked) + notes_among(root.children@, kind, n));
        } else {
            assert(after == p);
        }
    }
}

proof fn lemma_note_part<P: WordPackage>(
    script: Seq<Query<P>>,
    with: Setting<P>,
    part: Seq<char>,
    kind: NoteKind,
    c: Collected<P>,
)
    requires
        told_by(c.asked, c.notes),
    ensures
        docx::notes_in(script, with, part, kind, c) matches Ok(p) ==> {
            &&& told_by(p.asked, p.notes)
            &&& c.asked.is_prefix_of(p.asked)
            &&& c.asked.len() < p.asked.len()
            &&& p.asked[c.asked.len() as int] matches Query::Optional {
                pkg,
                part: asked_of,
                tree: Ok(tree),
            } && pkg == with.pkg && asked_of == part && elems(p.asked) == elems(c.asked)
                + notes_of_part(tree, kind)
            &&& readings(c.asked).is_prefix_of(readings(p.asked))
        },
{
    lemma_aside::<P>();
    if docx::notes_in(script, with, part, kind, c) is Ok {
        let p = docx::notes_in(script, with, part, kind, c)->Ok_0;
        let a = c.asked.len() as int;
        let tree = docx::reply(script, c.asked)->tree;
        let asked = c.asked.push(Query::Optional { pkg: with.pkg, part, tree });
        lemma_longer(c.asked, asked, c.notes);
        match docx::root_in(tree->Ok_0, docx::root_name(kind)) {
            None => {
                assert(elems(c.asked) + notes_of_part(tree->Ok_0, kind) =~= elems(c.asked));
            },
            Some(root) => {
                let links = docx::links_of(script, with.pkg, part, asked)->Ok_0;
                let name = docx::reply(script, asked)->name;
                let asked1 = asked.push(Query::RelsPart { part, name });
                assert(readings(asked1) == readings(asked));
                assert(links.asked.drop_last() =~= asked1);
                assert(readings(links.asked) == readings(asked1));
                let d = Collected { asked: links.asked, ..c };
                lemma_longer(c.asked, d.asked, c.notes);
                assert forall|piece: Reading<P>|
                    piece.pkg == with.pkg && piece.part == part && piece.rels
                        == links.rels implies #[trigger] sourced_at(d.asked, a, piece) by {
                    assert(d.asked[a] == asked[a]);
                    assert(d.asked[a + 1] == asked1[a + 1]);
                }
                let count = root.children@.len() as int;
                lemma_notes(script, with, root, kind, links.rels, part, count, d, a);
                assert(p.asked[a] == d.asked[a]);
            },
        }
    }
}

/// Looking for a part reads no content.
proof fn lemma_path<P: WordPackage>(
    script: Seq<Query<P>>,
    rels: Seq<Relationship>,
    base: Seq<char>,
    rel_type: Seq<char>,
    fallback: Seq<char>,
    asked: Seq<Query<P>>,
)
    ensures
        ({
            let found = docx::typed_path(script, rels, base, rel_type, fallback, asked);
            readings(found.asked) == readings(asked) && asked.is_prefix_of(found.asked)
        }),
{
    lemma_aside::<P>();
    let reference = match docx::target_of(rels, rel_type) {
        Some(t) => t,
        None => fallback,
    };
    let first = docx::reply(script, asked)->path;
    let q1 = Query::<P>::Resolve { base, reference, path: first };
    let asked1 = asked.push(q1);
    assert(readings(asked1) == readings(asked));
    let second = docx::reply(script, asked1)->path;
    let q2 = Query::<P>::Resolve { base, reference: fallback, path: second };
    assert(readings(asked1.push(q2)) == readings(asked1));
}

proof fn lemma_links<P: WordPackage>(
    script: Seq<Query<P>>,
    pkg: P,
    part: Seq<char>,
    asked: Seq<Query<P>>,
)
    ensures
        docx::linked_by(script, pkg, part, asked) matches Ok(l) ==> readings(l.asked) == readings(
            asked,
        ) && asked.is_prefix_of(l.asked),
        docx::links_of(script, pkg, part, asked) matches Ok(l) ==> readings(l.asked) == readings(
            asked,
        ) && asked.is_prefix_of(l.asked),
{
    lemma_aside::<P>();
    let name = docx::reply(script, asked)->name;
    let asked1 = asked.push(Query::RelsPart { part, name });
    assert(readings(asked1) == readings(asked));
    let r1 = docx::reply(script, asked)->rels;
    assert(readings(asked.push(Query::Rels { pkg, part, rels: r1 })) == readings(asked));
    let r2 = docx::reply(script, asked1)->rels;
    assert(readings(asked1.push(Query::Rels { pkg, part: name@, rels: r2 })) == readings(asked1));
}

/// Before the content of a document, nothing but definitions is asked for; the
/// package is the one that opening the bytes gave.
proof fn lemma_defined<P: WordPackage>(script: Seq<Query<P>>, bytes: Seq<u8>)
    requires
        docx::read_document(script, bytes) is Ok,
    ensures
        ({
            let o = docx::opened(script, bytes)->Ok_0;
            let s = docx::styled(script, o)->Ok_0;
            let asked = docx::numbered(script, o, s)->Ok_0.asked;
            &&& readings(asked) == Seq::<Query<P>>::empty()
            &&& asked.len() > 0
            &&& asked[0] == (Query::Open::<P> { bytes, opened: Ok(o.pkg) })
        }),
{
    lemma_aside::<P>();
    let none: Seq<Query<P>> = Seq::empty();
    let o = docx::opened(script, bytes)->Ok_0;
    let open = docx::reply(script, none)->opened;
    let a0 = none.push(Query::Open { bytes, opened: open });
    assert(readings(a0) == readings(none));
    lemma_links(script, o.pkg, "_rels/.rels"@, a0);
    let root = docx::linked_by(script, o.pkg, "_rels/.rels"@, a0)->Ok_0;
    let main = docx::main_path(script, root.rels, root.asked);
    if let Some(reference) = docx::target_of(root.rels, docx::OFFICE_DOCUMENT@) {
        let path = docx::reply(script, root.asked)->path;
        assert(readings(root.asked.push(Query::Resolve { base: ""@, reference, path }))
            == readings(root.asked));
    }
    assert(readings(main.asked) == readings(a0));
    lemma_links(script, o.pkg, main.path, main.asked);
    lemma_path(script, o.rels, o.main, docx::STYLES@, "styles.xml"@, o.asked);
    let at = docx::typed_path(script, o.rels, o.main, docx::STYLES@, "styles.xml"@, o.asked);
    let tree = docx::reply(script, at.asked)->tree;
    let a1 = at.asked.push(Query::Optional { pkg: o.pkg, part: at.path, tree });
    assert(readings(a1) == readings(at.asked));
    let s = docx::styled(script, o)->Ok_0;
    let q = Query::<P>::Styles {
        defined: docx::root_in(tree->Ok_0, "styles"@),
        styles: s.styles,
    };
    assert(s.asked == a1.push(q));
    assert(readings(a1.push(q)) == readings(a1));
    lemma_path(script, o.rels, o.main, docx::NUMBERING@, "numbering.xml"@, s.asked);
    let found = docx::typed_path(
        script,
        o.rels,
        o.main,
        docx::NUMBERING@,
        "numbering.xml"@,
        s.asked,
    );
    let ntree = docx::reply(script, found.asked)->tree;
    let a2 = found.asked.push(Query::Optional { pkg: o.pkg, part: found.path, tree: ntree });
    assert(readings(a2) == readings(found.asked));
    let n = docx::numbered(script, o, s)->Ok_0;
    assert(readings(a2.push(Query::NoNumbering { numbering: n.numbering })) == readings(a2));
    if let Some(root) = docx::root_in(ntree->Ok_0, "numbering"@) {
        let read = docx::reply(script, a2)->read;
        assert(readings(a2.push(Query::Numbering { root, against: s.styles, read }))
            == readings(a2));
    }
    assert(a0[0] == n.asked[0]);
}

/// Whether an element is the body in the main part that the package answered
/// with.
pub open spec fn is_body_in<P: WordPackage>(
    elem: Element,
    answer: Query<P>,
    piece: Reading<P>,
) -> bool {
    &&& answer matches Query::Required { pkg, part, whole: Ok(t) }
    &&& pkg == piece.pkg
    &&& part == piece.part
    &&& t.child(docx::W@, "document"@) matches Some(d)
    &&& d.child(docx::W@, "body"@) == Some(elem)
}

/// Whether the body was asked for, in the main part, and gave those blocks.
pub open spec fn body_told_by<P: WordPackage>(
    asked: Seq<Query<P>>,
    blocks: Seq<model::BlockView>,
) -> bool {
    let r = readings(asked);
    &&& r.len() > 0
    &&& r[0]->content matches Ok(c) && model::block_views(c.blocks@) == blocks
    &&& exists|i: int|
        0 <= i < asked.len() && is_body_in((r[0]->asked).elem, #[trigger] asked[i], r[0]->asked)
}

/// Whether a part was looked for as a related part is, from question `i` on,
/// and that is where it was found: where its relationship leads, or its
/// conventional name.
pub open spec fn looked_up<P: WordPackage>(
    asked: Seq<Query<P>>,
    i: int,
    from: Reading<P>,
    rel_type: Seq<char>,
    fallback: Seq<char>,
    found: Seq<char>,
) -> bool {
    let wanted = match docx::target_of(from.rels, rel_type) {
        Some(t) => t,
        None => fallback,
    };
    &&& 0 <= i < asked.len()
    &&& asked[i] matches Query::Resolve { base, reference, path } && base == from.part && reference
        == wanted && match path {
        Some(p) => found == p@,
        None => i + 1 < asked.len() && (asked[i + 1] matches Query::Resolve {
            base: again,
            reference: second,
            path,
        } && again == from.part && second == fallback && found == match path {
            Some(p) => p@,
            None => fallback,
        }),
    }
}

/// Whether the pieces of content that were asked for are the body, the notes of
/// a part of footnotes and those of a part of endnotes, in that order.
pub open spec fn in_document_order<P: WordPackage>(asked: Seq<Query<P>>, a: int, b: int) -> bool {
    let body = readings(asked)[0]->asked;
    &&& 0 <= a < b < asked.len()
    &&& asked[a] matches Query::Optional { tree: Ok(foot), part: foot_part, .. }
    &&& asked[b] matches Query::Optional { tree: Ok(end), part: end_part, .. }
    &&& exists|i: int|
        looked_up(
            asked,
            i,
            body,
            "http://schemas.openxmlformats.org/officeDocument/2006/relationships/footnotes"@,
            "footnotes.xml"@,
            foot_part,
        )
    &&& exists|i: int|
        looked_up(
            asked,
            i,
            body,
            "http://schemas.openxmlformats.org/officeDocument/2006/relationships/endnotes"@,
            "endnotes.xml"@,
            end_part,
        )
    &&& elems(asked).len() > 0
    &&& elems(asked) == seq![elems(asked)[0]] + notes_of_part(foot, NoteKind::Footnote)
        + notes_of_part(end, NoteKind::Endnote)
}

proof fn lemma_prefix<A>(a: Seq<A>, b: Seq<A>, c: Seq<A>)
    requires
        a.is_prefix_of(b),
        b.is_prefix_of(c),
    ensures
        a.is_prefix_of(c),
        forall|i: int| 0 <= i < b.len() ==> #[trigger] b[i] == c[i],
{
    assert forall|i: int| 0 <= i < b.len() implies #[trigger] b[i] == c[i] by {
        assert(c.subrange(0, b.len() as int)[i] == c[i]);
    }
    assert(a =~= c.subrange(0, a.len() as int)) by {
        assert forall|i: int| 0 <= i < a.len() implies a[i] == c[i] by {
            assert(b.subrange(0, a.len() as int)[i] == b[i]);
        }
    }
}

proof fn lemma_looked_up<P: WordPackage>(
    script: Seq<Query<P>>,
    from: Reading<P>,
    rel_type: Seq<char>,
    fallback: Seq<char>,
    before: Seq<Query<P>>,
    asked: Seq<Query<P>>,
)
    requires
        docx::typed_path(
            script,
            from.rels,
            from.part,
            rel_type,
            fallback,
            before,
        ).asked.is_prefix_of(asked),
    ensures
        looked_up(
            asked,
            before.len() as int,
            from,
            rel_type,
            fallback,
            docx::typed_path(script, from.rels, from.part, rel_type, fallback, before).path,
        ),
{
    let found = docx::typed_path(script, from.rels, from.part, rel_type, fallback, before);
    laws::parts::law_related_parts(script, from.rels, from.part, rel_type, fallback, before);
    lemma_prefix(found.asked, found.asked, asked);
    let n = before.len() as int;
    assert(found.asked[n] == asked[n]);
    if found.asked.len() > n + 1 {
        assert(found.asked[n + 1] == asked[n + 1]);
    }
}

proof fn lemma_gathered<P: WordPackage>(
    script: Seq<Query<P>>,
    o: Opened<P>,
    with: Setting<P>,
    before: Seq<Query<P>>,
)
    requires
        readings(before) == Seq::<Query<P>>::empty(),
        with.pkg == o.pkg,
    ensures
        docx::gathered(script, o, with, before) matches Ok(g) ==> {
            let asked = g.collected.asked;
            &&& told_by(asked, g.collected.notes)
            &&& body_told_by(asked, g.blocks)
            &&& before.is_prefix_of(asked)
            &&& exists|a: int, b: int| in_document_order(asked, a, b)
        },
{
    lemma_aside::<P>();
    if docx::gathered(script, o, with, before) is Ok {
        let g = docx::gathered(script, o, with, before)->Ok_0;
        let whole = docx::reply(script, before)->whole;
        let required = Query::<P>::Required { pkg: o.pkg, part: o.main, whole };
        assert(readings(before.push(required)) == readings(before));
        let b = docx::body_of(script, o, before)->Ok_0;
        let counters = docx::reply(script, b.asked)->counters;
        let counted = b.asked.push(Query::Counters { counters });
        assert(readings(counted) == readings(b.asked));
        lemma_path(script, o.rels, o.main, docx::FOOTNOTES@, "footnotes.xml"@, counted);
        let foot = docx::typed_path(
            script,
            o.rels,
            o.main,
            docx::FOOTNOTES@,
            "footnotes.xml"@,
            counted,
        );
        lemma_path(script, o.rels, o.main, docx::ENDNOTES@, "endnotes.xml"@, foot.asked);
        let end = docx::typed_path(
            script,
            o.rels,
            o.main,
            docx::ENDNOTES@,
            "endnotes.xml"@,
            foot.asked,
        );
        let seen = SeenView::none(counters);
        let content = docx::reply(script, end.asked)->content;
        let piece = Reading {
            pkg: with.pkg,
            elem: b.body,
            rels: o.rels,
            part: o.main,
            styles: with.styles,
            numbering: with.numbering,
            seen,
        };
        let q = Query::Blocks { asked: piece, content };
        let main = docx::contents(script, with, b.body, o.rels, o.main, seen, end.asked)->Ok_0;
        assert(main.asked == end.asked.push(q));
        assert(readings(main.asked) == readings(end.asked).push(q));
        assert(readings(main.asked) =~= seq![q]);
        let none = Collected { notes: Seq::empty(), seen: main.seen, asked: main.asked };
        assert(told_by(none.asked, none.notes));
        lemma_note_part(script, with, foot.path, NoteKind::Footnote, none);
        let c = docx::notes_in(script, with, foot.path, NoteKind::Footnote, none)->Ok_0;
        lemma_note_part(script, with, end.path, NoteKind::Endnote, c);
        let asked = g.collected.asked;
        let i = before.len() as int;
        assert(b.asked[i] == required);
        lemma_prefix(before, b.asked, counted);
        lemma_prefix(b.asked, counted, foot.asked);
        lemma_prefix(b.asked, foot.asked, end.asked);
        lemma_prefix(b.asked, end.asked, main.asked);
        lemma_prefix(b.asked, main.asked, c.asked);
        lemma_prefix(b.asked, c.asked, asked);
        lemma_prefix(before, b.asked, asked);
        assert(b.asked[i] == asked[i]);
        assert(asked[i] == required);
        assert(readings(asked)[0] == readings(main.asked)[0]);
        assert(is_body_in(b.body, asked[i], piece));
        assert(body_told_by(asked, g.blocks));
        let x = main.asked.len() as int;
        let y = c.asked.len() as int;
        assert(asked[x] == c.asked[x]);
        assert(elems(main.asked) =~= seq![b.body]);
        assert(elems(asked)[0] == b.body);
        assert(readings(asked)[0]->asked == piece);
        lemma_prefix(foot.asked, end.asked, main.asked);
        lemma_prefix(foot.asked, main.asked, c.asked);
        lemma_prefix(foot.asked, c.asked, asked);
        lemma_prefix(end.asked, main.asked, c.asked);
        lemma_prefix(end.asked, c.asked, asked);
        lemma_looked_up(
            script,
            piece,
            docx::FOOTNOTES@,
            "footnotes.xml"@,
            counted,
            asked,
        );
        lemma_looked_up(
            script,
            piece,
            docx::ENDNOTES@,
            "endnotes.xml"@,
            foot.asked,
            asked,
        );
        assert(in_document_order(asked, x, y));
    }
}

/// A filter holds exactly what passes it.
proof fn lemma_kept(s: Seq<NoteView>, dropped: Set<String>, visible: Set<String>, x: NoteView)
    ensures
        docx::kept_notes(s, dropped, visible).contains(x) <==> s.contains(x) && (notes::holds(
            visible,
            x.id,
        ) || !notes::holds(dropped, x.id)),
    decreases s.len(),
{
    reveal_with_fuel(Seq::filter, 2);
    if s.len() > 0 {
        let rest = s.drop_last();
        lemma_kept(rest, dropped, visible, x);
        let before = docx::kept_notes(rest, dropped, visible);
        let after = docx::kept_notes(s, dropped, visible);
        if s.contains(x) && !rest.contains(x) {
            let i = choose|i: int| 0 <= i < s.len() && s[i] == x;
            assert(i == s.len() - 1) by {
                if i < s.len() - 1 {
                    assert(rest[i] == x);
                }
            }
        }
        if rest.contains(x) {
            let i = choose|i: int| 0 <= i < rest.len() && rest[i] == x;
            assert(s[i] == x);
        }
        if before.contains(x) {
            let i = choose|i: int| 0 <= i < before.len() && before[i] == x;
            assert(after[i] == x);
        }
        if after.contains(x) && !before.contains(x) {
            let i = choose|i: int| 0 <= i < after.len() && after[i] == x;
            if i < before.len() {
                assert(before[i] == x);
            }
            assert(x == s.last());
            assert(s[s.len() - 1] == x);
        }
        if s.last() == x && notes::kept(x.id, dropped, visible) {
            assert(after[after.len() - 1] == x);
        }
    }
}

/// All that a converted document holds is what its package answered, asked of
/// the package that the bytes opened to. Its blocks are those of the answer for
/// the body in the main part. The further answers for content, in order, are
/// one for each note of the part of footnotes and then of that of endnotes,
/// each asked for with the links of its own part; the notes of the document
/// are, in order, those answers, without the ones whose references are all
/// hidden.
pub proof fn law_documents_hold_what_was_read<P: WordPackage>(
    script: Seq<Query<P>>,
    bytes: Seq<u8>,
    f: Finished<P>,
)
    requires
        docx::read_document(script, bytes) == Ok::<Finished<P>, Halt<P>>(f),
    ensures
        ({
            let r = readings(f.asked);
            let all = r.skip(1).map_values(|q: Query<P>| note_of(q));
            &&& f.asked.len() > 0
            &&& f.asked[0] matches Query::Open { bytes: given, opened: Ok(pkg) } && given == bytes
                && forall|j: int| 0 <= j < r.len() ==> ((#[trigger] r[j])->asked).pkg == pkg
            &&& body_told_by(f.asked, f.document.blocks)
            &&& exists|a: int, b: int| in_document_order(f.asked, a, b)
            &&& forall|j: int|
                0 < j < r.len() ==> (#[trigger] r[j])->content is Ok && sourced(
                    f.asked,
                    r[j]->asked,
                )
            &&& laws::notes::left_by(f.asked) matches Some(seen) && f.document.notes
                == docx::kept_notes(all, seen.dropped, seen.visible)
        }),
{
    let o = docx::opened(script, bytes)->Ok_0;
    let s = docx::styled(script, o)->Ok_0;
    let n = docx::numbered(script, o, s)->Ok_0;
    let with = laws::notes::setting_of(script, bytes);
    lemma_defined(script, bytes);
    lemma_gathered(script, o, with, n.asked);
    laws::notes::law_documents_have_no_hidden_notes(script, bytes, f);
    laws::notes::law_content_is_read_in_turn(script, bytes, f);
    let g = docx::gathered(script, o, with, n.asked)->Ok_0;
    let r = readings(f.asked);
    let all = r.skip(1).map_values(|q: Query<P>| note_of(q));
    assert(g.collected.asked == f.asked);
    assert forall|i: int| 0 <= i < all.len() implies all[i] == g.collected.notes[i] by {
        assert(g.collected.notes[i] == note_of(r[i + 1]));
    }
    assert(all =~= g.collected.notes);
    assert forall|j: int| 0 < j < r.len() implies (#[trigger] r[j])->content is Ok && sourced(
        f.asked,
        r[j]->asked,
    ) by {
        assert(g.collected.notes[j - 1] == note_of(r[j]));
    }
    assert(f.asked[0] == n.asked[0]);
    lemma_one_package(f.asked, with);
}

proof fn lemma_one_package<P: WordPackage>(asked: Seq<Query<P>>, with: Setting<P>)
    requires
        laws::notes::threaded(asked, with),
    ensures
        forall|j: int|
            0 <= j < readings(asked).len() ==> ((#[trigger] readings(asked)[j])->asked).pkg
                == with.pkg,
    decreases asked.len(),
{
    if asked.len() > 0 {
        lemma_one_package(asked.drop_last(), with);
    }
}

/// Every note of a converted document, of either kind, holds exactly the blocks
/// that the package answered when it was asked to read that note; and every
/// note that was read is in the document, unless its references are all hidden.
pub proof fn law_notes_hold_their_blocks<P: WordPackage>(
    script: Seq<Query<P>>,
    bytes: Seq<u8>,
    f: Finished<P>,
)
    requires
        docx::read_document(script, bytes) == Ok::<Finished<P>, Halt<P>>(f),
    ensures
        ({
            let r = readings(f.asked);
            &&& forall|k: int|
                0 <= k < f.document.notes.len() ==> exists|j: int|
                    0 < j < r.len() && (#[trigger] r[j])->content is Ok && note_of(r[j])
                        == #[trigger] f.document.notes[k]
            &&& laws::notes::left_by(f.asked) matches Some(seen) && forall|j: int|
                0 < j < r.len() ==> (f.document.notes.contains(note_of(#[trigger] r[j])) <==> (
                notes::holds(seen.visible, note_of(r[j]).id) || !notes::holds(
                    seen.dropped,
                    note_of(r[j]).id,
                )))
        }),
{
    law_documents_hold_what_was_read(script, bytes, f);
    let r = readings(f.asked);
    let all = r.skip(1).map_values(|q: Query<P>| note_of(q));
    let seen = laws::notes::left_by(f.asked)->Some_0;
    assert forall|k: int| 0 <= k < f.document.notes.len() implies exists|j: int|
        0 < j < r.len() && (#[trigger] r[j])->content is Ok && note_of(r[j])
            == #[trigger] f.document.notes[k] by {
        let x = f.document.notes[k];
        lemma_kept(all, seen.dropped, seen.visible, x);
        assert(f.document.notes.contains(x));
        let i = choose|i: int| 0 <= i < all.len() && all[i] == x;
        assert(note_of(r[i + 1]) == x);
    }
    assert forall|j: int| 0 < j < r.len() implies (f.document.notes.contains(
        note_of(#[trigger] r[j]),
    ) <==> (notes::holds(seen.visible, note_of(r[j]).id) || !notes::holds(
        seen.dropped,
        note_of(r[j]).id,
    ))) by {
        lemma_kept(all, seen.dropped, seen.visible, note_of(r[j]));
        assert(all[j - 1] == note_of(r[j]));
    }
}

} // verus!
