//! What finding the parts of a package promises: where each is looked for, what
//! is made of the answers, and that the first error ends the reading.

use crate::docx;
use crate::docx::{Collected, Failure, Halt, Opened, Setting, Styled};
use crate::error::ConvertError;
use crate::notes::NoteKind;
use crate::package::{Query, Reading, Relationship, SeenView, WordPackage};
use crate::xml::Element;
use vstd::prelude::*;

verus! {

// ---------------------------------------------------------------------------
// Where parts are

/// A relationship of a type leads where the first of that type does.
pub proof fn law_the_first_relationship_counts(
    rels: Seq<Relationship>,
    rel_type: Seq<char>,
    k: int,
)
    requires
        0 <= k <= rels.len(),
        forall|j: int| 0 <= j < k ==> (#[trigger] rels[j]).rel_type@ != rel_type,
        k < rels.len() ==> rels[k].rel_type@ == rel_type,
    ensures
        docx::target_of(rels, rel_type) == if k < rels.len() {
            Some(rels[k].target@)
        } else {
            None
        },
    decreases rels.len(),
{
    if k > 0 {
        assert(rels[0].rel_type@ != rel_type);
        let rest = rels.skip(1);
        assert forall|j: int| 0 <= j < k - 1 implies (#[trigger] rest[j]).rel_type@ != rel_type by {
            assert(rest[j] == rels[j + 1]);
        }
        law_the_first_relationship_counts(rest, rel_type, k - 1);
    }
}

/// A part is where its relationship leads, seen from the main part. Where there
/// is none, or it leads nowhere, the part is where its conventional name leads,
/// and goes by that name itself where that leads nowhere either.
pub proof fn law_related_parts<P: WordPackage>(
    script: Seq<Query<P>>,
    rels: Seq<Relationship>,
    base: Seq<char>,
    rel_type: Seq<char>,
    fallback: Seq<char>,
    asked: Seq<Query<P>>,
)
    ensures
        ({
            let found = docx::typed_path(script, rels, base, rel_type, fallback, asked);
            let n = asked.len() as int;
            let wanted = match docx::target_of(rels, rel_type) {
                Some(t) => t,
                None => fallback,
            };
            &&& found.asked.len() > n
            &&& found.asked.take(n) == asked
            &&& found.asked[n] matches Query::Resolve { base: b, reference, path: first } && b
                == base && reference == wanted && match first {
                Some(p) => found.path == p@ && found.asked.len() == n + 1,
                None => found.asked.len() == n + 2 && (found.asked[n + 1] matches Query::Resolve {
                    base: c,
                    reference: again,
                    path: second,
                } && c == base && again == fallback && found.path == match second {
                    Some(p) => p@,
                    None => fallback,
                }),
            }
        }),
{
    let found = docx::typed_path(script, rels, base, rel_type, fallback, asked);
    assert(found.asked.take(asked.len() as int) =~= asked);
}

/// The main part is where the package's own relationship leads, and at its
/// conventional place without one or where it leads nowhere.
pub proof fn law_the_main_part<P: WordPackage>(
    script: Seq<Query<P>>,
    rels: Seq<Relationship>,
    asked: Seq<Query<P>>,
)
    ensures
        ({
            let found = docx::main_path(script, rels, asked);
            match docx::target_of(rels, docx::OFFICE_DOCUMENT@) {
                None => found.path == "word/document.xml"@ && found.asked == asked,
                Some(t) => found.asked.len() == asked.len() + 1 && found.asked.drop_last() == asked
                    && (found.asked.last() matches Query::Resolve { base, reference, path } && base
                    == ""@ && reference == t && found.path == match path {
                    Some(p) => p@,
                    None => "word/document.xml"@,
                }),
            }
        }),
{
    let found = docx::main_path(script, rels, asked);
    if docx::target_of(rels, docx::OFFICE_DOCUMENT@) is Some {
        assert(found.asked.drop_last() =~= asked);
    }
}

/// The types that relationships go by.
pub proof fn law_relationship_types()
    ensures
        docx::OFFICE_DOCUMENT@
            == "http://schemas.openxmlformats.org/officeDocument/2006/relationships/officeDocument"@,
        docx::STYLES@
            == "http://schemas.openxmlformats.org/officeDocument/2006/relationships/styles"@,
        docx::NUMBERING@
            == "http://schemas.openxmlformats.org/officeDocument/2006/relationships/numbering"@,
        docx::FOOTNOTES@
            == "http://schemas.openxmlformats.org/officeDocument/2006/relationships/footnotes"@,
        docx::ENDNOTES@
            == "http://schemas.openxmlformats.org/officeDocument/2006/relationships/endnotes"@,
        docx::W@ == "http://schemas.openxmlformats.org/wordprocessingml/2006/main"@,
{
}

/// The links of a part are those that the part of links for it holds.
pub proof fn law_links_of_a_part<P: WordPackage>(
    script: Seq<Query<P>>,
    pkg: P,
    part: Seq<char>,
    asked: Seq<Query<P>>,
)
    ensures
        docx::links_of(script, pkg, part, asked) matches Ok(l) ==> {
            let n = asked.len() as int;
            &&& l.asked.len() == n + 2
            &&& l.asked.take(n) == asked
            &&& l.asked[n] matches Query::RelsPart { part: p, name } && p == part && (
            l.asked[n + 1] matches Query::Rels { pkg: k, part: q, rels: Ok(v) } && k == pkg && q
                == name@ && l.rels == v@)
        },
{
    if let Ok(l) = docx::links_of(script, pkg, part, asked) {
        assert(l.asked.take(asked.len() as int) =~= asked);
    }
}

/// A package is opened from its bytes. Its own links say where the main part is,
/// and the links of the main part are those for it.
pub proof fn law_opening<P: WordPackage>(script: Seq<Query<P>>, bytes: Seq<u8>)
    ensures
        docx::opened(script, bytes) matches Ok(o) ==> {
            &&& o.asked.len() >= 4
            &&& o.asked[0] == (Query::Open::<P> { bytes, opened: Ok(o.pkg) })
            &&& o.asked[1] matches Query::Rels { pkg, part, rels: Ok(own) } && pkg == o.pkg && part
                == "_rels/.rels"@ && o.main == docx::main_path(
                script,
                own@,
                o.asked.take(2),
            ).path
            &&& o.asked[o.asked.len() - 2] matches Query::RelsPart { part, name } && part == o.main
                && (o.asked.last() matches Query::Rels { pkg, part: of, rels: Ok(links) } && pkg
                == o.pkg && of == name@ && o.rels == links@)
        },
{
    if let Ok(o) = docx::opened(script, bytes) {
        let none: Seq<Query<P>> = Seq::empty();
        let open = docx::reply(script, none)->opened;
        let a0 = none.push(Query::Open { bytes, opened: open });
        let root = docx::linked_by(script, o.pkg, "_rels/.rels"@, a0)->Ok_0;
        let main = docx::main_path(script, root.rels, root.asked);
        law_the_main_part(script, root.rels, root.asked);
        law_links_of_a_part(script, o.pkg, main.path, main.asked);
        let n = main.asked.len() as int;
        assert(root.asked.len() == 2);
        assert(o.asked.take(n) == main.asked);
        assert(o.asked[0] == o.asked.take(n)[0]);
        assert(o.asked[1] == o.asked.take(n)[1]);
        if docx::target_of(root.rels, docx::OFFICE_DOCUMENT@) is Some {
            assert(main.asked[0] == main.asked.drop_last()[0]);
            assert(main.asked[1] == main.asked.drop_last()[1]);
        }
        assert(o.asked.take(2) =~= root.asked);
    }
}

/// Styles are read from the part of styles, from the root of that name in it,
/// and from nothing where there is none.
pub proof fn law_styles<P: WordPackage>(script: Seq<Query<P>>, o: Opened<P>)
    ensures
        docx::styled(script, o) matches Ok(s) ==> {
            let found = docx::typed_path(
                script,
                o.rels,
                o.main,
                docx::STYLES@,
                "styles.xml"@,
                o.asked,
            );
            let n = found.asked.len() as int;
            &&& s.asked.len() == n + 2
            &&& s.asked.take(n) == found.asked
            &&& s.asked[n] matches Query::Optional { pkg, part, tree: Ok(tree) } && pkg == o.pkg
                && part == found.path && (s.asked[n + 1] matches Query::Styles { defined, styles }
                && styles == s.styles && defined == match tree {
                Some(t) => t.child(docx::W@, "styles"@),
                None => None,
            })
        },
{
    if let Ok(s) = docx::styled(script, o) {
        let found = docx::typed_path(
            script,
            o.rels,
            o.main,
            docx::STYLES@,
            "styles.xml"@,
            o.asked,
        );
        assert(s.asked.take(found.asked.len() as int) =~= found.asked);
    }
}

/// Numbering is read from the part of numbering, from the root of that name in
/// it and against the document's own styles; without one it is that of a
/// document that has none.
pub proof fn law_numbering<P: WordPackage>(script: Seq<Query<P>>, o: Opened<P>, s: Styled<P>)
    ensures
        docx::numbered(script, o, s) matches Ok(m) ==> {
            let found = docx::typed_path(
                script,
                o.rels,
                o.main,
                docx::NUMBERING@,
                "numbering.xml"@,
                s.asked,
            );
            let n = found.asked.len() as int;
            &&& m.asked.len() == n + 2
            &&& m.asked.take(n) == found.asked
            &&& m.asked[n] matches Query::Optional { pkg, part, tree: Ok(tree) } && pkg == o.pkg
                && part == found.path && match (match tree {
                Some(t) => t.child(docx::W@, "numbering"@),
                None => None,
            }) {
                Some(top) => m.asked[n + 1] matches Query::Numbering {
                    root,
                    against,
                    read: Ok(numbering),
                } && root == top && against == s.styles && numbering == m.numbering,
                None => m.asked[n + 1] matches Query::NoNumbering { numbering } && numbering
                    == m.numbering,
            }
        },
{
    if let Ok(m) = docx::numbered(script, o, s) {
        let found = docx::typed_path(
            script,
            o.rels,
            o.main,
            docx::NUMBERING@,
            "numbering.xml"@,
            s.asked,
        );
        assert(m.asked.take(found.asked.len() as int) =~= found.asked);
    }
}

// ---------------------------------------------------------------------------
// Errors

/// Whether an answer is no error.
pub open spec fn answered<P: WordPackage>(q: Query<P>) -> bool {
    match q {
        Query::Open { opened, .. } => opened is Ok,
        Query::Probe { .. } => false,
        Query::Rels { rels, .. } => rels is Ok,
        Query::Optional { tree, .. } => tree is Ok,
        Query::Required { whole, .. } => whole is Ok,
        Query::Numbering { read, .. } => read is Ok,
        Query::Blocks { content, .. } => content is Ok,
        _ => true,
    }
}

/// Whether no answer is an error.
pub open spec fn all_answered<P: WordPackage>(asked: Seq<Query<P>>) -> bool {
    forall|i: int| 0 <= i < asked.len() ==> answered(#[trigger] asked[i])
}

/// Whether an answer is that error.
pub open spec fn refuses<P: WordPackage>(q: Query<P>, e: ConvertError) -> bool {
    match q {
        Query::Rels { rels: Err(x), .. } => x == e,
        Query::Optional { tree: Err(x), .. } => x == e,
        Query::Required { whole: Err(x), .. } => x == e,
        Query::Numbering { read: Err(x), .. } => x == e,
        Query::Blocks { content: Err(x), .. } => x == e,
        _ => false,
    }
}

/// Whether a reading ended with the last answer, all before it being none that
/// end it: with the error that it gave, or because the main part has no body.
pub open spec fn ended<P: WordPackage>(h: Halt<P>) -> bool {
    &&& h.asked.len() > 0
    &&& match h.failure {
        Failure::Given(e) => refuses(h.asked.last(), e) && all_answered(h.asked.drop_last()),
        Failure::NoBody(main) => {
            &&& all_answered(h.asked)
            &&& h.asked.last() matches Query::Required { part, whole: Ok(t), .. } && part == main
                && match t.child(docx::W@, "document"@) {
                Some(d) => d.child(docx::W@, "body"@) is None,
                None => true,
            }
        },
    }
}

/// Whether bytes could not be opened: the error is what they were recognized
/// as, or that of opening them.
pub open spec fn not_opened<P: WordPackage>(h: Halt<P>, bytes: Seq<u8>) -> bool {
    &&& h.asked.len() == 2
    &&& h.asked[0] matches Query::Open { bytes: given, opened: Err(e) } && given == bytes && (
    h.asked[1] matches Query::Probe { bytes: probed, found } && probed == bytes && h.failure
        == Failure::Given(
        match found {
            Some(f) => f,
            None => e,
        },
    ))
}

proof fn lemma_push<P: WordPackage>(asked: Seq<Query<P>>, q: Query<P>)
    requires
        all_answered(asked),
    ensures
        answered(q) ==> all_answered(asked.push(q)),
        asked.push(q).drop_last() == asked,
        asked.push(q).last() == q,
{
    assert(asked.push(q).drop_last() =~= asked);
}

proof fn lemma_path<P: WordPackage>(
    script: Seq<Query<P>>,
    rels: Seq<Relationship>,
    base: Seq<char>,
    rel_type: Seq<char>,
    fallback: Seq<char>,
    asked: Seq<Query<P>>,
)
    requires
        all_answered(asked),
    ensures
        all_answered(docx::typed_path(script, rels, base, rel_type, fallback, asked).asked),
{
    let found = docx::typed_path(script, rels, base, rel_type, fallback, asked);
    law_related_parts(script, rels, base, rel_type, fallback, asked);
    assert forall|i: int| 0 <= i < found.asked.len() implies answered(
        #[trigger] found.asked[i],
    ) by {
        if i < asked.len() {
            assert(found.asked.take(asked.len() as int)[i] == found.asked[i]);
        }
    }
}

proof fn lemma_links<P: WordPackage>(
    script: Seq<Query<P>>,
    pkg: P,
    part: Seq<char>,
    asked: Seq<Query<P>>,
)
    requires
        all_answered(asked),
    ensures
        match docx::linked_by(script, pkg, part, asked) {
            Ok(l) => all_answered(l.asked),
            Err(h) => ended(h),
        },
        match docx::links_of(script, pkg, part, asked) {
            Ok(l) => all_answered(l.asked),
            Err(h) => ended(h),
        },
{
    let rels = docx::reply(script, asked)->rels;
    lemma_push(asked, Query::Rels { pkg, part, rels });
    let name = docx::reply(script, asked)->name;
    lemma_push(asked, Query::RelsPart { part, name });
    let asked1 = asked.push(Query::RelsPart { part, name });
    let more = docx::reply(script, asked1)->rels;
    lemma_push(asked1, Query::Rels { pkg, part: name@, rels: more });
}

proof fn lemma_contents<P: WordPackage>(
    script: Seq<Query<P>>,
    with: Setting<P>,
    elem: Element,
    rels: Seq<Relationship>,
    part: Seq<char>,
    seen: SeenView<P::Counters>,
    asked: Seq<Query<P>>,
)
    requires
        all_answered(asked),
    ensures
        match docx::contents(script, with, elem, rels, part, seen, asked) {
            Ok(c) => all_answered(c.asked),
            Err(h) => ended(h),
        },
{
    let content = docx::reply(script, asked)->content;
    let reading = Reading {
        pkg: with.pkg,
        elem,
        rels,
        part,
        styles: with.styles,
        numbering: with.numbering,
        seen,
    };
    lemma_push(asked, Query::Blocks { asked: reading, content });
}

proof fn lemma_notes<P: WordPackage>(
    script: Seq<Query<P>>,
    with: Setting<P>,
    root: Element,
    kind: NoteKind,
    rels: Seq<Relationship>,
    part: Seq<char>,
    n: int,
    c: Collected<P>,
)
    requires
        all_answered(c.asked),
    ensures
        match docx::notes_upto(script, with, root, kind, rels, part, n, c) {
            Ok(p) => all_answered(p.asked),
            Err(h) => ended(h),
        },
    decreases n,
{
    if n > 0 {
        lemma_notes(script, with, root, kind, rels, part, n - 1, c);
        if let Ok(p) = docx::notes_upto(script, with, root, kind, rels, part, n - 1, c) {
            let node = root.children@[n - 1];
            lemma_contents(script, with, node->Elem_0, rels, part, p.seen, p.asked);
        }
    }
}

proof fn lemma_note_part<P: WordPackage>(
    script: Seq<Query<P>>,
    with: Setting<P>,
    part: Seq<char>,
    kind: NoteKind,
    c: Collected<P>,
)
    requires
        all_answered(c.asked),
    ensures
        match docx::notes_in(script, with, part, kind, c) {
            Ok(p) => all_answered(p.asked),
            Err(h) => ended(h),
        },
{
    let tree = docx::reply(script, c.asked)->tree;
    let q = Query::Optional { pkg: with.pkg, part, tree };
    let asked = c.asked.push(q);
    lemma_push(c.asked, q);
    if tree is Ok {
        lemma_links(script, with.pkg, part, asked);
        if let Ok(links) = docx::links_of(script, with.pkg, part, asked) {
            if let Some(root) = docx::root_in(tree->Ok_0, docx::root_name(kind)) {
                lemma_notes(
                    script,
                    with,
                    root,
                    kind,
                    links.rels,
                    part,
                    root.children@.len() as int,
                    Collected { asked: links.asked, ..c },
                );
            }
        }
    }
}

proof fn lemma_gathered<P: WordPackage>(
    script: Seq<Query<P>>,
    o: Opened<P>,
    with: Setting<P>,
    before: Seq<Query<P>>,
)
    requires
        all_answered(before),
    ensures
        match docx::gathered(script, o, with, before) {
            Ok(g) => all_answered(g.collected.asked),
            Err(h) => ended(h),
        },
{
    let whole = docx::reply(script, before)->whole;
    lemma_push(before, Query::Required { pkg: o.pkg, part: o.main, whole });
    if let Ok(b) = docx::body_of(script, o, before) {
        let counters = docx::reply(script, b.asked)->counters;
        let counted = b.asked.push(Query::Counters { counters });
        lemma_push(b.asked, Query::Counters { counters });
        lemma_path(script, o.rels, o.main, docx::FOOTNOTES@, "footnotes.xml"@, counted);
        let foot = docx::typed_path(
            script,
            o.rels,
            o.main,
            docx::FOOTNOTES@,
            "footnotes.xml"@,
            counted,
        );
        lemma_path(script, o.rels, o.main, docx::ENDNOTES@, "endnotes.xml"@, foot.asked);
        let end = docx::typed_path(
            script,
            o.rels,
            o.main,
            docx::ENDNOTES@,
            "endnotes.xml"@,
            foot.asked,
        );
        let seen = SeenView::none(counters);
        lemma_contents(script, with, b.body, o.rels, o.main, seen, end.asked);
        if let Ok(main) = docx::contents(
            script,
            with,
            b.body,
            o.rels,
            o.main,
            seen,
            end.asked,
        ) {
            let none = Collected { notes: Seq::empty(), seen: main.seen, asked: main.asked };
            lemma_note_part(script, with, foot.path, NoteKind::Footnote, none);
            if let Ok(c) = docx::notes_in(script, with, foot.path, NoteKind::Footnote, none) {
                lemma_note_part(script, with, end.path, NoteKind::Endnote, c);
            }
        }
    }
}

proof fn lemma_opened<P: WordPackage>(script: Seq<Query<P>>, bytes: Seq<u8>)
    ensures
        match docx::opened(script, bytes) {
            Ok(o) => all_answered(o.asked),
            Err(h) => ended(h) || not_opened(h, bytes),
        },
{
    let none: Seq<Query<P>> = Seq::empty();
    let open = docx::reply(script, none)->opened;
    let q = Query::Open { bytes, opened: open };
    let asked = none.push(q);
    lemma_push(none, q);
    if let Ok(pkg) = open {
        lemma_links(script, pkg, "_rels/.rels"@, asked);
        if let Ok(root) = docx::linked_by(script, pkg, "_rels/.rels"@, asked) {
            let main = docx::main_path(script, root.rels, root.asked);
            if let Some(reference) = docx::target_of(root.rels, docx::OFFICE_DOCUMENT@) {
                let path = docx::reply(script, root.asked)->path;
                lemma_push(root.asked, Query::Resolve { base: ""@, reference, path });
            }
            lemma_links(script, pkg, main.path, main.asked);
        }
    }
}

proof fn lemma_styled<P: WordPackage>(script: Seq<Query<P>>, o: Opened<P>)
    requires
        all_answered(o.asked),
    ensures
        match docx::styled(script, o) {
            Ok(s) => all_answered(s.asked),
            Err(h) => ended(h),
        },
{
    lemma_path(script, o.rels, o.main, docx::STYLES@, "styles.xml"@, o.asked);
    let at = docx::typed_path(script, o.rels, o.main, docx::STYLES@, "styles.xml"@, o.asked);
    let tree = docx::reply(script, at.asked)->tree;
    let q = Query::Optional { pkg: o.pkg, part: at.path, tree };
    lemma_push(at.asked, q);
    let asked = at.asked.push(q);
    if tree is Ok {
        let styles = docx::reply(script, asked)->styles;
        lemma_push(
            asked,
            Query::Styles { defined: docx::root_in(tree->Ok_0, "styles"@), styles },
        );
    }
}

proof fn lemma_numbered<P: WordPackage>(script: Seq<Query<P>>, o: Opened<P>, s: Styled<P>)
    requires
        all_answered(s.asked),
    ensures
        match docx::numbered(script, o, s) {
            Ok(n) => all_answered(n.asked),
            Err(h) => ended(h),
        },
{
    lemma_path(script, o.rels, o.main, docx::NUMBERING@, "numbering.xml"@, s.asked);
    let at = docx::typed_path(
        script,
        o.rels,
        o.main,
        docx::NUMBERING@,
        "numbering.xml"@,
        s.asked,
    );
    let tree = docx::reply(script, at.asked)->tree;
    let q = Query::Optional { pkg: o.pkg, part: at.path, tree };
    lemma_push(at.asked, q);
    let asked = at.asked.push(q);
    if tree is Ok {
        let numbering = docx::reply(script, asked)->numbering;
        lemma_push(asked, Query::NoNumbering { numbering });
        if let Some(root) = docx::root_in(tree->Ok_0, "numbering"@) {
            let read = docx::reply(script, asked)->read;
            lemma_push(asked, Query::Numbering { root, against: s.styles, read });
        }
    }
}

/// The first error ends the reading with that error: a document comes only of
/// answers without one, and a failure is the last answer, all before it being
/// in order. Bytes that no package opens from are reported as what they are,
/// where they are recognized.
pub proof fn law_the_first_error_ends_the_reading<P: WordPackage>(
    script: Seq<Query<P>>,
    bytes: Seq<u8>,
)
    ensures
        match docx::read_document(script, bytes) {
            Ok(f) => all_answered(f.asked),
            Err(h) => ended(h) || not_opened(h, bytes),
        },
{
    lemma_opened(script, bytes);
    if let Ok(o) = docx::opened(script, bytes) {
        lemma_styled(script, o);
        if let Ok(s) = docx::styled(script, o) {
            lemma_numbered(script, o, s);
            if let Ok(n) = docx::numbered(script, o, s) {
                let with = Setting { pkg: o.pkg, styles: s.styles, numbering: n.numbering };
                lemma_gathered(script, o, with, n.asked);
            }
        }
    }
}

/// An error is reported as it was given; a main part without a body as
/// malformed, by its name.
pub proof fn law_failures_are_reported(given: ConvertError, main: Seq<char>, e: ConvertError)
    ensures
        Failure::Given(given).is_reported_by(e) <==> e == given,
        Failure::NoBody(main).is_reported_by(e) <==> (e matches ConvertError::MalformedPart {
            part,
            detail,
        } && part@ == main && detail@ == "no document body"@),
{
}

} // verus!
