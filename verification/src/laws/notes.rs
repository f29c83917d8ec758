//! What pruning notes promises, and what it means for a document.

use crate::docx;
use crate::docx::{Collected, Finished, Gathered, Halt, NoteView, Opened, Setting};
use crate::notes;
use crate::notes::{Note, NoteKind};
use crate::package::{Query, Relationship, SeenView, WordPackage};
use crate::xml;
use crate::xml::Element;
use vstd::prelude::*;

verus! {

proof fn lemma_filtered(s: Seq<Note>, dropped: Set<String>, visible: Set<String>)
    ensures
        forall|k: int|
            0 <= k < notes::pruned(s, dropped, visible).len() ==> notes::kept(
                (#[trigger] notes::pruned(s, dropped, visible)[k]).id@,
                dropped,
                visible,
            ) && s.contains(notes::pruned(s, dropped, visible)[k]),
        forall|i: int|
            0 <= i < s.len() && notes::kept((#[trigger] s[i]).id@, dropped, visible)
                ==> notes::pruned(s, dropped, visible).contains(s[i]),
    decreases s.len(),
{
    reveal_with_fuel(Seq::filter, 2);
    if s.len() > 0 {
        let rest = s.drop_last();
        let before = notes::pruned(rest, dropped, visible);
        let after = notes::pruned(s, dropped, visible);
        lemma_filtered(rest, dropped, visible);
        assert forall|k: int| 0 <= k < after.len() implies notes::kept(
            (#[trigger] after[k]).id@,
            dropped,
            visible,
        ) && s.contains(after[k]) by {
            if k < before.len() {
                assert(after[k] == before[k]);
                let i = choose|i: int| 0 <= i < rest.len() && rest[i] == before[k];
                assert(s[i] == before[k]);
            } else {
                assert(s[s.len() - 1] == after[k]);
            }
        }
        assert forall|i: int|
            0 <= i < s.len() && notes::kept(
                (#[trigger] s[i]).id@,
                dropped,
                visible,
            ) implies after.contains(s[i]) by {
            if i < rest.len() {
                assert(rest[i] == s[i]);
                let k = choose|k: int| 0 <= k < before.len() && before[k] == s[i];
                assert(after[k] == s[i]);
            } else {
                assert(after[after.len() - 1] == s[i]);
            }
        }
    }
}

/// A note with a visible reference survives, whatever was dropped.
pub proof fn law_visible_notes_survive(
    s: Seq<Note>,
    dropped: Set<String>,
    visible: Set<String>,
    i: int,
)
    requires
        0 <= i < s.len(),
        notes::holds(visible, s[i].id@),
    ensures
        notes::pruned(s, dropped, visible).contains(s[i]),
{
    lemma_filtered(s, dropped, visible);
}

/// A note that nothing refers to survives.
pub proof fn law_unreferenced_notes_survive(
    s: Seq<Note>,
    dropped: Set<String>,
    visible: Set<String>,
    i: int,
)
    requires
        0 <= i < s.len(),
        !notes::holds(dropped, s[i].id@),
    ensures
        notes::pruned(s, dropped, visible).contains(s[i]),
{
    lemma_filtered(s, dropped, visible);
}

/// A note whose only references were dropped does not survive, and no note
/// appears that was not there.
pub proof fn law_notes_of_hidden_references_are_pruned(
    s: Seq<Note>,
    dropped: Set<String>,
    visible: Set<String>,
    k: int,
)
    requires
        0 <= k < notes::pruned(s, dropped, visible).len(),
    ensures
        ({
            let note = notes::pruned(s, dropped, visible)[k];
            s.contains(note) && !(notes::holds(dropped, note.id@) && !notes::holds(
                visible,
                note.id@,
            ))
        }),
{
    lemma_filtered(s, dropped, visible);
}

/// Pruning works note by note, so it keeps their order.
pub proof fn law_pruning_keeps_the_order(
    a: Seq<Note>,
    b: Seq<Note>,
    dropped: Set<String>,
    visible: Set<String>,
)
    ensures
        notes::pruned(a + b, dropped, visible) == notes::pruned(a, dropped, visible)
            + notes::pruned(b, dropped, visible),
    decreases b.len(),
{
    reveal_with_fuel(Seq::filter, 2);
    if b.len() == 0 {
        assert(a + b =~= a);
        assert(notes::pruned(b, dropped, visible) =~= Seq::empty());
        assert(notes::pruned(a + b, dropped, visible) =~= notes::pruned(a, dropped, visible)
            + notes::pruned(b, dropped, visible));
    } else {
        law_pruning_keeps_the_order(a, b.drop_last(), dropped, visible);
        assert((a + b).drop_last() =~= a + b.drop_last());
        assert((a + b).last() == b.last());
        assert(notes::pruned(a + b, dropped, visible) =~= notes::pruned(a, dropped, visible)
            + notes::pruned(b, dropped, visible));
    }
}

/// Pruning twice is pruning once.
pub proof fn law_pruning_twice_is_pruning_once(
    s: Seq<Note>,
    dropped: Set<String>,
    visible: Set<String>,
)
    ensures
        notes::pruned(notes::pruned(s, dropped, visible), dropped, visible) == notes::pruned(
            s,
            dropped,
            visible,
        ),
{
    lemma_filtered(s, dropped, visible);
    lemma_all_kept(notes::pruned(s, dropped, visible), dropped, visible);
}

proof fn lemma_all_kept(s: Seq<Note>, dropped: Set<String>, visible: Set<String>)
    requires
        forall|k: int|
            0 <= k < s.len() ==> notes::kept((#[trigger] s[k]).id@, dropped, visible),
    ensures
        notes::pruned(s, dropped, visible) == s,
    decreases s.len(),
{
    reveal_with_fuel(Seq::filter, 2);
    if s.len() == 0 {
        assert(notes::pruned(s, dropped, visible) =~= s);
    } else {
        let rest = s.drop_last();
        assert forall|k: int| 0 <= k < rest.len() implies notes::kept(
            (#[trigger] rest[k]).id@,
            dropped,
            visible,
        ) by {
            assert(rest[k] == s[k]);
        }
        lemma_all_kept(rest, dropped, visible);
        assert(notes::kept(s[s.len() - 1].id@, dropped, visible));
        assert(rest.push(s.last()) =~= s);
    }
}

proof fn lemma_kept_views(s: Seq<NoteView>, dropped: Set<String>, visible: Set<String>)
    ensures
        forall|k: int|
            0 <= k < docx::kept_notes(s, dropped, visible).len() ==> notes::kept(
                (#[trigger] docx::kept_notes(s, dropped, visible)[k]).id,
                dropped,
                visible,
            ),
    decreases s.len(),
{
    reveal_with_fuel(Seq::filter, 2);
    if s.len() > 0 {
        let rest = s.drop_last();
        lemma_kept_views(rest, dropped, visible);
        let before = docx::kept_notes(rest, dropped, visible);
        let after = docx::kept_notes(s, dropped, visible);
        assert forall|k: int| 0 <= k < after.len() implies notes::kept(
            (#[trigger] after[k]).id,
            dropped,
            visible,
        ) by {
            if k < before.len() {
                assert(after[k] == before[k]);
            }
        }
    }
}

// ---------------------------------------------------------------------------
// Documents

/// What the content that was read last has left; `None` when none was.
pub open spec fn left_by<P: WordPackage>(asked: Seq<Query<P>>) -> Option<SeenView<P::Counters>>
    decreases asked.len(),
{
    if asked.len() == 0 {
        None
    } else {
        match asked.last() {
            Query::Blocks { content: Ok(c), .. } => Some(c.seen@),
            _ => left_by(asked.drop_last()),
        }
    }
}

/// Whether all content was read from that package and resolved against those
/// definitions, the first with nothing seen yet and each further piece with
/// what the one before it has left.
pub open spec fn threaded<P: WordPackage>(asked: Seq<Query<P>>, with: Setting<P>) -> bool
    decreases asked.len(),
{
    asked.len() == 0 || {
        &&& threaded(asked.drop_last(), with)
        &&& asked.last() matches Query::Blocks { asked: piece, .. } ==> {
            &&& piece.pkg == with.pkg
            &&& piece.styles == with.styles
            &&& piece.numbering == with.numbering
            &&& match left_by(asked.drop_last()) {
                Some(seen) => piece.seen == seen,
                None => piece.seen == SeenView::none(piece.seen.counters),
            }
        }
    }
}

/// Whether those questions are in order and leave that.
spec fn leaves<P: WordPackage>(
    asked: Seq<Query<P>>,
    with: Setting<P>,
    left: Option<SeenView<P::Counters>>,
) -> bool {
    threaded(asked, with) && left_by(asked) == left
}

/// A question about anything but content makes no difference.
proof fn lemma_aside<P: WordPackage>(
    asked: Seq<Query<P>>,
    q: Query<P>,
    with: Setting<P>,
    left: Option<SeenView<P::Counters>>,
)
    requires
        leaves(asked, with, left),
        !(q is Blocks),
    ensures
        leaves(asked.push(q), with, left),
{
    assert(asked.push(q).drop_last() =~= asked);
}

proof fn lemma_path<P: WordPackage>(
    script: Seq<Query<P>>,
    rels: Seq<Relationship>,
    base: Seq<char>,
    rel_type: Seq<char>,
    fallback: Seq<char>,
    asked: Seq<Query<P>>,
    with: Setting<P>,
    left: Option<SeenView<P::Counters>>,
)
    requires
        leaves(asked, with, left),
    ensures
        leaves(
            docx::typed_path(script, rels, base, rel_type, fallback, asked).asked,
            with,
            left,
        ),
{
    let reference = match docx::target_of(rels, rel_type) {
        Some(t) => t,
        None => fallback,
    };
    let first = docx::reply(script, asked)->path;
    let q = Query::<P>::Resolve { base, reference, path: first };
    lemma_aside(asked, q, with, left);
    let asked1 = asked.push(q);
    let second = docx::reply(script, asked1)->path;
    lemma_aside(asked1, Query::Resolve { base, reference: fallback, path: second }, with, left);
}

proof fn lemma_links<P: WordPackage>(
    script: Seq<Query<P>>,
    pkg: P,
    part: Seq<char>,
    asked: Seq<Query<P>>,
    with: Setting<P>,
    left: Option<SeenView<P::Counters>>,
)
    requires
        leaves(asked, with, left),
    ensures
        docx::linked_by(script, pkg, part, asked) matches Ok(l) ==> leaves(l.asked, with, left),
        docx::links_of(script, pkg, part, asked) matches Ok(l) ==> leaves(l.asked, with, left),
{
    lemma_aside(
        asked,
        Query::Rels { pkg, part, rels: docx::reply(script, asked)->rels },
        with,
        left,
    );
    let name = docx::reply(script, asked)->name;
    let q = Query::<P>::RelsPart { part, name };
    lemma_aside(asked, q, with, left);
    let asked1 = asked.push(q);
    lemma_aside(
        asked1,
        Query::Rels { pkg, part: name@, rels: docx::reply(script, asked1)->rels },
        with,
        left,
    );
}

proof fn lemma_contents<P: WordPackage>(
    script: Seq<Query<P>>,
    with: Setting<P>,
    elem: Element,
    rels: Seq<Relationship>,
    part: Seq<char>,
    seen: SeenView<P::Counters>,
    asked: Seq<Query<P>>,
    left: Option<SeenView<P::Counters>>,
)
    requires
        leaves(asked, with, left),
        match left {
            Some(l) => seen == l,
            None => seen == SeenView::none(seen.counters),
        },
    ensures
        docx::contents(script, with, elem, rels, part, seen, asked) matches Ok(c) ==> leaves(
            c.asked,
            with,
            Some(c.seen),
        ),
{
    if let Ok(c) = docx::contents(script, with, elem, rels, part, seen, asked) {
        assert(c.asked.drop_last() =~= asked);
    }
}

proof fn lemma_notes<P: WordPackage>(
    script: Seq<Query<P>>,
    with: Setting<P>,
    root: Element,
    kind: NoteKind,
    rels: Seq<Relationship>,
    part: Seq<char>,
    n: int,
    c: Collected<P>,
)
    requires
        leaves(c.asked, with, Some(c.seen)),
    ensures
        docx::notes_upto(script, with, root, kind, rels, part, n, c) matches Ok(p) ==> leaves(
            p.asked,
            with,
            Some(p.seen),
        ),
    decreases n,
{
    if n > 0 {
        lemma_notes(script, with, root, kind, rels, part, n - 1, c);
        if let Ok(p) = docx::notes_upto(script, with, root, kind, rels, part, n - 1, c) {
            lemma_contents(
                script,
                with,
                root.children@[n - 1]->Elem_0,
                rels,
                part,
                p.seen,
                p.asked,
                Some(p.seen),
            );
        }
    }
}

proof fn lemma_note_part<P: WordPackage>(
    script: Seq<Query<P>>,
    with: Setting<P>,
    part: Seq<char>,
    kind: NoteKind,
    c: Collected<P>,
)
    requires
        leaves(c.asked, with, Some(c.seen)),
    ensures
        docx::notes_in(script, with, part, kind, c) matches Ok(p) ==> leaves(
            p.asked,
            with,
            Some(p.seen),
        ),
{
    let tree = docx::reply(script, c.asked)->tree;
    let q = Query::<P>::Optional { pkg: with.pkg, part, tree };
    lemma_aside(c.asked, q, with, Some(c.seen));
    let asked = c.asked.push(q);
    if let Ok(t) = tree {
        if let Some(root) = docx::root_in(t, docx::root_name(kind)) {
            lemma_links(script, with.pkg, part, asked, with, Some(c.seen));
            if let Ok(links) = docx::links_of(script, with.pkg, part, asked) {
                lemma_notes(
                    script,
                    with,
                    root,
                    kind,
                    links.rels,
                    part,
                    root.children@.len() as int,
                    Collected { asked: links.asked, ..c },
                );
            }
        }
    }
}

proof fn lemma_gathered<P: WordPackage>(
    script: Seq<Query<P>>,
    o: Opened<P>,
    with: Setting<P>,
    before: Seq<Query<P>>,
)
    requires
        leaves(before, with, None),
    ensures
        docx::gathered(script, o, with, before) matches Ok(g) ==> leaves(
            g.collected.asked,
            with,
            Some(g.collected.seen),
        ),
{
    if docx::gathered(script, o, with, before) is Ok {
        let whole = docx::reply(script, before)->whole;
        lemma_aside(before, Query::Required { pkg: o.pkg, part: o.main, whole }, with, None);
        let b = docx::body_of(script, o, before)->Ok_0;
        let counters = docx::reply(script, b.asked)->counters;
        let q = Query::<P>::Counters { counters };
        lemma_aside(b.asked, q, with, None);
        let counted = b.asked.push(q);
        lemma_path(
            script,
            o.rels,
            o.main,
            docx::FOOTNOTES@,
            "footnotes.xml"@,
            counted,
            with,
            None,
        );
        let foot = docx::typed_path(
            script,
            o.rels,
            o.main,
            docx::FOOTNOTES@,
            "footnotes.xml"@,
            counted,
        );
        lemma_path(
            script,
            o.rels,
            o.main,
            docx::ENDNOTES@,
            "endnotes.xml"@,
            foot.asked,
            with,
            None,
        );
        let end = docx::typed_path(
            script,
            o.rels,
            o.main,
            docx::ENDNOTES@,
            "endnotes.xml"@,
            foot.asked,
        );
        let seen = SeenView::none(counters);
        lemma_contents(script, with, b.body, o.rels, o.main, seen, end.asked, None);
        let main = docx::contents(script, with, b.body, o.rels, o.main, seen, end.asked)->Ok_0;
        let none = Collected { notes: Seq::empty(), seen: main.seen, asked: main.asked };
        lemma_note_part(script, with, foot.path, NoteKind::Footnote, none);
        let c = docx::notes_in(script, with, foot.path, NoteKind::Footnote, none)->Ok_0;
        lemma_note_part(script, with, end.path, NoteKind::Endnote, c);
    }
}

/// What a document is read from: the opened package and its definitions.
pub open spec fn setting_of<P: WordPackage>(script: Seq<Query<P>>, bytes: Seq<u8>) -> Setting<P> {
    let o = docx::opened(script, bytes)->Ok_0;
    let s = docx::styled(script, o)->Ok_0;
    let n = docx::numbered(script, o, s)->Ok_0;
    Setting { pkg: o.pkg, styles: s.styles, numbering: n.numbering }
}

/// Before content is read, none is.
proof fn lemma_defined<P: WordPackage>(
    script: Seq<Query<P>>,
    bytes: Seq<u8>,
    with: Setting<P>,
)
    requires
        docx::read_document(script, bytes) is Ok,
    ensures
        ({
            let o = docx::opened(script, bytes)->Ok_0;
            let s = docx::styled(script, o)->Ok_0;
            leaves(docx::numbered(script, o, s)->Ok_0.asked, with, None)
        }),
{
    let none: Seq<Query<P>> = Seq::empty();
    let o = docx::opened(script, bytes)->Ok_0;
    let open = docx::reply(script, none)->opened;
    let q0 = Query::<P>::Open { bytes, opened: open };
    lemma_aside(none, q0, with, None);
    let a0 = none.push(q0);
    lemma_links(script, o.pkg, "_rels/.rels"@, a0, with, None);
    let root = docx::linked_by(script, o.pkg, "_rels/.rels"@, a0)->Ok_0;
    let main = docx::main_path(script, root.rels, root.asked);
    if let Some(reference) = docx::target_of(root.rels, docx::OFFICE_DOCUMENT@) {
        let path = docx::reply(script, root.asked)->path;
        lemma_aside(root.asked, Query::Resolve { base: ""@, reference, path }, with, None);
    }
    lemma_links(script, o.pkg, main.path, main.asked, with, None);

    lemma_path(
        script,
        o.rels,
        o.main,
        docx::STYLES@,
        "styles.xml"@,
        o.asked,
        with,
        None,
    );
    let at = docx::typed_path(script, o.rels, o.main, docx::STYLES@, "styles.xml"@, o.asked);
    let tree = docx::reply(script, at.asked)->tree;
    let q1 = Query::<P>::Optional { pkg: o.pkg, part: at.path, tree };
    lemma_aside(at.asked, q1, with, None);
    let a1 = at.asked.push(q1);
    let s = docx::styled(script, o)->Ok_0;
    lemma_aside(
        a1,
        Query::Styles { defined: docx::root_in(tree->Ok_0, "styles"@), styles: s.styles },
        with,
        None,
    );

    lemma_path(
        script,
        o.rels,
        o.main,
        docx::NUMBERING@,
        "numbering.xml"@,
        s.asked,
        with,
        None,
    );
    let found = docx::typed_path(
        script,
        o.rels,
        o.main,
        docx::NUMBERING@,
        "numbering.xml"@,
        s.asked,
    );
    let ntree = docx::reply(script, found.asked)->tree;
    let q2 = Query::<P>::Optional { pkg: o.pkg, part: found.path, tree: ntree };
    lemma_aside(found.asked, q2, with, None);
    let a2 = found.asked.push(q2);
    let n = docx::numbered(script, o, s)->Ok_0;
    lemma_aside(a2, Query::NoNumbering { numbering: n.numbering }, with, None);
    if let Some(root) = docx::root_in(ntree->Ok_0, "numbering"@) {
        let read = docx::reply(script, a2)->read;
        lemma_aside(a2, Query::Numbering { root, against: s.styles, read }, with, None);
    }
}

/// All content of a converted document is resolved against its own styles and
/// numbering, and read one piece after the other: each starts from what the
/// piece before it has left.
pub proof fn law_content_is_read_in_turn<P: WordPackage>(
    script: Seq<Query<P>>,
    bytes: Seq<u8>,
    f: Finished<P>,
)
    requires
        docx::read_document(script, bytes) == Ok::<Finished<P>, Halt<P>>(f),
    ensures
        threaded(f.asked, setting_of(script, bytes)),
        left_by(f.asked) matches Some(seen) && f.document.assets == seen.assets,
{
    let with = setting_of(script, bytes);
    lemma_defined(script, bytes, with);
    let o = docx::opened(script, bytes)->Ok_0;
    let s = docx::styled(script, o)->Ok_0;
    let n = docx::numbered(script, o, s)->Ok_0;
    lemma_gathered(script, o, with, n.asked);
}

/// The notes of a converted document are all those of its parts but exactly
/// the ones whose only references were dropped as hidden, by what is left once
/// all of its content is read.
pub proof fn law_documents_have_no_hidden_notes<P: WordPackage>(
    script: Seq<Query<P>>,
    bytes: Seq<u8>,
    f: Finished<P>,
)
    requires
        docx::read_document(script, bytes) == Ok::<Finished<P>, Halt<P>>(f),
    ensures
        ({
            let o = docx::opened(script, bytes)->Ok_0;
            let s = docx::styled(script, o)->Ok_0;
            let n = docx::numbered(script, o, s)->Ok_0;
            let g = docx::gathered(script, o, setting_of(script, bytes), n.asked);
            &&& g matches Ok(g) && left_by(f.asked) matches Some(seen) && f.document.notes
                == docx::kept_notes(g.collected.notes, seen.dropped, seen.visible)
            &&& left_by(f.asked) matches Some(seen) && forall|k: int|
                0 <= k < f.document.notes.len() ==> notes::kept(
                    (#[trigger] f.document.notes[k]).id,
                    seen.dropped,
                    seen.visible,
                )
        }),
{
    law_content_is_read_in_turn(script, bytes, f);
    let with = setting_of(script, bytes);
    let o = docx::opened(script, bytes)->Ok_0;
    let s = docx::styled(script, o)->Ok_0;
    let n = docx::numbered(script, o, s)->Ok_0;
    lemma_defined(script, bytes, with);
    lemma_gathered(script, o, with, n.asked);
    let g: Gathered<P> = docx::gathered(script, o, with, n.asked)->Ok_0;
    let seen = g.collected.seen;
    lemma_kept_views(g.collected.notes, seen.dropped, seen.visible);
}

/// Without a relationship of its type, a part is sought by its conventional
/// name beside the main part, and has that name when nothing is found.
pub proof fn law_conventional_names_are_the_fallback<P: WordPackage>(
    script: Seq<Query<P>>,
    rels: Seq<Relationship>,
    base: Seq<char>,
    rel_type: Seq<char>,
    fallback: Seq<char>,
    asked: Seq<Query<P>>,
)
    requires
        docx::target_of(rels, rel_type) is None,
    ensures
        ({
            let found = docx::typed_path(script, rels, base, rel_type, fallback, asked);
            let n = asked.len() as int;
            &&& found.asked.len() > n
            &&& found.asked[n] matches Query::Resolve { base: b, reference, path } && b == base
                && reference == fallback && (path matches Some(p) ==> found.path == p@)
            &&& found.asked.last() matches Query::Resolve { path: None, .. } ==> found.path
                == fallback
        }),
{
}

/// Separators and continuation notices are no notes.
pub proof fn law_separators_are_no_notes(note: Element, kind: NoteKind, t: Seq<char>)
    requires
        xml::value_in(note.attrs@, docx::W@, "type"@) == Some(t),
        t == "separator"@ || t == "continuationSeparator"@ || t == "continuationNotice"@,
    ensures
        docx::id_of(note, kind) is None,
{
}

/// Footnotes and endnotes never share an id, though the parts they come from
/// count on their own.
pub proof fn law_note_ids_tell_the_kinds_apart(a: Element, b: Element)
    ensures
        docx::id_of(a, NoteKind::Footnote) matches Some(x) ==> docx::id_of(b, NoteKind::Endnote)
            != Some(x),
{
    reveal_strlit("fn");
    reveal_strlit("en");
    if let Some(x) = docx::id_of(a, NoteKind::Footnote) {
        assert(x[0] == 'f');
        if let Some(y) = docx::id_of(b, NoteKind::Endnote) {
            assert(y[0] == 'e');
        }
    }
}

} // verus!
