//! OOXML WordprocessingML (.docx / .docm).
//!
//! Resolution pipeline: package parts -> style/numbering models -> document
//! model. Hidden content never resolves to a leftover reference: a
//! footnote/endnote whose only reference sat in a hidden run or tracked
//! deletion is pruned from [`Document::notes`], so it cannot resurface as an
//! unreferenced note at the document's end.

use crate::chars::{chars_of, string_of};
use crate::error::ConvertError;
use crate::model;
use crate::model::{Block, BlockView};
use crate::notes;
use crate::notes::{prune_hidden_notes, Note, NoteKind};
use crate::package;
use crate::package::{
    Asset, Content, Query, Reading, Relationship, Seen, SeenView, Session, WordPackage,
};
use crate::xml;
use crate::xml::{same_text, Element, Node};
use vstd::prelude::*;

verus! {

/// The namespace of WordprocessingML.
pub const W: &'static str = "http://schemas.openxmlformats.org/wordprocessingml/2006/main";

/// The type of the relationship from a package to its main part.
pub const OFFICE_DOCUMENT: &'static str =
    "http://schemas.openxmlformats.org/officeDocument/2006/relationships/officeDocument";

/// The types of the relationships from the main part to the parts beside it.
pub const STYLES: &'static str =
    "http://schemas.openxmlformats.org/officeDocument/2006/relationships/styles";

pub const NUMBERING: &'static str =
    "http://schemas.openxmlformats.org/officeDocument/2006/relationships/numbering";

pub const FOOTNOTES: &'static str =
    "http://schemas.openxmlformats.org/officeDocument/2006/relationships/footnotes";

pub const ENDNOTES: &'static str =
    "http://schemas.openxmlformats.org/officeDocument/2006/relationships/endnotes";

/// A converted document.
#[derive(Debug)]
pub struct Document {
    pub blocks: Vec<Block>,
    pub notes: Vec<Note>,
    pub assets: Vec<Asset>,
}

/// A [`Note`] with its text spelled out.
pub struct NoteView {
    pub id: Seq<char>,
    pub kind: NoteKind,
    pub blocks: Seq<BlockView>,
}

impl View for Note {
    type V = NoteView;

    open spec fn view(&self) -> NoteView {
        NoteView { id: self.id@, kind: self.kind, blocks: model::block_views(self.blocks@) }
    }
}

/// The views of notes.
pub open spec fn note_views(s: Seq<Note>) -> Seq<NoteView> {
    s.map_values(|n: Note| n@)
}

/// A [`Document`] with its text spelled out.
pub struct DocumentView {
    pub blocks: Seq<BlockView>,
    pub notes: Seq<NoteView>,
    pub assets: Seq<Asset>,
}

impl View for Document {
    type V = DocumentView;

    open spec fn view(&self) -> DocumentView {
        DocumentView {
            blocks: model::block_views(self.blocks@),
            notes: note_views(self.notes@),
            assets: self.assets@,
        }
    }
}

// ---------------------------------------------------------------------------
// What a package comes to

/// Why reading a package ended.
pub enum Failure {
    /// An error that the package gave.
    Given(ConvertError),
    /// The main part has no body.
    NoBody(Seq<char>),
}

impl Failure {
    /// Whether `e` reports this.
    pub open spec fn is_reported_by(self, e: ConvertError) -> bool {
        match self {
            Failure::Given(given) => e == given,
            Failure::NoBody(main) => e matches ConvertError::MalformedPart { part, detail }
                && part@ == main && detail@ == "no document body"@,
        }
    }
}

/// A reading that ended with an error.
pub struct Halt<P: WordPackage> {
    pub failure: Failure,
    pub asked: Seq<Query<P>>,
}

/// The answer at the position reached in a script.
pub open spec fn reply<P: WordPackage>(script: Seq<Query<P>>, asked: Seq<Query<P>>) -> Query<P> {
    script[asked.len() as int]
}

/// The target of the first relationship of that type.
pub open spec fn target_of(rels: Seq<Relationship>, rel_type: Seq<char>) -> Option<Seq<char>>
    decreases rels.len(),
{
    if rels.len() == 0 {
        None
    } else if rels[0].rel_type@ == rel_type {
        Some(rels[0].target@)
    } else {
        target_of(rels.skip(1), rel_type)
    }
}

/// The name of a part, and what was asked to find it.
pub struct Located<P: WordPackage> {
    pub path: Seq<char>,
    pub asked: Seq<Query<P>>,
}

/// Where a typed related part is: where its relationship leads, resolved
/// against the main part; the conventional sibling name when there is no such
/// relationship or it leads nowhere.
pub open spec fn typed_path<P: WordPackage>(
    script: Seq<Query<P>>,
    rels: Seq<Relationship>,
    base: Seq<char>,
    rel_type: Seq<char>,
    fallback: Seq<char>,
    asked: Seq<Query<P>>,
) -> Located<P> {
    let reference = match target_of(rels, rel_type) {
        Some(t) => t,
        None => fallback,
    };
    let first = reply(script, asked)->path;
    let asked1 = asked.push(Query::Resolve { base, reference, path: first });
    match first {
        Some(p) => Located { path: p@, asked: asked1 },
        None => {
            let second = reply(script, asked1)->path;
            let asked2 = asked1.push(Query::Resolve { base, reference: fallback, path: second });
            match second {
                Some(p) => Located { path: p@, asked: asked2 },
                None => Located { path: fallback, asked: asked2 },
            }
        },
    }
}

/// Where the main part is: where the package's relationship leads, or its
/// conventional place.
pub open spec fn main_path<P: WordPackage>(
    script: Seq<Query<P>>,
    root_rels: Seq<Relationship>,
    asked: Seq<Query<P>>,
) -> Located<P> {
    match target_of(root_rels, OFFICE_DOCUMENT@) {
        None => Located { path: "word/document.xml"@, asked },
        Some(reference) => {
            let found = reply(script, asked)->path;
            let asked1 = asked.push(Query::Resolve { base: ""@, reference, path: found });
            match found {
                Some(p) => Located { path: p@, asked: asked1 },
                None => Located { path: "word/document.xml"@, asked: asked1 },
            }
        },
    }
}

/// The relationships of a part.
pub struct Linked<P: WordPackage> {
    pub rels: Seq<Relationship>,
    pub asked: Seq<Query<P>>,
}

/// The relationships that the part of that name holds.
pub open spec fn linked_by<P: WordPackage>(
    script: Seq<Query<P>>,
    pkg: P,
    part: Seq<char>,
    asked: Seq<Query<P>>,
) -> Result<Linked<P>, Halt<P>> {
    let rels = reply(script, asked)->rels;
    let asked1 = asked.push(Query::Rels { pkg, part, rels });
    match rels {
        Err(e) => Err(Halt { failure: Failure::Given(e), asked: asked1 }),
        Ok(v) => Ok(Linked { rels: v@, asked: asked1 }),
    }
}

/// The relationships of a part.
pub open spec fn links_of<P: WordPackage>(
    script: Seq<Query<P>>,
    pkg: P,
    part: Seq<char>,
    asked: Seq<Query<P>>,
) -> Result<Linked<P>, Halt<P>> {
    let name = reply(script, asked)->name;
    linked_by(script, pkg, name@, asked.push(Query::RelsPart { part, name }))
}

/// An opened package and its main part.
pub struct Opened<P: WordPackage> {
    pub pkg: P,
    pub main: Seq<char>,
    pub rels: Seq<Relationship>,
    pub asked: Seq<Query<P>>,
}

/// The package opened and its main part located. Bytes that are no package
/// are reported as what they are, when they are recognized.
pub open spec fn opened<P: WordPackage>(script: Seq<Query<P>>, bytes: Seq<u8>) -> Result<
    Opened<P>,
    Halt<P>,
> {
    let none: Seq<Query<P>> = Seq::empty();
    let open = reply(script, none)->opened;
    let asked = none.push(Query::Open { bytes, opened: open });
    match open {
        Err(e) => {
            let found = reply(script, asked)->found;
            Err(
                Halt {
                    failure: Failure::Given(
                        match found {
                            Some(f) => f,
                            None => e,
                        },
                    ),
                    asked: asked.push(Query::Probe { bytes, found }),
                },
            )
        },
        Ok(pkg) => match linked_by(script, pkg, "_rels/.rels"@, asked) {
            Err(h) => Err(h),
            Ok(root) => {
                let main = main_path(script, root.rels, root.asked);
                match links_of(script, pkg, main.path, main.asked) {
                    Err(h) => Err(h),
                    Ok(doc) => Ok(
                        Opened { pkg, main: main.path, rels: doc.rels, asked: doc.asked },
                    ),
                }
            },
        },
    }
}

/// The root of that name in an optional tree.
pub open spec fn root_in(tree: Option<Element>, name: Seq<char>) -> Option<Element> {
    match tree {
        Some(t) => t.child(W@, name),
        None => None,
    }
}

/// Style definitions, and what was asked to get them.
pub struct Styled<P: WordPackage> {
    pub styles: P::Styles,
    pub asked: Seq<Query<P>>,
}

/// The style definitions of a package.
pub open spec fn styled<P: WordPackage>(script: Seq<Query<P>>, o: Opened<P>) -> Result<
    Styled<P>,
    Halt<P>,
> {
    let at = typed_path(script, o.rels, o.main, STYLES@, "styles.xml"@, o.asked);
    let tree = reply(script, at.asked)->tree;
    let asked = at.asked.push(Query::Optional { pkg: o.pkg, part: at.path, tree });
    match tree {
        Err(e) => Err(Halt { failure: Failure::Given(e), asked }),
        Ok(t) => {
            let styles = reply(script, asked)->styles;
            Ok(
                Styled {
                    styles,
                    asked: asked.push(Query::Styles { defined: root_in(t, "styles"@), styles }),
                },
            )
        },
    }
}

/// Numbering definitions, and what was asked to get them.
pub struct Numbered<P: WordPackage> {
    pub numbering: P::Numbering,
    pub asked: Seq<Query<P>>,
}

/// The numbering definitions of a package, which go with its styles; those of
/// a document without any where there is no such part.
pub open spec fn numbered<P: WordPackage>(
    script: Seq<Query<P>>,
    o: Opened<P>,
    s: Styled<P>,
) -> Result<Numbered<P>, Halt<P>> {
    let at = typed_path(script, o.rels, o.main, NUMBERING@, "numbering.xml"@, s.asked);
    let tree = reply(script, at.asked)->tree;
    let asked = at.asked.push(Query::Optional { pkg: o.pkg, part: at.path, tree });
    match tree {
        Err(e) => Err(Halt { failure: Failure::Given(e), asked }),
        Ok(t) => match root_in(t, "numbering"@) {
            None => {
                let numbering = reply(script, asked)->numbering;
                Ok(Numbered { numbering, asked: asked.push(Query::NoNumbering { numbering }) })
            },
            Some(root) => {
                let read = reply(script, asked)->read;
                let asked1 = asked.push(Query::Numbering { root, against: s.styles, read });
                match read {
                    Err(e) => Err(Halt { failure: Failure::Given(e), asked: asked1 }),
                    Ok(numbering) => Ok(Numbered { numbering, asked: asked1 }),
                }
            },
        },
    }
}

/// The body of a document, or what was missed on the way to it.
pub struct Body<P: WordPackage> {
    pub body: Element,
    pub asked: Seq<Query<P>>,
}

/// The body in the main part.
pub open spec fn body_of<P: WordPackage>(
    script: Seq<Query<P>>,
    o: Opened<P>,
    before: Seq<Query<P>>,
) -> Result<Body<P>, Halt<P>> {
    let tree = reply(script, before)->whole;
    let asked = before.push(Query::Required { pkg: o.pkg, part: o.main, whole: tree });
    match tree {
        Err(e) => Err(Halt { failure: Failure::Given(e), asked }),
        Ok(t) => match root_in(t.child(W@, "document"@), "body"@) {
            Some(body) => Ok(Body { body, asked }),
            None => Err(Halt { failure: Failure::NoBody(o.main), asked }),
        },
    }
}

/// What all content of a document is read from and resolved against.
pub struct Setting<P: WordPackage> {
    pub pkg: P,
    pub styles: P::Styles,
    pub numbering: P::Numbering,
}

/// Blocks, what was come across once they are read, and what was asked to get
/// them.
pub struct Contents<P: WordPackage> {
    pub blocks: Seq<BlockView>,
    pub seen: SeenView<P::Counters>,
    pub asked: Seq<Query<P>>,
}

/// The blocks of a body or of a note, read after what has been seen.
pub open spec fn contents<P: WordPackage>(
    script: Seq<Query<P>>,
    with: Setting<P>,
    elem: Element,
    rels: Seq<Relationship>,
    part: Seq<char>,
    seen: SeenView<P::Counters>,
    asked: Seq<Query<P>>,
) -> Result<Contents<P>, Halt<P>> {
    let content = reply(script, asked)->content;
    let reading = Reading {
        pkg: with.pkg,
        elem,
        rels,
        part,
        styles: with.styles,
        numbering: with.numbering,
        seen,
    };
    let asked1 = asked.push(Query::Blocks { asked: reading, content });
    match content {
        Err(e) => Err(Halt { failure: Failure::Given(e), asked: asked1 }),
        Ok(c) => Ok(
            Contents { blocks: model::block_views(c.blocks@), seen: c.seen@, asked: asked1 },
        ),
    }
}

/// The names of the root and of the notes in a part of that kind, and what
/// their ids start with.
pub open spec fn root_name(kind: NoteKind) -> Seq<char> {
    match kind {
        NoteKind::Footnote => "footnotes"@,
        NoteKind::Endnote => "endnotes"@,
    }
}

pub open spec fn note_name(kind: NoteKind) -> Seq<char> {
    match kind {
        NoteKind::Footnote => "footnote"@,
        NoteKind::Endnote => "endnote"@,
    }
}

pub open spec fn id_prefix(kind: NoteKind) -> Seq<char> {
    match kind {
        NoteKind::Footnote => "fn"@,
        NoteKind::Endnote => "en"@,
    }
}

/// The id of a note with content of its own: not a separator or a
/// continuation notice, and not one without an id.
pub open spec fn id_of(note: Element, kind: NoteKind) -> Option<Seq<char>> {
    let separates = match xml::value_in(note.attrs@, W@, "type"@) {
        Some(t) => t == "separator"@ || t == "continuationSeparator"@ || t
            == "continuationNotice"@,
        None => false,
    };
    match xml::value_in(note.attrs@, W@, "id"@) {
        Some(id) => if separates {
            None
        } else {
            Some(id_prefix(kind) + id)
        },
        None => None,
    }
}

/// Notes, what was come across once they are read, and what was asked to get
/// them.
pub struct Collected<P: WordPackage> {
    pub notes: Seq<NoteView>,
    pub seen: SeenView<P::Counters>,
    pub asked: Seq<Query<P>>,
}

/// The notes among the first `n` children of a root.
pub open spec fn notes_upto<P: WordPackage>(
    script: Seq<Query<P>>,
    with: Setting<P>,
    root: Element,
    kind: NoteKind,
    rels: Seq<Relationship>,
    part: Seq<char>,
    n: int,
    c: Collected<P>,
) -> Result<Collected<P>, Halt<P>>
    decreases n,
{
    if n <= 0 {
        Ok(c)
    } else {
        match notes_upto(script, with, root, kind, rels, part, n - 1, c) {
            Err(h) => Err(h),
            Ok(p) => {
                let node = root.children@[n - 1];
                if !node.is_named(W@, note_name(kind)) {
                    Ok(p)
                } else {
                    match id_of(node->Elem_0, kind) {
                        None => Ok(p),
                        Some(id) => match contents(
                            script,
                            with,
                            node->Elem_0,
                            rels,
                            part,
                            p.seen,
                            p.asked,
                        ) {
                            Err(h) => Err(h),
                            Ok(inner) => Ok(
                                Collected {
                                    notes: p.notes.push(
                                        NoteView { id, kind, blocks: inner.blocks },
                                    ),
                                    seen: inner.seen,
                                    asked: inner.asked,
                                },
                            ),
                        },
                    }
                }
            },
        }
    }
}

/// The notes of a part, none when there is no such part.
pub open spec fn notes_in<P: WordPackage>(
    script: Seq<Query<P>>,
    with: Setting<P>,
    part: Seq<char>,
    kind: NoteKind,
    c: Collected<P>,
) -> Result<Collected<P>, Halt<P>> {
    let tree = reply(script, c.asked)->tree;
    let asked = c.asked.push(Query::Optional { pkg: with.pkg, part, tree });
    match tree {
        Err(e) => Err(Halt { failure: Failure::Given(e), asked }),
        Ok(t) => match root_in(t, root_name(kind)) {
            None => Ok(Collected { asked, ..c }),
            Some(root) => match links_of(script, with.pkg, part, asked) {
                Err(h) => Err(h),
                Ok(links) => notes_upto(
                    script,
                    with,
                    root,
                    kind,
                    links.rels,
                    part,
                    root.children@.len() as int,
                    Collected { asked: links.asked, ..c },
                ),
            },
        },
    }
}

/// The notes that are kept.
pub open spec fn kept_notes(
    all: Seq<NoteView>,
    dropped: Set<String>,
    visible: Set<String>,
) -> Seq<NoteView> {
    all.filter(|n: NoteView| notes::kept(n.id, dropped, visible))
}

/// All that a document holds, before notes are pruned from it.
pub struct Gathered<P: WordPackage> {
    pub blocks: Seq<BlockView>,
    pub collected: Collected<P>,
}

/// The content of a document: the body is read first, with nothing seen yet,
/// then the footnotes and the endnotes, each with what was left by what was
/// read before it.
pub open spec fn gathered<P: WordPackage>(
    script: Seq<Query<P>>,
    o: Opened<P>,
    with: Setting<P>,
    before: Seq<Query<P>>,
) -> Result<Gathered<P>, Halt<P>> {
    match body_of(script, o, before) {
        Err(h) => Err(h),
        Ok(b) => {
            let counters = reply(script, b.asked)->counters;
            let counted = b.asked.push(Query::Counters { counters });
            let foot = typed_path(script, o.rels, o.main, FOOTNOTES@, "footnotes.xml"@, counted);
            let end = typed_path(script, o.rels, o.main, ENDNOTES@, "endnotes.xml"@, foot.asked);
            match contents(
                script,
                with,
                b.body,
                o.rels,
                o.main,
                SeenView::none(counters),
                end.asked,
            ) {
                Err(h) => Err(h),
                Ok(main) => {
                    let none = Collected {
                        notes: Seq::empty(),
                        seen: main.seen,
                        asked: main.asked,
                    };
                    match notes_in(script, with, foot.path, NoteKind::Footnote, none) {
                        Err(h) => Err(h),
                        Ok(c) => match notes_in(script, with, end.path, NoteKind::Endnote, c) {
                            Err(h) => Err(h),
                            Ok(all) => Ok(Gathered { blocks: main.blocks, collected: all }),
                        },
                    }
                },
            }
        },
    }
}

/// A finished document.
pub struct Finished<P: WordPackage> {
    pub document: DocumentView,
    pub asked: Seq<Query<P>>,
}

/// The notes pruned by what all the content has left, and its files taken.
pub open spec fn finished<P: WordPackage>(g: Gathered<P>) -> Finished<P> {
    let seen = g.collected.seen;
    Finished {
        document: DocumentView {
            blocks: g.blocks,
            notes: kept_notes(g.collected.notes, seen.dropped, seen.visible),
            assets: seen.assets,
        },
        asked: g.collected.asked,
    }
}

/// The content of a document, finished.
pub open spec fn read_content<P: WordPackage>(
    script: Seq<Query<P>>,
    o: Opened<P>,
    with: Setting<P>,
    before: Seq<Query<P>>,
) -> Result<Finished<P>, Halt<P>> {
    match gathered(script, o, with, before) {
        Err(h) => Err(h),
        Ok(g) => Ok(finished(g)),
    }
}

/// What a package comes to.
pub open spec fn read_document<P: WordPackage>(script: Seq<Query<P>>, bytes: Seq<u8>) -> Result<
    Finished<P>,
    Halt<P>,
> {
    match opened(script, bytes) {
        Err(h) => Err(h),
        Ok(o) => match styled(script, o) {
            Err(h) => Err(h),
            Ok(s) => match numbered(script, o, s) {
                Err(h) => Err(h),
                Ok(n) => read_content(
                    script,
                    o,
                    Setting { pkg: o.pkg, styles: s.styles, numbering: n.numbering },
                    n.asked,
                ),
            },
        },
    }
}

// ---------------------------------------------------------------------------
// Reading

/// The first relationship of that type.
pub fn first_of_type<'a>(rels: &'a Vec<Relationship>, rel_type: &str) -> (r: Option<&'a str>)
    ensures
        xml::opt_text(r) == target_of(rels@, rel_type@),
{
    let mut i: usize = 0;
    assert(rels@.skip(0) =~= rels@);
    while i < rels.len()
        invariant
            i <= rels@.len(),
            target_of(rels@.skip(i as int), rel_type@) == target_of(rels@, rel_type@),
        decreases rels@.len() - i,
    {
        assert(rels@.skip(i as int).skip(1) =~= rels@.skip(i + 1));
        if same_text(rels[i].rel_type.as_str(), rel_type) {
            return Some(rels[i].target.as_str());
        }
        i += 1;
    }
    None
}

/// Path of a typed related part, resolved against the main part; falls back
/// to the conventional sibling name when the relationship is absent.
pub fn typed_part_path<P: WordPackage>(
    session: &mut Session<P>,
    rels: &Vec<Relationship>,
    base: &str,
    rel_type: &str,
    fallback: &str,
) -> (r: String)
    requires
        old(session).wf(),
    ensures
        final(session).continues(old(session)),
        forall|script: Seq<Query<P>>| #[trigger]
            package::extends(script, final(session).asked@) ==> typed_path(
                script,
                rels@,
                base@,
                rel_type@,
                fallback@,
                old(session).asked@,
            ) == (Located { path: r@, asked: final(session).asked@ }),
{
    let ghost was = session.asked@;
    let reference: &str = match first_of_type(rels, rel_type) {
        Some(t) => t,
        None => fallback,
    };
    let first: Option<String> = session.resolve(base, reference);
    let ghost mid = session.asked@;
    let (path, again): (String, bool) = match first {
        Some(p) => (p, false),
        None => match session.resolve(base, fallback) {
            Some(p) => (p, true),
            None => (fallback.to_owned(), true),
        },
    };
    assert forall|script: Seq<Query<P>>| #[trigger]
        package::extends(script, session.asked@) implies typed_path(
        script,
        rels@,
        base@,
        rel_type@,
        fallback@,
        was,
    ) == (Located { path: path@, asked: session.asked@ }) by {
        assert(script[was.len() as int] == session.asked@[was.len() as int]);
        if again {
            assert(script[mid.len() as int] == session.asked@[mid.len() as int]);
        }
    }
    path
}

/// Whether a step ended with that error, after those questions.
pub open spec fn led_to<T, P: WordPackage>(
    outcome: Result<T, Halt<P>>,
    error: ConvertError,
    asked: Seq<Query<P>>,
) -> bool {
    outcome matches Err(h) && h.failure.is_reported_by(error) && h.asked == asked
}

fn read_linked<P: WordPackage>(session: &mut Session<P>, pkg: &P, part: &str) -> (r: Result<
    Vec<Relationship>,
    ConvertError,
>)
    requires
        old(session).wf(),
    ensures
        final(session).continues(old(session)),
        forall|script: Seq<Query<P>>| #[trigger]
            package::extends(script, final(session).asked@) ==> {
                let l = linked_by(script, *pkg, part@, old(session).asked@);
                match r {
                    Ok(v) => l == Ok::<Linked<P>, Halt<P>>(
                        Linked { rels: v@, asked: final(session).asked@ },
                    ),
                    Err(e) => led_to(l, e, final(session).asked@),
                }
            },
{
    let ghost was = session.asked@;
    let r: Result<Vec<Relationship>, ConvertError> = session.read_rels(pkg, part);
    assert forall|script: Seq<Query<P>>| #[trigger]
        package::extends(script, session.asked@) implies {
        let l = linked_by(script, *pkg, part@, was);
        match r {
            Ok(v) => l == Ok::<Linked<P>, Halt<P>>(Linked { rels: v@, asked: session.asked@ }),
            Err(e) => led_to(l, e, session.asked@),
        }
    } by {
        assert(script[was.len() as int] == session.asked@[was.len() as int]);
    }
    r
}

fn read_links<P: WordPackage>(session: &mut Session<P>, pkg: &P, part: &str) -> (r: Result<
    Vec<Relationship>,
    ConvertError,
>)
    requires
        old(session).wf(),
    ensures
        final(session).continues(old(session)),
        forall|script: Seq<Query<P>>| #[trigger]
            package::extends(script, final(session).asked@) ==> {
                let l = links_of(script, *pkg, part@, old(session).asked@);
                match r {
                    Ok(v) => l == Ok::<Linked<P>, Halt<P>>(
                        Linked { rels: v@, asked: final(session).asked@ },
                    ),
                    Err(e) => led_to(l, e, final(session).asked@),
                }
            },
{
    let ghost was = session.asked@;
    let name: String = session.rels_part_for(part);
    let r: Result<Vec<Relationship>, ConvertError> = read_linked(session, pkg, name.as_str());
    assert forall|script: Seq<Query<P>>| #[trigger]
        package::extends(script, session.asked@) implies {
        let l = links_of(script, *pkg, part@, was);
        match r {
            Ok(v) => l == Ok::<Linked<P>, Halt<P>>(Linked { rels: v@, asked: session.asked@ }),
            Err(e) => led_to(l, e, session.asked@),
        }
    } by {
        assert(script[was.len() as int] == session.asked@[was.len() as int]);
    }
    r
}

/// An opened package, its main part and the relationships of that.
struct Main<P: WordPackage> {
    pkg: P,
    part: String,
    rels: Vec<Relationship>,
}

/// The main part as it was opened, with those questions.
spec fn opened_as<P: WordPackage>(m: Main<P>, asked: Seq<Query<P>>) -> Opened<P> {
    Opened { pkg: m.pkg, main: m.part@, rels: m.rels@, asked }
}

fn open_main<P: WordPackage>(session: &mut Session<P>, bytes: &[u8]) -> (r: Result<
    Main<P>,
    ConvertError,
>)
    requires
        old(session).wf(),
        old(session).asked@ == Seq::<Query<P>>::empty(),
    ensures
        final(session).continues(old(session)),
        forall|script: Seq<Query<P>>| #[trigger]
            package::extends(script, final(session).asked@) ==> {
                let o = opened(script, bytes@);
                match r {
                    Ok(m) => o == Ok::<Opened<P>, Halt<P>>(
                        opened_as(m, final(session).asked@),
                    ),
                    Err(e) => led_to(o, e, final(session).asked@),
                }
            },
{
    let pkg: P = match session.open(bytes) {
        Err(e) => {
            let ghost asked = session.asked@;
            let found: Option<ConvertError> = session.probe_ole(bytes);
            let error: ConvertError = match found {
                Some(f) => f,
                None => e,
            };
            assert forall|script: Seq<Query<P>>| #[trigger]
                package::extends(script, session.asked@) implies led_to(
                opened(script, bytes@),
                error,
                session.asked@,
            ) by {
                assert(script[0] == session.asked@[0]);
                assert(script[asked.len() as int] == session.asked@[asked.len() as int]);
            }
            return Err(error);
        },
        Ok(pkg) => pkg,
    };
    let ghost asked = session.asked@;
    let root: Result<Vec<Relationship>, ConvertError> = read_linked(session, &pkg, "_rels/.rels");
    let ghost rooted = session.asked@;
    let root_rels: Vec<Relationship> = match root {
        Ok(v) => v,
        Err(e) => {
            assert forall|script: Seq<Query<P>>| #[trigger]
                package::extends(script, session.asked@) implies led_to(
                opened(script, bytes@),
                e,
                session.asked@,
            ) by {
                assert(script[0] == session.asked@[0]);
            }
            return Err(e);
        },
    };
    let ghost root_view = root_rels@;
    let mut part: Option<String> = None;
    let target: Option<&str> = first_of_type(&root_rels, OFFICE_DOCUMENT);
    if let Some(t) = target {
        part = session.resolve("", t);
    }
    let main: String = match part {
        Some(p) => p,
        None => "word/document.xml".to_owned(),
    };
    let ghost located = session.asked@;
    assert forall|script: Seq<Query<P>>| #[trigger]
        package::extends(script, located) implies main_path(script, root_view, rooted) == (Located {
        path: main@,
        asked: located,
    }) by {
        if target is Some {
            assert(script[rooted.len() as int] == located[rooted.len() as int]);
        }
    }
    let links: Result<Vec<Relationship>, ConvertError> = read_links(session, &pkg, main.as_str());
    let ghost done = session.asked@;
    assert forall|script: Seq<Query<P>>| #[trigger] package::extends(script, done) implies {
        let o = opened(script, bytes@);
        match links {
            Ok(v) => o == Ok::<Opened<P>, Halt<P>>(
                Opened { pkg, main: main@, rels: v@, asked: done },
            ),
            Err(e) => led_to(o, e, done),
        }
    } by {
        assert(package::extends(script, located));
        assert(package::extends(script, rooted));
        assert(script[0] == done[0]);
    }
    match links {
        Ok(rels) => Ok(Main { pkg, part: main, rels }),
        Err(e) => Err(e),
    }
}

fn read_style_part<P: WordPackage>(session: &mut Session<P>, m: &Main<P>) -> (r: Result<
    P::Styles,
    ConvertError,
>)
    requires
        old(session).wf(),
    ensures
        final(session).continues(old(session)),
        forall|script: Seq<Query<P>>| #[trigger]
            package::extends(script, final(session).asked@) ==> {
                let s = styled(script, opened_as(*m, old(session).asked@));
                match r {
                    Ok(styles) => s == Ok::<Styled<P>, Halt<P>>(
                        Styled { styles, asked: final(session).asked@ },
                    ),
                    Err(e) => led_to(s, e, final(session).asked@),
                }
            },
{
    let ghost was = opened_as(*m, session.asked@);
    let path: String = typed_part_path(
        session,
        &m.rels,
        m.part.as_str(),
        STYLES,
        "styles.xml",
    );
    let ghost located = session.asked@;
    let tree: Result<Option<Element>, ConvertError> = session.optional_xml_part(
        &m.pkg,
        path.as_str(),
    );
    let ghost looked = session.asked@;
    let r: Result<P::Styles, ConvertError> = match tree {
        Err(e) => Err(e),
        Ok(t) => {
            let root: Option<&Element> = match &t {
                Some(t) => t.find(W, "styles"),
                None => None,
            };
            Ok(session.read_styles(root))
        },
    };
    assert forall|script: Seq<Query<P>>| #[trigger]
        package::extends(script, session.asked@) implies {
        let s = styled(script, was);
        match r {
            Ok(styles) => s == Ok::<Styled<P>, Halt<P>>(
                Styled { styles, asked: session.asked@ },
            ),
            Err(e) => led_to(s, e, session.asked@),
        }
    } by {
        assert(package::extends(script, located));
        assert(script[located.len() as int] == session.asked@[located.len() as int]);
        if r is Ok {
            assert(script[looked.len() as int] == session.asked@[looked.len() as int]);
        }
    }
    r
}

fn read_numbering_part<P: WordPackage>(
    session: &mut Session<P>,
    m: &Main<P>,
    styles: &P::Styles,
) -> (r: Result<P::Numbering, ConvertError>)
    requires
        old(session).wf(),
    ensures
        final(session).continues(old(session)),
        forall|script: Seq<Query<P>>, before: Seq<Query<P>>|
            #![trigger package::extends(script, final(session).asked@), opened_as(*m, before)]
            package::extends(script, final(session).asked@) ==> {
                let n = numbered(
                    script,
                    opened_as(*m, before),
                    Styled { styles: *styles, asked: old(session).asked@ },
                );
                match r {
                    Ok(numbering) => n == Ok::<Numbered<P>, Halt<P>>(
                        Numbered { numbering, asked: final(session).asked@ },
                    ),
                    Err(e) => led_to(n, e, final(session).asked@),
                }
            },
{
    let ghost was = Styled::<P> { styles: *styles, asked: session.asked@ };
    let path: String = typed_part_path(
        session,
        &m.rels,
        m.part.as_str(),
        NUMBERING,
        "numbering.xml",
    );
    let ghost located = session.asked@;
    let tree: Result<Option<Element>, ConvertError> = session.optional_xml_part(
        &m.pkg,
        path.as_str(),
    );
    let ghost looked = session.asked@;
    let ghost found = tree is Ok;
    let r: Result<P::Numbering, ConvertError> = match tree {
        Err(e) => Err(e),
        Ok(t) => {
            let root: Option<&Element> = match &t {
                Some(t) => t.find(W, "numbering"),
                None => None,
            };
            match root {
                Some(root) => session.read_numbering(root, styles),
                None => Ok(session.no_numbering()),
            }
        },
    };
    assert forall|script: Seq<Query<P>>, before: Seq<Query<P>>|
        #![trigger package::extends(script, session.asked@), opened_as(*m, before)]
        package::extends(script, session.asked@) implies {
        let n = numbered(script, opened_as(*m, before), was);
        match r {
            Ok(numbering) => n == Ok::<Numbered<P>, Halt<P>>(
                Numbered { numbering, asked: session.asked@ },
            ),
            Err(e) => led_to(n, e, session.asked@),
        }
    } by {
        assert(package::extends(script, located));
        assert(script[located.len() as int] == session.asked@[located.len() as int]);
        if found {
            assert(script[looked.len() as int] == session.asked@[looked.len() as int]);
        }
    }
    r
}

/// What all content of a document is resolved against.
struct Definitions<P: WordPackage> {
    styles: P::Styles,
    numbering: P::Numbering,
}

/// A package with the definitions in it.
spec fn setting<P: WordPackage>(pkg: P, d: Definitions<P>) -> Setting<P> {
    Setting { pkg, styles: d.styles, numbering: d.numbering }
}

fn read_contents<P: WordPackage>(
    session: &mut Session<P>,
    pkg: &P,
    d: &Definitions<P>,
    elem: &Element,
    rels: &Vec<Relationship>,
    part: &str,
    seen: Seen<P::Counters>,
) -> (r: Result<Content<P::Counters>, ConvertError>)
    requires
        old(session).wf(),
    ensures
        final(session).continues(old(session)),
        forall|script: Seq<Query<P>>| #[trigger]
            package::extends(script, final(session).asked@) ==> {
                let c = contents(
                    script,
                    setting(*pkg, *d),
                    *elem,
                    rels@,
                    part@,
                    seen@,
                    old(session).asked@,
                );
                match r {
                    Ok(v) => c == Ok::<Contents<P>, Halt<P>>(
                        Contents {
                            blocks: model::block_views(v.blocks@),
                            seen: v.seen@,
                            asked: final(session).asked@,
                        },
                    ),
                    Err(e) => led_to(c, e, final(session).asked@),
                }
            },
{
    let ghost was = session.asked@;
    let ghost given = seen@;
    let r: Result<Content<P::Counters>, ConvertError> = session.read_blocks(
        pkg,
        elem,
        rels,
        part,
        &d.styles,
        &d.numbering,
        seen,
    );
    assert forall|script: Seq<Query<P>>| #[trigger]
        package::extends(script, session.asked@) implies {
        let c = contents(script, setting(*pkg, *d), *elem, rels@, part@, given, was);
        match r {
            Ok(v) => c == Ok::<Contents<P>, Halt<P>>(
                Contents {
                    blocks: model::block_views(v.blocks@),
                    seen: v.seen@,
                    asked: session.asked@,
                },
            ),
            Err(e) => led_to(c, e, session.asked@),
        }
    } by {
        assert(script[was.len() as int] == session.asked@[was.len() as int]);
    }
    r
}

/// The id of a note with content of its own.
fn note_id(note: &Element, kind: NoteKind) -> (r: Option<String>)
    ensures
        model::text_of(r) == id_of(*note, kind),
{
    if let Some(t) = note.attr(W, "type") {
        if same_text(t, "separator") || same_text(t, "continuationSeparator") || same_text(
            t,
            "continuationNotice",
        ) {
            return None;
        }
    }
    match note.attr(W, "id") {
        None => None,
        Some(id) => {
            let mut text: Vec<char> = chars_of(
                match kind {
                    NoteKind::Footnote => "fn",
                    NoteKind::Endnote => "en",
                },
            );
            let mut own: Vec<char> = chars_of(id);
            text.append(&mut own);
            Some(string_of(&text))
        },
    }
}

proof fn lemma_notes_halted<P: WordPackage>(
    script: Seq<Query<P>>,
    with: Setting<P>,
    root: Element,
    kind: NoteKind,
    rels: Seq<Relationship>,
    part: Seq<char>,
    n: int,
    m: int,
    c: Collected<P>,
)
    requires
        0 < n <= m,
        notes_upto(script, with, root, kind, rels, part, n, c) is Err,
    ensures
        notes_upto(script, with, root, kind, rels, part, m, c) == notes_upto(
            script,
            with,
            root,
            kind,
            rels,
            part,
            n,
            c,
        ),
    decreases m,
{
    if n < m {
        lemma_notes_halted(script, with, root, kind, rels, part, n, m - 1, c);
    }
}

proof fn lemma_note_views_push(s: Seq<Note>, n: Note)
    ensures
        note_views(s.push(n)) == note_views(s).push(n@),
{
    assert(note_views(s.push(n)) =~= note_views(s).push(n@));
}

/// The notes among the children of a root, and what they leave.
fn read_notes<P: WordPackage>(
    session: &mut Session<P>,
    pkg: &P,
    d: &Definitions<P>,
    root: &Element,
    kind: NoteKind,
    rels: &Vec<Relationship>,
    part: &str,
    notes: &mut Vec<Note>,
    seen: Seen<P::Counters>,
) -> (r: Result<Seen<P::Counters>, ConvertError>)
    requires
        old(session).wf(),
    ensures
        final(session).continues(old(session)),
        forall|script: Seq<Query<P>>| #[trigger]
            package::extends(script, final(session).asked@) ==> {
                let all = notes_upto(
                    script,
                    setting(*pkg, *d),
                    *root,
                    kind,
                    rels@,
                    part@,
                    root.children@.len() as int,
                    Collected {
                        notes: note_views(old(notes)@),
                        seen: seen@,
                        asked: old(session).asked@,
                    },
                );
                match r {
                    Ok(left) => all == Ok::<Collected<P>, Halt<P>>(
                        Collected {
                            notes: note_views(final(notes)@),
                            seen: left@,
                            asked: final(session).asked@,
                        },
                    ),
                    Err(e) => led_to(all, e, final(session).asked@),
                }
            },
{
    let ghost with = setting(*pkg, *d);
    let ghost was = Collected::<P> {
        notes: note_views(notes@),
        seen: seen@,
        asked: session.asked@,
    };
    let mut left: Seen<P::Counters> = seen;
    let mut i: usize = 0;
    while i < root.children.len()
        invariant
            i <= root.children@.len(),
            session.continues(old(session)),
            with == setting(*pkg, *d),
            was == (Collected::<P> {
                notes: note_views(old(notes)@),
                seen: seen@,
                asked: old(session).asked@,
            }),
            forall|script: Seq<Query<P>>| #[trigger]
                package::extends(script, session.asked@) ==> notes_upto(
                    script,
                    with,
                    *root,
                    kind,
                    rels@,
                    part@,
                    i as int,
                    was,
                ) == Ok::<Collected<P>, Halt<P>>(
                    Collected { notes: note_views(notes@), seen: left@, asked: session.asked@ },
                ),
        decreases root.children@.len() - i,
    {
        let ghost mid = session.asked@;
        let ghost before = left@;
        let mut id: Option<String> = None;
        let mut note: &Element = root;
        if let Node::Elem(e) = &root.children[i] {
            let name: &str = match kind {
                NoteKind::Footnote => "footnote",
                NoteKind::Endnote => "endnote",
            };
            if same_text(e.ns.as_str(), W) && same_text(e.local.as_str(), name) {
                id = note_id(e, kind);
                note = e;
            }
        }
        let ghost found = model::text_of(id);
        let ghost elem = *note;
        assert(root.children@[i as int].is_named(W@, note_name(kind)) && id_of(
            root.children@[i as int]->Elem_0,
            kind,
        ) is Some ==> found == id_of(root.children@[i as int]->Elem_0, kind) && elem
            == root.children@[i as int]->Elem_0);
        if let Some(id) = id {
            match read_contents(session, pkg, d, note, rels, part, left) {
                Ok(content) => {
                    let note = Note { id, kind, blocks: content.blocks };
                    proof {
                        lemma_note_views_push(notes@, note);
                    }
                    notes.push(note);
                    left = content.seen;
                },
                Err(e) => {
                    proof {
                        assert forall|script: Seq<Query<P>>| #[trigger]
                            package::extends(script, session.asked@) implies led_to(
                            notes_upto(
                                script,
                                with,
                                *root,
                                kind,
                                rels@,
                                part@,
                                root.children@.len() as int,
                                was,
                            ),
                            e,
                            session.asked@,
                        ) by {
                            assert(package::extends(script, mid));
                            assert(led_to(
                                notes_upto(script, with, *root, kind, rels@, part@, i + 1, was),
                                e,
                                session.asked@,
                            ));
                            lemma_notes_halted(
                                script,
                                with,
                                *root,
                                kind,
                                rels@,
                                part@,
                                i + 1,
                                root.children@.len() as int,
                                was,
                            );
                        }
                    }
                    return Err(e);
                },
            }
        }
        assert forall|script: Seq<Query<P>>| #[trigger]
            package::extends(script, session.asked@) implies notes_upto(
            script,
            with,
            *root,
            kind,
            rels@,
            part@,
            i + 1,
            was,
        ) == Ok::<Collected<P>, Halt<P>>(
            Collected { notes: note_views(notes@), seen: left@, asked: session.asked@ },
        ) by {
            assert(package::extends(script, mid));
        }
        i += 1;
    }
    Ok(left)
}

/// The notes of a part, and what they leave.
fn read_note_part<P: WordPackage>(
    session: &mut Session<P>,
    pkg: &P,
    d: &Definitions<P>,
    part: &str,
    kind: NoteKind,
    notes: &mut Vec<Note>,
    seen: Seen<P::Counters>,
) -> (r: Result<Seen<P::Counters>, ConvertError>)
    requires
        old(session).wf(),
    ensures
        final(session).continues(old(session)),
        forall|script: Seq<Query<P>>| #[trigger]
            package::extends(script, final(session).asked@) ==> {
                let all = notes_in(
                    script,
                    setting(*pkg, *d),
                    part@,
                    kind,
                    Collected {
                        notes: note_views(old(notes)@),
                        seen: seen@,
                        asked: old(session).asked@,
                    },
                );
                match r {
                    Ok(left) => all == Ok::<Collected<P>, Halt<P>>(
                        Collected {
                            notes: note_views(final(notes)@),
                            seen: left@,
                            asked: final(session).asked@,
                        },
                    ),
                    Err(e) => led_to(all, e, final(session).asked@),
                }
            },
{
    let ghost was = Collected::<P> {
        notes: note_views(notes@),
        seen: seen@,
        asked: session.asked@,
    };
    let tree: Result<Option<Element>, ConvertError> = session.optional_xml_part(pkg, part);
    let ghost looked = session.asked@;
    let ghost mut linked = looked;
    let r: Result<Seen<P::Counters>, ConvertError> = match tree {
        Err(e) => Err(e),
        Ok(t) => {
            let name: &str = match kind {
                NoteKind::Footnote => "footnotes",
                NoteKind::Endnote => "endnotes",
            };
            let root: Option<&Element> = match &t {
                Some(t) => t.find(W, name),
                None => None,
            };
            match root {
                None => Ok(seen),
                Some(root) => match read_links(session, pkg, part) {
                    Err(e) => Err(e),
                    Ok(rels) => {
                        proof {
                            linked = session.asked@;
                        }
                        read_notes(session, pkg, d, root, kind, &rels, part, notes, seen)
                    },
                },
            }
        },
    };
    assert forall|script: Seq<Query<P>>| #[trigger]
        package::extends(script, session.asked@) implies {
        let all = notes_in(script, setting(*pkg, *d), part@, kind, was);
        match r {
            Ok(left) => all == Ok::<Collected<P>, Halt<P>>(
                Collected { notes: note_views(notes@), seen: left@, asked: session.asked@ },
            ),
            Err(e) => led_to(all, e, session.asked@),
        }
    } by {
        assert(script[was.asked.len() as int] == session.asked@[was.asked.len() as int]);
        assert(package::extends(script, looked));
        assert(package::extends(script, linked));
    }
    r
}

/// Pruning notes prunes their views.
proof fn lemma_pruned_views(s: Seq<Note>, dropped: Set<String>, visible: Set<String>)
    ensures
        note_views(notes::pruned(s, dropped, visible)) == kept_notes(
            note_views(s),
            dropped,
            visible,
        ),
    decreases s.len(),
{
    reveal_with_fuel(Seq::filter, 2);
    if s.len() > 0 {
        let rest = s.drop_last();
        lemma_pruned_views(rest, dropped, visible);
        assert(note_views(s).drop_last() =~= note_views(rest));
        lemma_note_views_push(notes::pruned(rest, dropped, visible), s.last());
    } else {
        assert(note_views(notes::pruned(s, dropped, visible)) =~= kept_notes(
            note_views(s),
            dropped,
            visible,
        ));
    }
}

#[verifier::rlimit(30)]
fn read_document_content<P: WordPackage>(
    session: &mut Session<P>,
    m: &Main<P>,
    d: &Definitions<P>,
) -> (r: Result<Document, ConvertError>)
    requires
        old(session).wf(),
    ensures
        final(session).continues(old(session)),
        forall|script: Seq<Query<P>>, before: Seq<Query<P>>|
            #![trigger package::extends(script, final(session).asked@), opened_as(*m, before)]
            package::extends(script, final(session).asked@) ==> {
                let c = read_content(
                    script,
                    opened_as(*m, before),
                    setting(m.pkg, *d),
                    old(session).asked@,
                );
                match r {
                    Ok(d) => c == Ok::<Finished<P>, Halt<P>>(
                        Finished { document: d@, asked: final(session).asked@ },
                    ),
                    Err(e) => led_to(c, e, final(session).asked@),
                }
            },
{
    let ghost was = session.asked@;
    let ghost with = setting(m.pkg, *d);
    let doc_tree: Result<Element, ConvertError> = session.required_xml_part(
        &m.pkg,
        m.part.as_str(),
    );
    let ghost bodied = session.asked@;
    let tree: Element = match doc_tree {
        Err(e) => {
            assert forall|script: Seq<Query<P>>, before: Seq<Query<P>>|
                #![trigger package::extends(script, session.asked@), opened_as(*m, before)]
                package::extends(script, session.asked@) implies led_to(
                read_content(script, opened_as(*m, before), with, was),
                e,
                session.asked@,
            ) by {
                assert(script[was.len() as int] == bodied[was.len() as int]);
            }
            return Err(e);
        },
        Ok(t) => t,
    };
    let found: Option<&Element> = match tree.find(W, "document") {
        Some(d) => d.find(W, "body"),
        None => None,
    };
    let body: &Element = match found {
        Some(b) => b,
        None => {
            let e: ConvertError = ConvertError::malformed_part(
                m.part.clone(),
                "no document body",
            );
            assert forall|script: Seq<Query<P>>, before: Seq<Query<P>>|
                #![trigger package::extends(script, session.asked@), opened_as(*m, before)]
                package::extends(script, session.asked@) implies led_to(
                read_content(script, opened_as(*m, before), with, was),
                e,
                session.asked@,
            ) by {
                assert(script[was.len() as int] == bodied[was.len() as int]);
            }
            return Err(e);
        },
    };
    let counters: P::Counters = session.new_counters();
    let ghost first_counters = counters;
    let ghost counted = session.asked@;
    let footnotes_part: String = typed_part_path(
        session,
        &m.rels,
        m.part.as_str(),
        FOOTNOTES,
        "footnotes.xml",
    );
    let ghost footed = session.asked@;
    let endnotes_part: String = typed_part_path(
        session,
        &m.rels,
        m.part.as_str(),
        ENDNOTES,
        "endnotes.xml",
    );
    let ghost ended = session.asked@;
    assert forall|script: Seq<Query<P>>, before: Seq<Query<P>>|
        #![trigger package::extends(script, ended), opened_as(*m, before)]
        package::extends(script, ended) implies {
        let o = opened_as(*m, before);
        &&& body_of(script, o, was) == Ok::<Body<P>, Halt<P>>(
            Body { body: *body, asked: bodied },
        )
        &&& reply(script, bodied)->counters == first_counters
        &&& typed_path(script, o.rels, o.main, FOOTNOTES@, "footnotes.xml"@, counted) == (
        Located { path: footnotes_part@, asked: footed })
        &&& typed_path(script, o.rels, o.main, ENDNOTES@, "endnotes.xml"@, footed) == (Located {
            path: endnotes_part@,
            asked: ended,
        })
    } by {
        assert(package::extends(script, footed));
        assert(package::extends(script, counted));
        assert(package::extends(script, bodied));
        assert(script[was.len() as int] == bodied[was.len() as int]);
        assert(script[bodied.len() as int] == counted[bodied.len() as int]);
    }
    let main: Result<Content<P::Counters>, ConvertError> = read_contents(
        session,
        &m.pkg,
        d,
        body,
        &m.rels,
        m.part.as_str(),
        Seen::none(counters),
    );
    let ghost mained = session.asked@;
    let main: Content<P::Counters> = match main {
        Err(e) => {
            assert forall|script: Seq<Query<P>>, before: Seq<Query<P>>|
                #![trigger package::extends(script, session.asked@), opened_as(*m, before)]
                package::extends(script, session.asked@) implies led_to(
                read_content(script, opened_as(*m, before), with, was),
                e,
                session.asked@,
            ) by {
                assert(package::extends(script, ended));
            }
            return Err(e);
        },
        Ok(c) => c,
    };
    let blocks: Vec<Block> = main.blocks;
    let ghost bv = model::block_views(blocks@);
    let mut notes: Vec<Note> = Vec::new();
    assert(note_views(notes@) =~= Seq::empty());
    let first: Result<Seen<P::Counters>, ConvertError> = read_note_part(
        session,
        &m.pkg,
        d,
        footnotes_part.as_str(),
        NoteKind::Footnote,
        &mut notes,
        main.seen,
    );
    let ghost noted = session.asked@;
    let seen: Seen<P::Counters> = match first {
        Err(e) => {
            assert forall|script: Seq<Query<P>>, before: Seq<Query<P>>|
                #![trigger package::extends(script, session.asked@), opened_as(*m, before)]
                package::extends(script, session.asked@) implies led_to(
                read_content(script, opened_as(*m, before), with, was),
                e,
                session.asked@,
            ) by {
                assert(package::extends(script, mained));
                assert(package::extends(script, ended));
            }
            return Err(e);
        },
        Ok(seen) => seen,
    };
    let second: Result<Seen<P::Counters>, ConvertError> = read_note_part(
        session,
        &m.pkg,
        d,
        endnotes_part.as_str(),
        NoteKind::Endnote,
        &mut notes,
        seen,
    );
    let seen: Seen<P::Counters> = match second {
        Err(e) => {
            assert forall|script: Seq<Query<P>>, before: Seq<Query<P>>|
                #![trigger package::extends(script, session.asked@), opened_as(*m, before)]
                package::extends(script, session.asked@) implies led_to(
                read_content(script, opened_as(*m, before), with, was),
                e,
                session.asked@,
            ) by {
                assert(package::extends(script, noted));
                assert(package::extends(script, mained));
                assert(package::extends(script, ended));
            }
            return Err(e);
        },
        Ok(seen) => seen,
    };
    let ghost all = notes@;
    prune_hidden_notes(&mut notes, &seen.dropped, &seen.visible);
    let ghost left = seen@;
    let doc = Document { blocks, notes, assets: seen.assets };
    proof {
        lemma_pruned_views(all, left.dropped, left.visible);
        let c = Collected::<P> { notes: note_views(all), seen: left, asked: session.asked@ };
        assert(finished(Gathered { blocks: bv, collected: c }) == (Finished::<P> {
            document: doc@,
            asked: session.asked@,
        }));
        assert forall|script: Seq<Query<P>>, before: Seq<Query<P>>|
            #![trigger package::extends(script, session.asked@), opened_as(*m, before)]
            package::extends(script, session.asked@) implies read_content(
            script,
            opened_as(*m, before),
            with,
            was,
        ) == Ok::<Finished<P>, Halt<P>>(Finished { document: doc@, asked: session.asked@ }) by {
            assert(package::extends(script, noted));
            assert(package::extends(script, mained));
            assert(package::extends(script, ended));
        }
    }
    Ok(doc)
}

/// Whether a package that was asked `asked`, and gave the answers in it,
/// comes to `r`.
pub open spec fn reads<P: WordPackage>(
    asked: Seq<Query<P>>,
    bytes: Seq<u8>,
    r: Result<Document, ConvertError>,
) -> bool {
    match r {
        Ok(d) => read_document(asked, bytes) == Ok::<Finished<P>, Halt<P>>(
            Finished { document: d@, asked },
        ),
        Err(e) => led_to(read_document(asked, bytes), e, asked),
    }
}

/// Convert a package. Its parts are found by the typed relationships of the
/// package and of its main part, with conventional names as the fallback for
/// packages with missing or unusable relationships.
///
/// Styles, numbering and what content leaves for the content after it go from
/// one question to the next as plain values, so that the answers fix the
/// document. Which answers a package gives is its own.
#[verifier::rlimit(30)]
pub fn parse<P: WordPackage>(bytes: &[u8]) -> (r: Result<Document, ConvertError>)
    ensures
        exists|asked: Seq<Query<P>>| #[trigger]
            package::all_told(asked) && reads(asked, bytes@, r),
{
    let mut session: Session<P> = Session::new();
    let main: Result<Main<P>, ConvertError> = open_main(&mut session, bytes);
    let ghost s1 = session.asked@;
    let m: Main<P> = match main {
        Err(e) => {
            proof {
                assert(package::extends(s1, s1));
                assert(package::all_told(s1) && reads(s1, bytes@, Err(e)));
            }
            return Err(e);
        },
        Ok(m) => m,
    };
    let styles: Result<P::Styles, ConvertError> = read_style_part(&mut session, &m);
    let ghost s2 = session.asked@;
    let styles: P::Styles = match styles {
        Err(e) => {
            proof {
                assert(package::extends(s2, s2));
                assert(package::extends(s2, s1));
                assert(package::all_told(s2) && reads(s2, bytes@, Err(e)));
            }
            return Err(e);
        },
        Ok(s) => s,
    };
    let numbering: Result<P::Numbering, ConvertError> = read_numbering_part(
        &mut session,
        &m,
        &styles,
    );
    let ghost s3 = session.asked@;
    let numbering: P::Numbering = match numbering {
        Err(e) => {
            proof {
                assert(package::extends(s3, s3));
                assert(package::extends(s3, s2));
                assert(package::extends(s3, s1));
                assert(opened(s3, bytes@) == Ok::<Opened<P>, Halt<P>>(opened_as(m, s1)));
                assert(package::all_told(s3) && reads(s3, bytes@, Err(e)));
            }
            return Err(e);
        },
        Ok(n) => n,
    };
    let d = Definitions { styles, numbering };
    let r: Result<Document, ConvertError> = read_document_content(&mut session, &m, &d);
    proof {
        let s4 = session.asked@;
        assert(package::extends(s4, s4));
        assert(package::extends(s4, s3));
        assert(package::extends(s4, s2));
        assert(package::extends(s4, s1));
        assert(opened(s4, bytes@) == Ok::<Opened<P>, Halt<P>>(opened_as(m, s1)));
        assert(numbered(s4, opened_as(m, s1), Styled { styles: d.styles, asked: s2 }) == Ok::<
            Numbered<P>,
            Halt<P>,
        >(Numbered { numbering: d.numbering, asked: s3 }));
        assert(read_document(s4, bytes@) == read_content(
            s4,
            opened_as(m, s1),
            setting(m.pkg, d),
            s3,
        ));
        assert(package::all_told(s4) && reads(s4, bytes@, r));
    }
    r
}

} // verus!
