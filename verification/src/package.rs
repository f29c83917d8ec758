//! What a Word package and its parts are asked for, and the record of it.

use crate::error::ConvertError;
use crate::model::Block;
use crate::xml::Element;
use std::collections::HashSet;
use vstd::prelude::*;

verus! {

/// A typed link from one part of a package to another, or out of it.
#[derive(Debug)]
pub struct Relationship {
    pub rel_type: String,
    pub target: String,
}

/// A file that a document carries along.
#[derive(Debug)]
pub struct Asset {
    pub name: String,
    pub bytes: Vec<u8>,
}

/// What reading content has come across so far. Each piece of content is read
/// with what the pieces before it have left.
pub struct Seen<C> {
    /// Where the numbering of lists stands.
    pub counters: C,
    /// The files that the content refers to.
    pub assets: Vec<Asset>,
    /// The ids of the note references that were dropped with hidden content.
    pub dropped: HashSet<String>,
    /// The ids of the note references that were not.
    pub visible: HashSet<String>,
}

/// A [`Seen`] as its contents.
pub struct SeenView<C> {
    pub counters: C,
    pub assets: Seq<Asset>,
    pub dropped: Set<String>,
    pub visible: Set<String>,
}

impl<C> View for Seen<C> {
    type V = SeenView<C>;

    open spec fn view(&self) -> SeenView<C> {
        SeenView {
            counters: self.counters,
            assets: self.assets@,
            dropped: self.dropped@,
            visible: self.visible@,
        }
    }
}

impl<C> SeenView<C> {
    /// Nothing yet.
    pub open spec fn none(counters: C) -> SeenView<C> {
        SeenView {
            counters,
            assets: Seq::empty(),
            dropped: Set::empty(),
            visible: Set::empty(),
        }
    }
}

impl<C> Seen<C> {
    /// Nothing yet.
    pub fn none(counters: C) -> (r: Seen<C>)
        ensures
            r@ == SeenView::none(counters),
    {
        Seen { counters, assets: Vec::new(), dropped: HashSet::new(), visible: HashSet::new() }
    }
}

/// What a body or a note holds, and what was come across once it is read.
pub struct Content<C> {
    pub blocks: Vec<Block>,
    pub seen: Seen<C>,
}

/// An opened package and the readers of its parts.
///
/// An answer is to follow from what is asked: whatever it depends on is handed
/// in with the question, and nothing is kept from one question to the next.
/// No more than that is expected of it.
pub trait WordPackage: Sized {
    /// Style definitions, as content is resolved against them.
    type Styles;

    /// Numbering definitions, as content is resolved against them.
    type Numbering;

    /// Where the numbering of lists stands.
    type Counters;

    /// The package that those bytes are.
    fn open(bytes: &[u8]) -> Result<Self, ConvertError>;

    /// What bytes are that no package could be opened from, when they are
    /// recognized as an OLE file.
    fn probe_ole(bytes: &[u8]) -> Option<ConvertError>;

    /// The name of the part that holds a part's relationships.
    fn rels_part_for(part: &str) -> String;

    /// The name of the part that a reference from a part leads to.
    fn resolve(base: &str, reference: &str) -> Option<String>;

    /// The relationships that a part holds, none when it is not there.
    fn read_rels(&self, part: &str) -> Result<Vec<Relationship>, ConvertError>;

    /// The tree of an XML part, which need not be there.
    fn optional_xml_part(&self, part: &str) -> Result<Option<Element>, ConvertError>;

    /// The tree of an XML part, which has to be there.
    fn required_xml_part(&self, part: &str) -> Result<Element, ConvertError>;

    /// The style definitions under that root, if there is one.
    fn read_styles(root: Option<&Element>) -> Self::Styles;

    /// The numbering definitions under that root. Styles refer to them.
    fn read_numbering(root: &Element, styles: &Self::Styles) -> Result<
        Self::Numbering,
        ConvertError,
    >;

    /// The numbering definitions of a document without any.
    fn no_numbering() -> Self::Numbering;

    /// Where the numbering of lists stands before any.
    fn new_counters() -> Self::Counters;

    /// The blocks of a body or of a note, which stands in that part with
    /// those relationships, resolved against those definitions and read after
    /// what has been seen.
    fn read_blocks(
        &self,
        elem: &Element,
        rels: &Vec<Relationship>,
        part: &str,
        styles: &Self::Styles,
        numbering: &Self::Numbering,
        seen: Seen<Self::Counters>,
    ) -> Result<Content<Self::Counters>, ConvertError>;
}

/// One question put to a package, with the answer that came back.
pub enum Query<P: WordPackage> {
    Open { bytes: Seq<u8>, opened: Result<P, ConvertError> },
    Probe { bytes: Seq<u8>, found: Option<ConvertError> },
    RelsPart { part: Seq<char>, name: String },
    Resolve { base: Seq<char>, reference: Seq<char>, path: Option<String> },
    Rels { pkg: P, part: Seq<char>, rels: Result<Vec<Relationship>, ConvertError> },
    Optional { pkg: P, part: Seq<char>, tree: Result<Option<Element>, ConvertError> },
    Required { pkg: P, part: Seq<char>, whole: Result<Element, ConvertError> },
    Styles { defined: Option<Element>, styles: P::Styles },
    Numbering { root: Element, against: P::Styles, read: Result<P::Numbering, ConvertError> },
    NoNumbering { numbering: P::Numbering },
    Counters { counters: P::Counters },
    Blocks { asked: Reading<P>, content: Result<Content<P::Counters>, ConvertError> },
}

/// A piece of content to read, and all that it is read with.
pub struct Reading<P: WordPackage> {
    pub pkg: P,
    pub elem: Element,
    pub rels: Seq<Relationship>,
    pub part: Seq<char>,
    pub styles: P::Styles,
    pub numbering: P::Numbering,
    pub seen: SeenView<P::Counters>,
}

/// Whether a package can have given that content for that piece.
pub open spec fn read_as<P: WordPackage>(
    a: Reading<P>,
    rels: Vec<Relationship>,
    part: &str,
    seen: Seen<P::Counters>,
    content: Result<Content<P::Counters>, ConvertError>,
) -> bool {
    call_ensures(
        P::read_blocks,
        (&a.pkg, &a.elem, &rels, part, &a.styles, &a.numbering, seen),
        content,
    )
}

/// Whether that answer can have been given to that question.
pub open spec fn told<P: WordPackage>(q: Query<P>) -> bool {
    match q {
        Query::Open { bytes, opened } => exists|b: &[u8]|
            b@ == bytes && #[trigger] call_ensures(P::open, (b,), opened),
        Query::Probe { bytes, found } => exists|b: &[u8]|
            b@ == bytes && #[trigger] call_ensures(P::probe_ole, (b,), found),
        Query::RelsPart { part, name } => exists|s: &str|
            s@ == part && #[trigger] call_ensures(P::rels_part_for, (s,), name),
        Query::Resolve { base, reference, path } => exists|b: &str, r: &str|
            b@ == base && r@ == reference && #[trigger] call_ensures(P::resolve, (b, r), path),
        Query::Rels { pkg, part, rels } => exists|s: &str|
            s@ == part && #[trigger] call_ensures(P::read_rels, (&pkg, s), rels),
        Query::Optional { pkg, part, tree } => exists|s: &str|
            s@ == part && #[trigger] call_ensures(P::optional_xml_part, (&pkg, s), tree),
        Query::Required { pkg, part, whole } => exists|s: &str|
            s@ == part && #[trigger] call_ensures(P::required_xml_part, (&pkg, s), whole),
        Query::Styles { defined, styles } => call_ensures(
            P::read_styles,
            (
                match defined {
                    Some(r) => Some(&r),
                    None => None,
                },
            ),
            styles,
        ),
        Query::Numbering { root, against, read } => call_ensures(
            P::read_numbering,
            (&root, &against),
            read,
        ),
        Query::NoNumbering { numbering } => call_ensures(P::no_numbering, (), numbering),
        Query::Counters { counters } => call_ensures(P::new_counters, (), counters),
        Query::Blocks { asked, content } => exists|
            v: Vec<Relationship>,
            s: &str,
            seen: Seen<P::Counters>,
        |
            v@ == asked.rels && s@ == asked.part && seen@ == asked.seen && #[trigger] read_as(
                asked,
                v,
                s,
                seen,
                content,
            ),
    }
}

/// Whether all those answers can have been given.
pub open spec fn all_told<P: WordPackage>(qs: Seq<Query<P>>) -> bool {
    forall|i: int| 0 <= i < qs.len() ==> told(#[trigger] qs[i])
}

/// One more answer.
pub proof fn lemma_told_more<P: WordPackage>(qs: Seq<Query<P>>, q: Query<P>)
    requires
        all_told(qs),
        told(q),
    ensures
        all_told(qs.push(q)),
{
    let more = qs.push(q);
    assert forall|i: int| 0 <= i < more.len() implies told(#[trigger] more[i]) by {
        if i < qs.len() {
            assert(more[i] == qs[i]);
        }
    }
}

/// Whether `script` starts with `qs`.
pub open spec fn extends<P: WordPackage>(script: Seq<Query<P>>, qs: Seq<Query<P>>) -> bool {
    qs.len() <= script.len() && forall|i: int|
        0 <= i < qs.len() ==> #[trigger] script[i] == qs[i]
}

/// What was asked so far.
pub struct Session<P: WordPackage> {
    pub asked: Ghost<Seq<Query<P>>>,
}

impl<P: WordPackage> Session<P> {
    /// Every recorded answer can have been given.
    pub open spec fn wf(&self) -> bool {
        all_told(self.asked@)
    }

    /// The same session, one question later.
    pub open spec fn after(&self, was: &Self, q: Query<P>) -> bool {
        &&& self.wf()
        &&& self.asked@ == was.asked@.push(q)
    }

    /// The same session, later.
    pub open spec fn continues(&self, was: &Self) -> bool {
        &&& self.wf()
        &&& extends(self.asked@, was.asked@)
    }

    /// A session in which nothing was asked yet.
    pub fn new() -> (r: Session<P>)
        ensures
            r.wf(),
            r.asked@ == Seq::<Query<P>>::empty(),
    {
        Session { asked: Ghost(Seq::empty()) }
    }

    pub fn open(&mut self, bytes: &[u8]) -> (r: Result<P, ConvertError>)
        requires
            old(self).wf(),
        ensures
            final(self).after(old(self), Query::Open { bytes: bytes@, opened: r }),
    {
        let r: Result<P, ConvertError> = P::open(bytes);
        proof {
            let q = Query::Open { bytes: bytes@, opened: r };
            assert(call_ensures(P::open, (bytes,), q->opened));
            assert(told(q));
            lemma_told_more(self.asked@, q);
            self.asked@ = self.asked@.push(q);
        }
        r
    }

    pub fn probe_ole(&mut self, bytes: &[u8]) -> (r: Option<ConvertError>)
        requires
            old(self).wf(),
        ensures
            final(self).after(old(self), Query::Probe { bytes: bytes@, found: r }),
    {
        let r: Option<ConvertError> = P::probe_ole(bytes);
        proof {
            let q = Query::Probe { bytes: bytes@, found: r };
            assert(call_ensures(P::probe_ole, (bytes,), q->found));
            assert(told(q));
            lemma_told_more(self.asked@, q);
            self.asked@ = self.asked@.push(q);
        }
        r
    }

    pub fn rels_part_for(&mut self, part: &str) -> (r: String)
        requires
            old(self).wf(),
        ensures
            final(self).after(old(self), Query::RelsPart { part: part@, name: r }),
    {
        let r: String = P::rels_part_for(part);
        proof {
            let q = Query::RelsPart { part: part@, name: r };
            assert(call_ensures(P::rels_part_for, (part,), q->name));
            assert(told(q));
            lemma_told_more(self.asked@, q);
            self.asked@ = self.asked@.push(q);
        }
        r
    }

    pub fn resolve(&mut self, base: &str, reference: &str) -> (r: Option<String>)
        requires
            old(self).wf(),
        ensures
            final(self).after(
                old(self),
                Query::Resolve { base: base@, reference: reference@, path: r },
            ),
    {
        let r: Option<String> = P::resolve(base, reference);
        proof {
            let q = Query::Resolve { base: base@, reference: reference@, path: r };
            assert(call_ensures(P::resolve, (base, reference), q->path));
            assert(told(q));
            lemma_told_more(self.asked@, q);
            self.asked@ = self.asked@.push(q);
        }
        r
    }

    pub fn read_rels(&mut self, pkg: &P, part: &str) -> (r: Result<
        Vec<Relationship>,
        ConvertError,
    >)
        requires
            old(self).wf(),
        ensures
            final(self).after(old(self), Query::Rels { pkg: *pkg, part: part@, rels: r }),
    {
        let r: Result<Vec<Relationship>, ConvertError> = pkg.read_rels(part);
        proof {
            let q = Query::Rels { pkg: *pkg, part: part@, rels: r };
            assert(call_ensures(P::read_rels, (&q->Rels_pkg, part), q->rels));
            assert(told(q));
            lemma_told_more(self.asked@, q);
            self.asked@ = self.asked@.push(q);
        }
        r
    }

    pub fn optional_xml_part(&mut self, pkg: &P, part: &str) -> (r: Result<
        Option<Element>,
        ConvertError,
    >)
        requires
            old(self).wf(),
        ensures
            final(self).after(old(self), Query::Optional { pkg: *pkg, part: part@, tree: r }),
    {
        let r: Result<Option<Element>, ConvertError> = pkg.optional_xml_part(part);
        proof {
            let q = Query::Optional { pkg: *pkg, part: part@, tree: r };
            assert(call_ensures(P::optional_xml_part, (&q->Optional_pkg, part), q->tree));
            assert(told(q));
            lemma_told_more(self.asked@, q);
            self.asked@ = self.asked@.push(q);
        }
        r
    }

    pub fn required_xml_part(&mut self, pkg: &P, part: &str) -> (r: Result<Element, ConvertError>)
        requires
            old(self).wf(),
        ensures
            final(self).after(old(self), Query::Required { pkg: *pkg, part: part@, whole: r }),
    {
        let r: Result<Element, ConvertError> = pkg.required_xml_part(part);
        proof {
            let q = Query::Required { pkg: *pkg, part: part@, whole: r };
            assert(call_ensures(P::required_xml_part, (&q->Required_pkg, part), q->whole));
            assert(told(q));
            lemma_told_more(self.asked@, q);
            self.asked@ = self.asked@.push(q);
        }
        r
    }

    pub fn read_styles(&mut self, root: Option<&Element>) -> (r: P::Styles)
        requires
            old(self).wf(),
        ensures
            final(self).after(old(self), Query::Styles { defined: owned(root), styles: r }),
    {
        let r: P::Styles = P::read_styles(root);
        proof {
            let q = Query::Styles { defined: owned(root), styles: r };
            assert(call_ensures(P::read_styles, (root,), r));
            assert(told(q));
            lemma_told_more(self.asked@, q);
            self.asked@ = self.asked@.push(q);
        }
        r
    }

    pub fn read_numbering(&mut self, root: &Element, styles: &P::Styles) -> (r: Result<
        P::Numbering,
        ConvertError,
    >)
        requires
            old(self).wf(),
        ensures
            final(self).after(
                old(self),
                Query::Numbering { root: *root, against: *styles, read: r },
            ),
    {
        let r: Result<P::Numbering, ConvertError> = P::read_numbering(root, styles);
        proof {
            let q = Query::Numbering { root: *root, against: *styles, read: r };
            assert(told(q));
            lemma_told_more(self.asked@, q);
            self.asked@ = self.asked@.push(q);
        }
        r
    }

    pub fn no_numbering(&mut self) -> (r: P::Numbering)
        requires
            old(self).wf(),
        ensures
            final(self).after(old(self), Query::NoNumbering { numbering: r }),
    {
        let r: P::Numbering = P::no_numbering();
        proof {
            let q = Query::NoNumbering { numbering: r };
            assert(told(q));
            lemma_told_more(self.asked@, q);
            self.asked@ = self.asked@.push(q);
        }
        r
    }

    pub fn new_counters(&mut self) -> (r: P::Counters)
        requires
            old(self).wf(),
        ensures
            final(self).after(old(self), Query::Counters { counters: r }),
    {
        let r: P::Counters = P::new_counters();
        proof {
            let q = Query::Counters { counters: r };
            assert(told(q));
            lemma_told_more(self.asked@, q);
            self.asked@ = self.asked@.push(q);
        }
        r
    }

    pub fn read_blocks(
        &mut self,
        pkg: &P,
        elem: &Element,
        rels: &Vec<Relationship>,
        part: &str,
        styles: &P::Styles,
        numbering: &P::Numbering,
        seen: Seen<P::Counters>,
    ) -> (r: Result<Content<P::Counters>, ConvertError>)
        requires
            old(self).wf(),
        ensures
            final(self).after(
                old(self),
                Query::Blocks {
                    asked: Reading {
                        pkg: *pkg,
                        elem: *elem,
                        rels: rels@,
                        part: part@,
                        styles: *styles,
                        numbering: *numbering,
                        seen: seen@,
                    },
                    content: r,
                },
            ),
    {
        let ghost asked = Reading {
            pkg: *pkg,
            elem: *elem,
            rels: rels@,
            part: part@,
            styles: *styles,
            numbering: *numbering,
            seen: seen@,
        };
        let ghost given = seen;
        let r: Result<Content<P::Counters>, ConvertError> = pkg.read_blocks(
            elem,
            rels,
            part,
            styles,
            numbering,
            seen,
        );
        proof {
            let q = Query::<P>::Blocks { asked, content: r };
            assert(read_as(q->asked, *rels, part, given, q->content));
            assert(told(q));
            lemma_told_more(self.asked@, q);
            self.asked@ = self.asked@.push(q);
        }
        r
    }
}

/// An optional element, by value.
pub open spec fn owned(e: Option<&Element>) -> Option<Element> {
    match e {
        Some(e) => Some(*e),
        None => None,
    }
}

} // verus!
