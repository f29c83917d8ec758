//! Post-assembly note pruning shared by the DOCX and DOC frontends.
//!
//! Both frontends collect every note a document defines up front, then rely
//! on the inline walk to say which ones text actually points at (anything
//! left over is rendered as an unreferenced note at the end). That default
//! is wrong for a note whose *only* reference sat inside author-hidden
//! content: Word never shows such a footnote/endnote mark, so its body must
//! not survive either, the same way the mark's hidden text does not.

use crate::model::Block;
use std::collections::HashSet;
use vstd::prelude::*;

verus! {

/// What kind of note it is.
#[derive(Debug, Clone, Copy, PartialEq, Eq, Structural)]
pub enum NoteKind {
    Footnote,
    Endnote,
}

/// A footnote or an endnote.
#[derive(Debug)]
pub struct Note {
    pub id: String,
    pub kind: NoteKind,
    pub blocks: Vec<Block>,
}

/// Whether an id is in a set of ids.
pub open spec fn holds(ids: Set<String>, id: Seq<char>) -> bool {
    exists|s: String| #[trigger] ids.contains(s) && s@ == id
}

/// `HashSet::contains` tells whether the set holds a string of that text.
#[verifier::external_body]
fn has_id(ids: &HashSet<String>, id: &String) -> (r: bool)
    ensures
        r == holds(ids@, id@),
{
    ids.contains(id)
}

/// Whether a note of that id is kept: it is referenced visibly, or no hidden
/// reference to it was dropped.
pub open spec fn kept(id: Seq<char>, dropped: Set<String>, visible: Set<String>) -> bool {
    holds(visible, id) || !holds(dropped, id)
}

/// The notes that are kept, in order.
pub open spec fn pruned(notes: Seq<Note>, dropped: Set<String>, visible: Set<String>) -> Seq<Note> {
    notes.filter(|n: Note| kept(n.id@, dropped, visible))
}

/// Drop every note whose only reference(s) were inside hidden content the
/// hidden-content policy already discarded while walking runs.
///
/// `dropped` holds the ids of footnote/endnote references seen inside hidden
/// runs; `visible` holds the ids of references seen outside one, anywhere in
/// the document (including inside other notes). A note is pruned only when
/// its id is in `dropped` and never in `visible`: a note referenced both
/// ways, or not referenced at all, is left untouched - the latter matches
/// rendering unreferenced notes at the end.
///
/// Known limitation: this is a single pass, not a fixed point. A note kept
/// only because a *pruned* note's own body visibly referenced it survives as
/// an unreferenced trailing note instead of being pruned in turn.
pub fn prune_hidden_notes(
    notes: &mut Vec<Note>,
    dropped: &HashSet<String>,
    visible: &HashSet<String>,
)
    ensures
        final(notes)@ == pruned(old(notes)@, dropped@, visible@),
{
    let ghost given = notes@;
    let ghost keep = |n: Note| kept(n.id@, dropped@, visible@);
    let mut all: Vec<Note> = Vec::new();
    all.append(notes);
    assert(all@ =~= given);
    proof {
        reveal_with_fuel(Seq::filter, 2);
        assert(given.take(0) =~= Seq::empty());
        assert(notes@ =~= given.take(0).filter(keep));
    }
    for note in it: all
        invariant
            it.seq() == given,
            keep == (|n: Note| kept(n.id@, dropped@, visible@)),
            notes@ == given.take(it.index() as int).filter(keep),
    {
        let ghost i = it.index() as int;
        proof {
            assert(given.take(i + 1).drop_last() =~= given.take(i));
            assert(given.take(i + 1).last() == note);
            reveal_with_fuel(Seq::filter, 2);
        }
        if has_id(visible, &note.id) || !has_id(dropped, &note.id) {
            notes.push(note);
        }
    }
    assert(given.take(given.len() as int) =~= given);
}

} // verus!
