//! What text promises: single spaces, across nodes too, and headings that
//! keep their own styling to themselves.

use crate::chars;
use crate::chars::CharClass;
use crate::hooks::Call;
use crate::inlines;
use crate::model::InlineView;
use crate::style::Style;
use crate::tags::Inherited;
use crate::walk;
use crate::walk::Run;
use vstd::prelude::*;

verus! {

/// Whether white space in `s` is single spaces.
pub open spec fn single_spaced(s: Seq<char>) -> bool {
    &&& forall|i: int|
        0 <= i < s.len() && chars::white_space(#[trigger] s[i]) ==> s[i] == ' '
    &&& forall|i: int|
        0 <= i < s.len() - 1 && chars::white_space(#[trigger] s[i]) ==> !chars::white_space(
            s[i + 1],
        )
}

proof fn lemma_collapse_ends(s: Seq<char>)
    ensures
        s.len() > 0 ==> chars::collapse(s).len() > 0,
        s.len() > 0 ==> chars::white_space(chars::collapse(s).last()) == chars::white_space(
            s.last(),
        ),
        s.len() == 0 ==> chars::collapse(s).len() == 0,
    decreases s.len(),
{
    if s.len() > 0 {
        lemma_collapse_ends(s.drop_last());
    }
}

/// Collapsing leaves single spaces only.
pub proof fn law_collapsing_leaves_single_spaces(s: Seq<char>)
    ensures
        single_spaced(chars::collapse(s)),
    decreases s.len(),
{
    if s.len() > 0 {
        let rest = s.drop_last();
        let before = chars::collapse(rest);
        let after = chars::collapse(s);
        law_collapsing_leaves_single_spaces(rest);
        lemma_collapse_ends(rest);
        if s.len() >= 2 {
            assert(rest.last() == s[s.len() - 2]);
        }
        if after != before {
            assert(after.drop_last() =~= before);
            assert forall|i: int|
                0 <= i < after.len() && chars::white_space(#[trigger] after[i]) implies after[i]
                == ' ' by {
                if i < before.len() {
                    assert(after[i] == before[i]);
                }
            }
            assert forall|i: int|
                0 <= i < after.len() - 1 && chars::white_space(
                    #[trigger] after[i],
                ) implies !chars::white_space(after[i + 1]) by {
                assert(after[i] == before[i]);
                if i < before.len() - 1 {
                    assert(after[i + 1] == before[i + 1]);
                } else {
                    assert(before.last() == before[i]);
                }
            }
        }
    }
}

/// Text that is single-spaced already stays as it is; so collapsing twice is
/// collapsing once.
pub proof fn law_collapsing_twice_is_collapsing_once(s: Seq<char>)
    ensures
        chars::collapse(chars::collapse(s)) == chars::collapse(s),
{
    law_collapsing_leaves_single_spaces(s);
    lemma_stays(chars::collapse(s));
}

proof fn lemma_stays(s: Seq<char>)
    requires
        single_spaced(s),
    ensures
        chars::collapse(s) == s,
    decreases s.len(),
{
    if s.len() > 0 {
        let rest = s.drop_last();
        assert(single_spaced(rest)) by {
            assert forall|i: int|
                0 <= i < rest.len() && chars::white_space(#[trigger] rest[i]) implies rest[i]
                == ' ' by {
                assert(rest[i] == s[i]);
            }
            assert forall|i: int|
                0 <= i < rest.len() - 1 && chars::white_space(
                    #[trigger] rest[i],
                ) implies !chars::white_space(rest[i + 1]) by {
                assert(rest[i] == s[i]);
                assert(rest[i + 1] == s[i + 1]);
            }
        }
        lemma_stays(rest);
        assert(s[s.len() - 1] == s.last());
        if s.len() >= 2 {
            assert(chars::white_space(s[s.len() - 2]) ==> !chars::white_space(s[s.len() - 1]));
        }
        assert(rest.push(s.last()) =~= s);
    }
}

/// Whether text `k` of a line is single-spaced and does not start with white
/// space where the line has just had some, or has just begun.
pub open spec fn text_fits(line: Seq<InlineView>, start: bool, k: int) -> bool {
    line[k] matches InlineView::Text { text, .. } ==> {
        &&& single_spaced(text)
        &&& text.len() > 0
        &&& inlines::at_boundary(line.take(k), start) ==> !chars::white_space(text[0])
    }
}

/// White space collapses across node boundaries: however the source splits
/// its text, what a walk appends neither doubles a space nor starts a line
/// with one.
pub proof fn law_spaces_collapse_across_nodes(
    script: Seq<Call>,
    text: Seq<char>,
    inh: Inherited,
    r: Run,
    k: int,
)
    requires
        r.inlines.len() <= k < walk::texted(script, text, inh, r).inlines.len(),
    ensures
        text_fits(walk::texted(script, text, inh, r).inlines, r.start, k),
        walk::texted(script, text, inh, r).inlines.take(k) == r.inlines,
{
    let out = walk::texted(script, text, inh, r);
    let collapsed = chars::collapse(walk::clean_reply(script, r)@);
    law_collapsing_leaves_single_spaces(walk::clean_reply(script, r)@);
    assert(out.inlines.take(k) =~= r.inlines);
    let lead = chars::first(collapsed, CharClass::Only(' '), false) as int;
    chars::lemma_first_is(collapsed, CharClass::Only(' '), false);
    let trimmed = collapsed.skip(lead);
    assert forall|i: int|
        0 <= i < trimmed.len() && chars::white_space(#[trigger] trimmed[i]) implies trimmed[i]
        == ' ' by {
        assert(trimmed[i] == collapsed[i + lead]);
    }
    assert forall|i: int|
        0 <= i < trimmed.len() - 1 && chars::white_space(
            #[trigger] trimmed[i],
        ) implies !chars::white_space(trimmed[i + 1]) by {
        assert(trimmed[i] == collapsed[i + lead]);
        assert(trimmed[i + 1] == collapsed[i + lead + 1]);
    }
    if trimmed.len() > 0 {
        assert(trimmed[0] == collapsed[lead]);
    }
}

/// Whether text in `line`, in links too, carries none of the styling that
/// `base` has.
pub open spec fn free_of_style(line: Seq<InlineView>, base: Style) -> bool
    decreases line,
{
    if line.len() == 0 {
        true
    } else {
        free_of_style(line.drop_last(), base) && match line.last() {
            InlineView::Text { style, .. } => !(style.bold && base.bold) && !(style.italic
                && base.italic) && !(style.strike && base.strike) && !(style.code && base.code),
            InlineView::Link { content, .. } => free_of_style(content, base),
            _ => true,
        }
    }
}

/// A heading's own styling stays out of its content.
pub proof fn law_heading_styling_stays_out(line: Seq<InlineView>, base: Style)
    ensures
        free_of_style(inlines::rebased(line, base), base),
    decreases line,
{
    if line.len() > 0 {
        law_heading_styling_stays_out(line.drop_last(), base);
        let done = inlines::rebased(line, base);
        assert(done.drop_last() =~= inlines::rebased(line.drop_last(), base));
        if let InlineView::Link { content, .. } = line.last() {
            assert(decreases_to!(line => line.last()));
            law_heading_styling_stays_out(content, base);
        }
    }
}

/// What a run adds beyond the heading's styling is kept.
pub proof fn law_emphasis_beyond_the_heading_is_kept(style: Style, base: Style)
    ensures
        !base.bold ==> style.beyond(base).bold == style.bold,
        !base.italic ==> style.beyond(base).italic == style.italic,
        !base.strike ==> style.beyond(base).strike == style.strike,
        !base.code ==> style.beyond(base).code == style.code,
{
}

/// A line's boundary is that of its second part, begun where the first part
/// left off.
pub proof fn law_boundaries_carry_over(a: Seq<InlineView>, b: Seq<InlineView>, start: bool)
    ensures
        inlines::at_boundary(a + b, start) == inlines::at_boundary(
            b,
            inlines::at_boundary(a, start),
        ),
    decreases b.len(),
{
    if b.len() == 0 {
        assert(a + b =~= a);
    } else {
        law_boundaries_carry_over(a, b.drop_last(), start);
        assert((a + b).drop_last() =~= a + b.drop_last());
        assert((a + b).last() == b.last());
    }
}

} // verus!
