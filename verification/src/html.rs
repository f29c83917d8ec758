//! (X)HTML element tree -> model blocks. Used by the EPUB frontend.
//!
//! Applies a deliberately small CSS subset - the semantic properties only:
//! `font-weight`, `font-style`, `text-decoration: line-through`, and the
//! hiding properties below - from inline `style` attributes and
//! element/class rules alike. Tables build the canonical grid
//! (`rowspan`/`colspan`); ordered lists honor `start`, `reversed`, `type`,
//! and per-item `value`.
//!
//! Author-hidden content is dropped, with no option to keep it: `display:
//! none`, `visibility: hidden`/`collapse`, `opacity: 0`, `font-size: 0` (and
//! the size in the `font` shorthand), the `hidden` attribute, and
//! `aria-hidden="true"`. A hidden ancestor hides every descendant regardless
//! of the descendant's own declarations; that holds for `<body>` and for the
//! parts of lists and tables too. A closed `<details>` hides nothing: its
//! body is a click away.
//!
//! `font-size: 0` is the one trigger that does *not* work this way: it is an
//! ordinarily inherited, resettable property with a legitimate visible use
//! (`ul { font-size: 0 } li { font-size: 16px }`), so it drops the text it is
//! in effect on and nothing else, and a descendant's own `font-size` cancels
//! it.
//!
//! A link whose label was emptied by dropping hidden content, at any depth,
//! goes with it: its URL is author-hidden too. One that was empty in the
//! source is kept.

use crate::cascade;
use crate::chars::{chars_of, collapse_ws, string_of, without_start, CharClass};
use crate::css::{RuleText, StyleProps, Stylesheet};
use crate::error::ConvertError;
use crate::grid;
use crate::grid::{Grid, GridBuilder};
use crate::hooks;
use crate::hooks::{Call, HtmlCtx};
use crate::inlines;
use crate::inlines::{
    at_space_boundary, flatten, inlines_are_empty, is_blank, is_blank_str, keeps_paragraph,
    rebase_emphasis,
};
use crate::lists;
use crate::lists::{integer_attr, list_blocks, marker, number_items, Kept, ListStyle};
use crate::model;
use crate::model::{
    AnchorId, Block, Cell, ImageSource, Inline, InlineView, LinkTarget, Table, TableKind,
};
use crate::rows;
use crate::rows::{
    col_span, collect_rows, first_child, is_header, row_at, row_inherited, row_span,
    rows_to_group_end, visible_parts, Part, RowAt,
};
use crate::tags::{elem_kind, has_block_children, li_had_content, ElemKind, Inherited};
use crate::walk;
use crate::walk::{Cells, Items, Run, Stopped};
use crate::xml::{same_text, Element, Node};
use vstd::prelude::*;

verus! {

/// A walk in progress.
struct Builder<'e, C: HtmlCtx + ?Sized> {
    blocks: Vec<Block>,
    inlines: Vec<Inline>,
    css: &'e Stylesheet,
    ctx: &'e C,
    /// Whether text appended while `inlines` is empty sits at a whitespace
    /// boundary (block start: leading whitespace collapses away; nested walks
    /// of inline content inherit the surrounding run's state instead).
    start_boundary: bool,
    /// Set whenever content is dropped because it was author-hidden (as
    /// opposed to never having been there at all). Consulted only for the
    /// label of a link: one emptied by dropping hidden content must not fall
    /// back to showing its URL as label text the way a source-empty `<a>`
    /// does. A label starts with the flag clear, and what it drops is noted
    /// for an enclosing label too.
    dropped_hidden: bool,
    /// What the hooks were asked so far.
    calls: Ghost<Seq<Call>>,
}

impl<'e, C: HtmlCtx + ?Sized> View for Builder<'e, C> {
    type V = Run;

    closed spec fn view(&self) -> Run {
        Run {
            blocks: model::block_views(self.blocks@),
            inlines: model::inline_views(self.inlines@),
            start: self.start_boundary,
            dropped: self.dropped_hidden,
            calls: self.calls@,
        }
    }
}

/// Where a step has led: on, or to an error.
spec fn led(r: Result<(), ConvertError>, now: Run) -> Result<Run, Stopped> {
    match r {
        Ok(_) => Ok(now),
        Err(error) => Err(Stopped { error, calls: now.calls }),
    }
}

/// Whether a nested walk that came to `inner` gave those blocks and left the
/// outer walk from `was` at `now`.
spec fn gave(
    inner: Result<Run, Stopped>,
    r: Result<Vec<Block>, ConvertError>,
    was: Run,
    now: Run,
) -> bool {
    match r {
        Ok(blocks) => inner matches Ok(i) && i.blocks == model::block_views(blocks@) && now
            == was.after(i),
        Err(error) => inner == Err::<Run, Stopped>(Stopped { error, calls: now.calls }),
    }
}

impl<'e, C: HtmlCtx + ?Sized> Builder<'e, C> {
    /// Every recorded answer was given.
    spec fn wf(&self) -> bool {
        hooks::all_said(self.ctx, self.calls@)
    }

    /// The same walk, later.
    spec fn continues(&self, was: &Self) -> bool {
        &&& self.wf()
        &&& self.css == was.css
        &&& self.ctx == was.ctx
        &&& walk::covers(self@.calls, was@.calls)
    }

    fn ask_anchor(&mut self, raw: &str) -> (r: AnchorId)
        requires
            old(self).wf(),
        ensures
            final(self).continues(old(self)),
            final(self)@ == old(self)@.calling(Call::Anchor { raw: raw@, id: r }),
    {
        let id: AnchorId = self.ctx.anchor_id(raw);
        proof {
            let call = Call::Anchor { raw: raw@, id };
            assert(call_ensures(C::anchor_id, (self.ctx, raw), call->Anchor_id));
            assert(hooks::said(self.ctx, call));
            hooks::lemma_said_more(self.ctx, self.calls@, call);
            self.calls@ = self.calls@.push(call);
        }
        id
    }

    fn ask_clean(&mut self, raw: &str) -> (r: String)
        requires
            old(self).wf(),
        ensures
            final(self).continues(old(self)),
            final(self)@ == old(self)@.calling(Call::Clean { raw: raw@, text: r }),
    {
        let text: String = self.ctx.clean_text(raw);
        proof {
            let call = Call::Clean { raw: raw@, text };
            assert(call_ensures(C::clean_text, (self.ctx, raw), call->Clean_text));
            assert(hooks::said(self.ctx, call));
            hooks::lemma_said_more(self.ctx, self.calls@, call);
            self.calls@ = self.calls@.push(call);
        }
        text
    }

    fn ask_link(&mut self, href: &str) -> (r: Option<LinkTarget>)
        requires
            old(self).wf(),
        ensures
            final(self).continues(old(self)),
            final(self)@ == old(self)@.calling(Call::Link { href: href@, target: r }),
    {
        let target: Option<LinkTarget> = self.ctx.link_target(href);
        proof {
            let call = Call::Link { href: href@, target };
            assert(hooks::said(self.ctx, call));
            hooks::lemma_said_more(self.ctx, self.calls@, call);
            self.calls@ = self.calls@.push(call);
        }
        target
    }

    fn ask_image(&mut self, src: &str) -> (r: Result<Option<ImageSource>, ConvertError>)
        requires
            old(self).wf(),
        ensures
            final(self).continues(old(self)),
            final(self)@ == old(self)@.calling(Call::Image { src: src@, source: r }),
    {
        let source: Result<Option<ImageSource>, ConvertError> = self.ctx.image_source(src);
        proof {
            let call = Call::Image { src: src@, source };
            assert(hooks::said(self.ctx, call));
            hooks::lemma_said_more(self.ctx, self.calls@, call);
            self.calls@ = self.calls@.push(call);
        }
        source
    }

    fn ask_tex(&mut self, math: &Element) -> (r: String)
        requires
            old(self).wf(),
        ensures
            final(self).continues(old(self)),
            final(self)@ == old(self)@.calling(Call::Tex { math: *math, tex: r }),
    {
        let tex: String = self.ctx.math_to_tex(math);
        proof {
            let call = Call::Tex { math: *math, tex };
            assert(hooks::said(self.ctx, call));
            hooks::lemma_said_more(self.ctx, self.calls@, call);
            self.calls@ = self.calls@.push(call);
        }
        tex
    }

    fn ask_display(&mut self, math: &Element) -> (r: bool)
        requires
            old(self).wf(),
        ensures
            final(self).continues(old(self)),
            final(self)@ == old(self)@.calling(Call::Display { math: *math, display: r }),
    {
        let display: bool = self.ctx.math_is_display(math);
        proof {
            let call = Call::Display { math: *math, display };
            assert(hooks::said(self.ctx, call));
            hooks::lemma_said_more(self.ctx, self.calls@, call);
            self.calls@ = self.calls@.push(call);
        }
        display
    }

    fn ask_headers(&mut self, table: &Table, declared: usize) -> (r: usize)
        requires
            old(self).wf(),
        ensures
            final(self).continues(old(self)),
            final(self)@ == old(self)@.calling(
                Call::Headers { table: table@, declared, rows: r },
            ),
    {
        let rows: usize = self.ctx.header_rows(table, declared);
        proof {
            let call = Call::Headers { table: table@, declared, rows };
            assert(hooks::headed(
                self.ctx,
                *table,
                call->Headers_declared,
                call->Headers_rows,
            ));
            assert(hooks::said(self.ctx, call));
            hooks::lemma_said_more(self.ctx, self.calls@, call);
            self.calls@ = self.calls@.push(call);
        }
        rows
    }

    fn push_inline(&mut self, inline: Inline)
        requires
            old(self).wf(),
        ensures
            final(self).continues(old(self)),
            final(self)@ == old(self)@.inline(inline@),
    {
        proof {
            model::lemma_inline_views_push(self.inlines@, inline);
        }
        self.inlines.push(inline);
    }

    fn push_block(&mut self, block: Block)
        requires
            old(self).wf(),
        ensures
            final(self).continues(old(self)),
            final(self)@ == old(self)@.block(block@),
    {
        proof {
            model::lemma_block_views_push(self.blocks@, block);
        }
        self.blocks.push(block);
    }

    /// A paragraph, if there is anything in it worth keeping.
    fn push_paragraph(&mut self, content: Vec<Inline>)
        requires
            old(self).wf(),
        ensures
            final(self).continues(old(self)),
            final(self)@ == old(self)@.paragraph(model::inline_views(content@)),
    {
        if keeps_paragraph(&content) {
            self.push_block(Block::Paragraph(content));
        }
    }

    /// The line in progress, which is then empty.
    fn take_inlines(&mut self) -> (r: Vec<Inline>)
        requires
            old(self).wf(),
        ensures
            final(self).continues(old(self)),
            model::inline_views(r@) == old(self)@.inlines,
            final(self)@ == (Run { inlines: Seq::empty(), ..old(self)@ }),
    {
        let mut taken: Vec<Inline> = Vec::new();
        taken.append(&mut self.inlines);
        assert(model::inline_views(self.inlines@) =~= Seq::empty());
        taken
    }

    fn flush_paragraph(&mut self)
        requires
            old(self).wf(),
        ensures
            final(self).continues(old(self)),
            final(self)@ == old(self)@.flushed(),
    {
        let content: Vec<Inline> = self.take_inlines();
        self.push_paragraph(content);
        self.start_boundary = true;
    }

    fn note_drop(&mut self, hidden: bool)
        requires
            old(self).wf(),
        ensures
            final(self).continues(old(self)),
            final(self)@ == old(self)@.dropping(hidden),
    {
        if hidden {
            self.dropped_hidden = true;
        }
    }

    fn push_anchor_from(&mut self, raw: Option<&str>)
        requires
            old(self).wf(),
        ensures
            final(self).continues(old(self)),
            forall|script: Seq<Call>| #[trigger]
                walk::covers(script, final(self)@.calls) ==> walk::anchor_from(
                    script,
                    crate::xml::opt_text(raw),
                    old(self)@,
                ) == final(self)@,
    {
        if let Some(id) = raw {
            let cs: Vec<char> = chars_of(id);
            if cs.len() > 0 {
                let ghost was = self@;
                let anchor: AnchorId = self.ask_anchor(id);
                self.push_inline(Inline::Anchor(anchor));
                assert forall|script: Seq<Call>| #[trigger]
                    walk::covers(script, self@.calls) implies walk::anchor_from(
                    script,
                    Some(id@),
                    was,
                ) == self@ by {
                    assert(script[was.at()] == self@.calls[was.at()]);
                }
            }
        }
    }

    fn push_anchor(&mut self, elem: &Element)
        requires
            old(self).wf(),
        ensures
            final(self).continues(old(self)),
            forall|script: Seq<Call>| #[trigger]
                walk::covers(script, final(self)@.calls) ==> walk::anchored(
                    script,
                    *elem,
                    old(self)@,
                ) == final(self)@,
    {
        self.push_anchor_from(elem.attr_any("id"));
        let ghost mid = self@;
        if same_text(elem.local.as_str(), "a") {
            self.push_anchor_from(elem.attr_any("name"));
        }
        assert forall|script: Seq<Call>| #[trigger]
            walk::covers(script, self@.calls) implies walk::anchored(
            script,
            *elem,
            old(self)@,
        ) == self@ by {
            assert(walk::covers(script, mid.calls));
        }
    }

    fn push_text(&mut self, text: &str, inherited: Inherited)
        requires
            old(self).wf(),
        ensures
            final(self).continues(old(self)),
            forall|script: Seq<Call>| #[trigger]
                walk::covers(script, final(self)@.calls) ==> walk::texted(
                    script,
                    text@,
                    inherited,
                    old(self)@,
                ) == final(self)@,
    {
        // `font-size: 0` (directly declared, or inherited from an ancestor
        // that never had it reset) blanks only the text itself.
        if inherited.font_size_zero {
            self.note_drop(true);
            return;
        }
        let ghost was = self@;
        let cleaned: String = self.ask_clean(text);
        let cs: Vec<char> = chars_of(cleaned.as_str());
        let collapsed: Vec<char> = collapse_ws(&cs);
        // Collapse across node boundaries: leading whitespace vanishes at a
        // block start and after already-emitted whitespace, no matter how
        // the source split its text nodes and inline elements.
        let shown: &[char] = if at_space_boundary(&self.inlines, self.start_boundary) {
            without_start(&collapsed, CharClass::Only(' '))
        } else {
            &collapsed
        };
        if shown.len() > 0 {
            let run = Inline::Text { text: string_of(shown), style: inherited.delta.resolve() };
            self.push_inline(run);
        }
        assert forall|script: Seq<Call>| #[trigger]
            walk::covers(script, self@.calls) implies walk::texted(script, text@, inherited, was)
            == self@ by {
            assert(script[was.at()] == self@.calls[was.at()]);
        }
    }

    /// Whether `elem` resolves hidden; if so, the drop is recorded.
    fn hidden(&mut self, elem: &Element) -> (r: bool)
        requires
            old(self).wf(),
        ensures
            r == cascade::resolved(old(self).css@, *elem).hidden,
            final(self).continues(old(self)),
            final(self)@ == old(self)@.dropping(r),
    {
        let hidden: bool = self.css.element_props(elem).hidden;
        self.note_drop(hidden);
        hidden
    }

    /// Concatenated text of `elem`'s descendants, skipping any subtree whose
    /// own element resolves hidden - `<pre>` renders its text verbatim rather
    /// than through [`Builder::push_text`], so it needs its own hidden check.
    fn collect_visible_text(&mut self, elem: &Element, out: &mut Vec<char>)
        requires
            old(self).wf(),
        ensures
            final(self).continues(old(self)),
            final(out)@ == old(out)@ + walk::visible_text(
                old(self).css@,
                *elem,
                elem.children@.len() as int,
            ),
            final(self)@ == old(self)@.dropping(
                walk::hides_text(old(self).css@, *elem, elem.children@.len() as int),
            ),
        decreases elem,
    {
        let ghost was = self@;
        let ghost before = out@;
        let ghost rules = self.css@;
        let mut i: usize = 0;
        assert(out@ =~= before + walk::visible_text(rules, *elem, 0));
        while i < elem.children.len()
            invariant
                i <= elem.children@.len(),
                self.continues(old(self)),
                rules == self.css@,
                out@ == before + walk::visible_text(rules, *elem, i as int),
                self@ == was.dropping(walk::hides_text(rules, *elem, i as int)),
            decreases elem.children@.len() - i,
        {
            proof {
                rows::lemma_elem_at(*elem, i as int);
            }
            match &elem.children[i] {
                Node::Text(t) => {
                    let mut cs: Vec<char> = chars_of(t.as_str());
                    out.append(&mut cs);
                },
                Node::Elem(e) => {
                    if !self.hidden(e) {
                        self.collect_visible_text(e, out);
                    }
                },
            }
            i += 1;
            assert(out@ =~= before + walk::visible_text(rules, *elem, i as int));
        }
    }

    fn push_pre(&mut self, elem: &Element)
        requires
            old(self).wf(),
        ensures
            final(self).continues(old(self)),
            final(self)@ == walk::with_pre(old(self).css@, *elem, old(self)@),
    {
        let mut text: Vec<char> = Vec::new();
        self.collect_visible_text(elem, &mut text);
        assert(text@ =~= walk::visible_text(
            old(self).css@,
            *elem,
            elem.children@.len() as int,
        ));
        if !is_blank(&text) {
            self.push_block(Block::CodeBlock { lang: None, text: string_of(&text) });
        }
    }

    fn push_math(&mut self, elem: &Element)
        requires
            old(self).wf(),
        ensures
            final(self).continues(old(self)),
            forall|script: Seq<Call>| #[trigger]
                walk::covers(script, final(self)@.calls) ==> walk::with_math(
                    script,
                    *elem,
                    old(self)@,
                ) == final(self)@,
    {
        let ghost was = self@;
        let tex: String = self.ask_tex(elem);
        let ghost asked = self@;
        let cs: Vec<char> = chars_of(tex.as_str());
        if cs.len() > 0 {
            if self.ask_display(elem) {
                self.flush_paragraph();
                self.push_block(Block::Math(tex));
            } else {
                self.push_inline(Inline::Math(tex));
            }
        }
        assert forall|script: Seq<Call>| #[trigger]
            walk::covers(script, self@.calls) implies walk::with_math(script, *elem, was)
            == self@ by {
            assert(script[was.at()] == self@.calls[was.at()]);
            if cs@.len() > 0 {
                assert(script[asked.at()] == self@.calls[asked.at()]);
            }
        }
    }

    fn push_image(&mut self, elem: &Element) -> (r: Result<(), ConvertError>)
        requires
            old(self).wf(),
        ensures
            final(self).continues(old(self)),
            forall|script: Seq<Call>| #[trigger]
                walk::covers(script, final(self)@.calls) ==> walk::with_image(
                    script,
                    *elem,
                    old(self)@,
                ) == led(r, final(self)@),
    {
        proof {
            reveal_strlit("");
        }
        let ghost was = self@;
        let raw_alt: &str = match elem.attr_any("alt") {
            Some(a) => a,
            None => "",
        };
        let src: &str = match elem.attr_any("src") {
            Some(s) => s,
            None => match elem.attr_any("href") {
                Some(h) => h,
                None => "",
            },
        };
        assert(raw_alt@ =~= walk::either(elem.value_of("alt"@), None));
        assert(src@ =~= walk::either(elem.value_of("src"@), elem.value_of("href"@)));
        let alt: String = self.ask_clean(raw_alt);
        let ghost mid = self@;
        let source: Result<Option<ImageSource>, ConvertError> = self.ask_image(src);
        let ghost answer = source;
        let r: Result<(), ConvertError> = match source {
            Err(e) => Err(e),
            Ok(Some(source)) => {
                self.push_inline(Inline::Image { alt, source });
                Ok(())
            },
            Ok(None) => {
                if !is_blank_str(alt.as_str()) {
                    self.push_inline(Inline::Image { alt, source: ImageSource::Unavailable });
                }
                Ok(())
            },
        };
        assert forall|script: Seq<Call>| #[trigger]
            walk::covers(script, self@.calls) implies walk::with_image(script, *elem, was) == led(
            r,
            self@,
        ) by {
            assert(script[was.at()] == self@.calls[was.at()]);
            assert(script[mid.at()] == self@.calls[mid.at()]);
            assert(walk::clean_reply(script, was) == alt);
            assert(walk::image_reply(script, mid) == answer);
        }
        r
    }

    fn push_heading(&mut self, elem: &Element, level: u8, inherited: Inherited, blocks: Vec<Block>)
        requires
            old(self).wf(),
        ensures
            final(self).continues(old(self)),
            forall|script: Seq<Call>| #[trigger]
                walk::covers(script, final(self)@.calls) ==> walk::with_heading(
                    script,
                    *elem,
                    level,
                    inherited,
                    model::block_views(blocks@),
                    old(self)@,
                ) == final(self)@,
    {
        let ghost was = self@;
        let ghost bv = model::block_views(blocks@);
        // The heading element's own styling is how it looks, not markup
        // applied to the words; a `<b>` inside it still is.
        let content: Vec<Inline> = rebase_emphasis(flatten(blocks), inherited.delta.resolve());
        let ghost cv = model::inline_views(content@);
        let raw: Option<&str> = elem.attr_any("id");
        let anchor: Option<AnchorId> = match raw {
            Some(id) => Some(self.ask_anchor(id)),
            None => None,
        };
        let ghost av = model::text_of(anchor);
        if !inlines_are_empty(&content) {
            self.push_block(Block::Heading { level, anchor, content });
        } else {
            // An empty heading still carries link targets: its own id and any
            // anchors inside.
            let mut kept: Vec<Inline> = Vec::new();
            if let Some(id) = anchor {
                kept.push(Inline::Anchor(id));
            }
            let mut inner: Vec<Inline> = only_anchors(content);
            proof {
                model::lemma_inline_views_add(kept@, inner@);
            }
            kept.append(&mut inner);
            assert(model::inline_views(kept@) =~= match av {
                Some(id) => seq![InlineView::Anchor(id)] + walk::anchors_in(cv),
                None => walk::anchors_in(cv),
            });
            if kept.len() > 0 {
                self.push_block(Block::Paragraph(kept));
            }
        }
        assert forall|script: Seq<Call>| #[trigger]
            walk::covers(script, self@.calls) implies walk::with_heading(
            script,
            *elem,
            level,
            inherited,
            bv,
            was,
        ) == self@ by {
            if raw is Some {
                assert(script[was.at()] == self@.calls[was.at()]);
            }
        }
    }

    fn push_link(&mut self, target: Option<LinkTarget>, label: Vec<Inline>, lost: bool)
        requires
            old(self).wf(),
        ensures
            final(self).continues(old(self)),
            final(self)@ == walk::with_link(
                target,
                model::inline_views(label@),
                lost,
                old(self)@,
            ),
    {
        match target {
            Some(target) => {
                if !(lost && inlines_are_empty(&label)) {
                    self.push_inline(Inline::Link { content: label, target });
                }
            },
            None => {
                let mut label = label;
                proof {
                    model::lemma_inline_views_add(self.inlines@, label@);
                }
                self.inlines.append(&mut label);
            },
        }
    }

    fn walk_children(&mut self, elem: &Element, inherited: Inherited) -> (r: Result<
        (),
        ConvertError,
    >)
        requires
            old(self).wf(),
        ensures
            final(self).continues(old(self)),
            forall|script: Seq<Call>| #[trigger]
                walk::covers(script, final(self)@.calls) ==> walk::walk_children(
                    script,
                    old(self).css@,
                    *elem,
                    inherited,
                    old(self)@,
                ) == led(r, final(self)@),
        decreases elem, 1int, 0int,
    {
        let ghost was = self@;
        let ghost rules = self.css@;
        let mut i: usize = 0;
        while i < elem.children.len()
            invariant
                i <= elem.children@.len(),
                self.continues(old(self)),
                rules == self.css@,
                was == old(self)@,
                forall|script: Seq<Call>| #[trigger]
                    walk::covers(script, self@.calls) ==> walk::walk_nodes(
                        script,
                        rules,
                        *elem,
                        i as int,
                        inherited,
                        was,
                    ) == Ok::<Run, Stopped>(self@),
            decreases elem.children@.len() - i,
        {
            let ghost mid = self@;
            proof {
                rows::lemma_elem_at(*elem, i as int);
            }
            let r: Result<(), ConvertError> = match &elem.children[i] {
                Node::Text(t) => {
                    self.push_text(t.as_str(), inherited);
                    Ok(())
                },
                Node::Elem(e) => self.walk_elem(e, inherited),
            };
            assert forall|script: Seq<Call>| #[trigger]
                walk::covers(script, self@.calls) implies walk::walk_nodes(
                script,
                rules,
                *elem,
                i + 1,
                inherited,
                was,
            ) == led(r, self@) by {
                assert(walk::covers(script, mid.calls));
            }
            if let Err(e) = r {
                proof {
                    let stopped = led(Err(e), self@);
                    assert forall|script: Seq<Call>| #[trigger]
                        walk::covers(script, self@.calls) implies walk::walk_children(
                        script,
                        rules,
                        *elem,
                        inherited,
                        was,
                    ) == stopped by {
                        lemma_stopped(
                            script,
                            rules,
                            *elem,
                            i + 1,
                            elem.children@.len() as int,
                            inherited,
                            was,
                        );
                    }
                }
                return Err(e);
            }
            i += 1;
        }
        Ok(())
    }

    /// Walk the content of `elem` in a fresh block context, starting at the
    /// given whitespace-boundary state (`false` when the content continues an
    /// inline run, so its leading space stays significant relative to the
    /// surrounding text).
    fn sub_blocks_at(
        &mut self,
        elem: &Element,
        inherited: Inherited,
        start_boundary: bool,
    ) -> (r: Result<Vec<Block>, ConvertError>)
        requires
            old(self).wf(),
        ensures
            final(self).continues(old(self)),
            forall|script: Seq<Call>| #[trigger]
                walk::covers(script, final(self)@.calls) ==> gave(
                    walk::walk_inside(
                        script,
                        old(self).css@,
                        *elem,
                        inherited,
                        start_boundary,
                        old(self)@,
                    ),
                    r,
                    old(self)@,
                    final(self)@,
                ),
        decreases elem, 2int, 0int,
    {
        let mut b = Builder {
            blocks: Vec::new(),
            inlines: Vec::new(),
            css: self.css,
            ctx: self.ctx,
            start_boundary,
            dropped_hidden: self.dropped_hidden,
            calls: Ghost(self.calls@),
        };
        proof {
            assert(model::block_views(b.blocks@) =~= Seq::empty());
            assert(model::inline_views(b.inlines@) =~= Seq::empty());
            assert(b@ == self@.nested(start_boundary));
        }
        let r: Result<(), ConvertError> = b.walk_children(elem, inherited);
        if let Err(e) = r {
            self.calls = b.calls;
            return Err(e);
        }
        let ghost mid = b@;
        b.flush_paragraph();
        self.dropped_hidden = b.dropped_hidden;
        self.calls = b.calls;
        let ghost end = b@;
        assert forall|script: Seq<Call>| #[trigger]
            walk::covers(script, self@.calls) implies walk::walk_inside(
            script,
            old(self).css@,
            *elem,
            inherited,
            start_boundary,
            old(self)@,
        ) == Ok::<Run, Stopped>(end) by {
            assert(walk::covers(script, mid.calls));
        }
        Ok(b.blocks)
    }

    /// The content of `elem` as one line, starting at the given
    /// whitespace-boundary state.
    fn inline_children_at(
        &mut self,
        elem: &Element,
        inherited: Inherited,
        start_boundary: bool,
    ) -> (r: Result<Vec<Inline>, ConvertError>)
        requires
            old(self).wf(),
        ensures
            final(self).continues(old(self)),
            forall|script: Seq<Call>| #[trigger]
                walk::covers(script, final(self)@.calls) ==> {
                    let inner = walk::walk_inside(
                        script,
                        old(self).css@,
                        *elem,
                        inherited,
                        start_boundary,
                        old(self)@,
                    );
                    match r {
                        Ok(line) => inner matches Ok(i) && inlines::flattened(i.blocks)
                            == model::inline_views(line@) && final(self)@ == old(self)@.after(i),
                        Err(error) => inner == Err::<Run, Stopped>(
                            Stopped { error, calls: final(self)@.calls },
                        ),
                    }
                },
        decreases elem, 3int, 0int,
    {
        match self.sub_blocks_at(elem, inherited, start_boundary) {
            Ok(blocks) => Ok(flatten(blocks)),
            Err(e) => Err(e),
        }
    }

    fn walk_heading(&mut self, elem: &Element, level: u8, inherited: Inherited) -> (r: Result<
        (),
        ConvertError,
    >)
        requires
            old(self).wf(),
        ensures
            final(self).continues(old(self)),
            forall|script: Seq<Call>| #[trigger]
                walk::covers(script, final(self)@.calls) ==> walk::walk_heading(
                    script,
                    old(self).css@,
                    *elem,
                    level,
                    inherited,
                    old(self)@,
                ) == led(r, final(self)@),
        decreases elem, 4int, 0int,
    {
        match self.sub_blocks_at(elem, inherited, true) {
            Err(e) => Err(e),
            Ok(blocks) => {
                let ghost mid = self@;
                self.push_heading(elem, level, inherited, blocks);
                assert forall|script: Seq<Call>| #[trigger]
                    walk::covers(script, self@.calls) implies walk::walk_heading(
                    script,
                    old(self).css@,
                    *elem,
                    level,
                    inherited,
                    old(self)@,
                ) == Ok::<Run, Stopped>(self@) by {
                    assert(walk::covers(script, mid.calls));
                }
                Ok(())
            },
        }
    }

    fn walk_para(&mut self, elem: &Element, inherited: Inherited) -> (r: Result<(), ConvertError>)
        requires
            old(self).wf(),
        ensures
            final(self).continues(old(self)),
            forall|script: Seq<Call>| #[trigger]
                walk::covers(script, final(self)@.calls) ==> walk::walk_para(
                    script,
                    old(self).css@,
                    *elem,
                    inherited,
                    old(self)@,
                ) == led(r, final(self)@),
        decreases elem, 4int, 0int,
    {
        self.push_anchor(elem);
        let ghost opened = self@;
        let line: Result<Vec<Inline>, ConvertError> = self.inline_children_at(
            elem,
            inherited,
            true,
        );
        let ghost mid = self@;
        let r: Result<(), ConvertError> = match line {
            Err(e) => Err(e),
            Ok(mut line) => {
                let mut content: Vec<Inline> = self.take_inlines();
                proof {
                    model::lemma_inline_views_add(content@, line@);
                }
                content.append(&mut line);
                self.push_paragraph(content);
                Ok(())
            },
        };
        assert forall|script: Seq<Call>| #[trigger]
            walk::covers(script, self@.calls) implies walk::walk_para(
            script,
            old(self).css@,
            *elem,
            inherited,
            old(self)@,
        ) == led(r, self@) by {
            assert(walk::covers(script, opened.calls));
            assert(walk::covers(script, mid.calls));
        }
        r
    }

    fn walk_quote(&mut self, elem: &Element, inherited: Inherited) -> (r: Result<
        (),
        ConvertError,
    >)
        requires
            old(self).wf(),
        ensures
            final(self).continues(old(self)),
            forall|script: Seq<Call>| #[trigger]
                walk::covers(script, final(self)@.calls) ==> walk::walk_quote(
                    script,
                    old(self).css@,
                    *elem,
                    inherited,
                    old(self)@,
                ) == led(r, final(self)@),
        decreases elem, 4int, 0int,
    {
        match self.sub_blocks_at(elem, inherited, true) {
            Err(e) => Err(e),
            Ok(blocks) => {
                let ghost mid = self@;
                if blocks.len() > 0 {
                    self.push_block(Block::BlockQuote(blocks));
                }
                assert forall|script: Seq<Call>| #[trigger]
                    walk::covers(script, self@.calls) implies walk::walk_quote(
                    script,
                    old(self).css@,
                    *elem,
                    inherited,
                    old(self)@,
                ) == Ok::<Run, Stopped>(self@) by {
                    assert(walk::covers(script, mid.calls));
                }
                Ok(())
            },
        }
    }

    fn walk_container(&mut self, elem: &Element, inherited: Inherited) -> (r: Result<
        (),
        ConvertError,
    >)
        requires
            old(self).wf(),
        ensures
            final(self).continues(old(self)),
            forall|script: Seq<Call>| #[trigger]
                walk::covers(script, final(self)@.calls) ==> walk::walk_container(
                    script,
                    old(self).css@,
                    *elem,
                    inherited,
                    old(self)@,
                ) == led(r, final(self)@),
        decreases elem, 4int, 0int,
    {
        self.push_anchor(elem);
        let ghost opened = self@;
        let apart: bool = has_block_children(elem);
        if apart {
            self.flush_paragraph();
        }
        let r: Result<(), ConvertError> = self.walk_children(elem, inherited);
        let ghost mid = self@;
        if apart && r.is_ok() {
            self.flush_paragraph();
        }
        assert forall|script: Seq<Call>| #[trigger]
            walk::covers(script, self@.calls) implies walk::walk_container(
            script,
            old(self).css@,
            *elem,
            inherited,
            old(self)@,
        ) == led(r, self@) by {
            assert(walk::covers(script, opened.calls));
            assert(walk::covers(script, mid.calls));
        }
        r
    }

    fn walk_link(&mut self, elem: &Element, inherited: Inherited) -> (r: Result<(), ConvertError>)
        requires
            old(self).wf(),
        ensures
            final(self).continues(old(self)),
            forall|script: Seq<Call>| #[trigger]
                walk::covers(script, final(self)@.calls) ==> walk::walk_link(
                    script,
                    old(self).css@,
                    *elem,
                    inherited,
                    old(self)@,
                ) == led(r, final(self)@),
        decreases elem, 4int, 0int,
    {
        let ghost was = self@;
        let href: Option<&str> = elem.attr_any("href");
        let target: Option<LinkTarget> = match href {
            Some(href) => self.ask_link(href),
            None => None,
        };
        // The label starts from a clean flag, so that an unrelated drop before
        // the `<a>` does not count for it. A drop inside the label is noted
        // around it too: an enclosing `<a>` that shows nothing else lost it.
        let outer: bool = self.dropped_hidden;
        let ghost asked = self@;
        self.dropped_hidden = false;
        let start: bool = at_space_boundary(&self.inlines, self.start_boundary);
        let label: Result<Vec<Inline>, ConvertError> = self.inline_children_at(
            elem,
            inherited,
            start,
        );
        let ghost mid = self@;
        let lost: bool = self.dropped_hidden;
        self.dropped_hidden = outer || lost;
        let r: Result<(), ConvertError> = match label {
            Err(e) => Err(e),
            Ok(label) => {
                self.push_link(target, label, lost);
                Ok(())
            },
        };
        assert forall|script: Seq<Call>| #[trigger]
            walk::covers(script, self@.calls) implies walk::walk_link(
            script,
            old(self).css@,
            *elem,
            inherited,
            was,
        ) == led(r, self@) by {
            assert(walk::covers(script, mid.calls));
            assert(walk::covers(script, asked.calls));
            if href is Some {
                assert(script[was.at()] == asked.calls[was.at()]);
            }
        }
        r
    }

    fn walk_items(
        &mut self,
        elem: &Element,
        items: &Vec<usize>,
        numbers: &Vec<i64>,
        inherited: Inherited,
    ) -> (r: Result<Vec<Kept>, ConvertError>)
        requires
            old(self).wf(),
            items@ == walk::items_of(old(self).css@, *elem),
            numbers@.len() == items@.len(),
        ensures
            final(self).continues(old(self)),
            forall|script: Seq<Call>| #[trigger]
                walk::covers(script, final(self)@.calls) ==> {
                    let all = walk::walk_items(
                        script,
                        old(self).css@,
                        *elem,
                        items@,
                        numbers@,
                        items@.len() as int,
                        inherited,
                        old(self)@,
                    );
                    match r {
                        Ok(kept) => all == Ok::<Items, Stopped>(
                            Items { kept: lists::kept_views(kept@), run: final(self)@ },
                        ),
                        Err(error) => all == Err::<Items, Stopped>(
                            Stopped { error, calls: final(self)@.calls },
                        ),
                    }
                },
        decreases elem, 3int, 0int,
    {
        let ghost was = self@;
        let ghost rules = self.css@;
        let mut kept: Vec<Kept> = Vec::new();
        let mut k: usize = 0;
        assert(lists::kept_views(kept@) =~= Seq::empty());
        while k < items.len()
            invariant
                k <= items@.len(),
                self.continues(old(self)),
                rules == self.css@,
                was == old(self)@,
                items@ == walk::items_of(rules, *elem),
                numbers@.len() == items@.len(),
                forall|script: Seq<Call>| #[trigger]
                    walk::covers(script, self@.calls) ==> walk::walk_items(
                        script,
                        rules,
                        *elem,
                        items@,
                        numbers@,
                        k as int,
                        inherited,
                        was,
                    ) == Ok::<Items, Stopped>(
                        Items { kept: lists::kept_views(kept@), run: self@ },
                    ),
            decreases items@.len() - k,
        {
            proof {
                rows::lemma_visible(rules, *elem, Part::Item);
                rows::lemma_elem_at(*elem, items@[k as int] as int);
                assert(rows::elem_at(elem.children@, items@[k as int] as int) is Some);
            }
            let ghost mid = self@;
            let ghost before = kept@;
            if let Node::Elem(li) = &elem.children[items[k]] {
                let own: Inherited = inherited.merge_props(li, self.css.element_props(li));
                match self.sub_blocks_at(li, own, true) {
                    Err(e) => {
                        proof {
                            assert forall|script: Seq<Call>| #[trigger]
                                walk::covers(script, self@.calls) implies walk::walk_items(
                                script,
                                rules,
                                *elem,
                                items@,
                                numbers@,
                                items@.len() as int,
                                inherited,
                                was,
                            ) == Err::<Items, Stopped>(
                                Stopped { error: e, calls: self@.calls },
                            ) by {
                                assert(walk::covers(script, mid.calls));
                                lemma_items_stopped(
                                    script,
                                    rules,
                                    *elem,
                                    items@,
                                    numbers@,
                                    k + 1,
                                    items@.len() as int,
                                    inherited,
                                    was,
                                );
                            }
                        }
                        return Err(e);
                    },
                    Ok(blocks) => {
                        // A visible `<li>` whose only content was itself
                        // dropped as hidden leaves no blocks; keep it out
                        // rather than render a bare marker for content that
                        // no longer exists. A source `<li></li>` that was
                        // always empty is unaffected.
                        if blocks.len() > 0 || !li_had_content(li) {
                            let item = Kept { number: numbers[k], blocks };
                            kept.push(item);
                            assert(lists::kept_views(kept@) =~= lists::kept_views(before).push(
                                item@,
                            ));
                        }
                        assert forall|script: Seq<Call>| #[trigger]
                            walk::covers(script, self@.calls) implies walk::walk_items(
                            script,
                            rules,
                            *elem,
                            items@,
                            numbers@,
                            k + 1,
                            inherited,
                            was,
                        ) == Ok::<Items, Stopped>(
                            Items { kept: lists::kept_views(kept@), run: self@ },
                        ) by {
                            assert(walk::covers(script, mid.calls));
                        }
                    },
                }
            }
            k += 1;
        }
        Ok(kept)
    }

    /// Ordered/unordered list with `start`, `reversed`, `type`, and per-item
    /// `value`.
    fn parse_list(&mut self, elem: &Element, inherited: Inherited) -> (r: Result<(), ConvertError>)
        requires
            old(self).wf(),
        ensures
            final(self).continues(old(self)),
            forall|script: Seq<Call>| #[trigger]
                walk::covers(script, final(self)@.calls) ==> walk::walk_list(
                    script,
                    old(self).css@,
                    *elem,
                    inherited,
                    old(self)@,
                ) == led(r, final(self)@),
        decreases elem, 4int, 0int,
    {
        let (items, hidden) = visible_parts(self.css, elem, Part::Item);
        self.note_drop(hidden);
        let numbers: Vec<i64> = numbers_of(self.css, elem, &items);
        let style: ListStyle = list_style(elem, &numbers);
        let result: Result<Vec<Kept>, ConvertError> = self.walk_items(
            elem,
            &items,
            &numbers,
            inherited,
        );
        let ghost mid = self@;
        let r: Result<(), ConvertError> = match result {
            Err(e) => Err(e),
            Ok(kept) => {
                let mut blocks: Vec<Block> = list_blocks(style, kept);
                proof {
                    model::lemma_block_views_add(self.blocks@, blocks@);
                }
                self.blocks.append(&mut blocks);
                Ok(())
            },
        };
        assert forall|script: Seq<Call>| #[trigger]
            walk::covers(script, self@.calls) implies walk::walk_list(
            script,
            old(self).css@,
            *elem,
            inherited,
            old(self)@,
        ) == led(r, self@) by {
            assert(walk::covers(script, mid.calls));
        }
        r
    }

    fn walk_elem(&mut self, elem: &Element, inherited: Inherited) -> (r: Result<
        (),
        ConvertError,
    >)
        requires
            old(self).wf(),
        ensures
            final(self).continues(old(self)),
            forall|script: Seq<Call>| #[trigger]
                walk::covers(script, final(self)@.calls) ==> walk::walk_elem(
                    script,
                    old(self).css@,
                    *elem,
                    inherited,
                    old(self)@,
                ) == led(r, final(self)@),
        decreases elem, 6int, 0int,
    {
        let props: StyleProps = self.css.element_props(elem);
        if props.hidden {
            self.note_drop(true);
            return Ok(());
        }
        let ghost given = inherited;
        let inherited: Inherited = inherited.merge_props(elem, props);
        match elem_kind(elem.local.as_str()) {
            ElemKind::Heading(level) => {
                self.flush_paragraph();
                self.walk_heading(elem, level, inherited)
            },
            ElemKind::Para => {
                self.flush_paragraph();
                self.walk_para(elem, inherited)
            },
            ElemKind::List => {
                self.flush_paragraph();
                self.parse_list(elem, inherited)
            },
            ElemKind::Table => {
                self.flush_paragraph();
                self.walk_table(elem, inherited)
            },
            ElemKind::Quote => {
                self.flush_paragraph();
                self.walk_quote(elem, inherited)
            },
            ElemKind::Pre => {
                self.flush_paragraph();
                self.push_pre(elem);
                Ok(())
            },
            ElemKind::Rule => {
                self.flush_paragraph();
                self.push_block(Block::Rule);
                Ok(())
            },
            ElemKind::Math => {
                self.push_math(elem);
                Ok(())
            },
            ElemKind::Container => self.walk_container(elem, inherited),
            ElemKind::Ignored => Ok(()),
            ElemKind::Break => {
                self.push_anchor(elem);
                self.push_inline(Inline::LineBreak);
                Ok(())
            },
            ElemKind::Image => {
                self.push_anchor(elem);
                let ghost mid = self@;
                let r: Result<(), ConvertError> = self.push_image(elem);
                assert forall|script: Seq<Call>| #[trigger]
                    walk::covers(script, self@.calls) implies walk::walk_elem(
                    script,
                    old(self).css@,
                    *elem,
                    given,
                    old(self)@,
                ) == led(r, self@) by {
                    assert(walk::covers(script, mid.calls));
                }
                r
            },
            ElemKind::Link => {
                self.push_anchor(elem);
                let ghost mid = self@;
                let r: Result<(), ConvertError> = self.walk_link(elem, inherited);
                assert forall|script: Seq<Call>| #[trigger]
                    walk::covers(script, self@.calls) implies walk::walk_elem(
                    script,
                    old(self).css@,
                    *elem,
                    given,
                    old(self)@,
                ) == led(r, self@) by {
                    assert(walk::covers(script, mid.calls));
                }
                r
            },
            ElemKind::Inline => {
                self.push_anchor(elem);
                let ghost mid = self@;
                let r: Result<(), ConvertError> = self.walk_children(elem, inherited);
                assert forall|script: Seq<Call>| #[trigger]
                    walk::covers(script, self@.calls) implies walk::walk_elem(
                    script,
                    old(self).css@,
                    *elem,
                    given,
                    old(self)@,
                ) == led(r, self@) by {
                    assert(walk::covers(script, mid.calls));
                }
                r
            },
        }
    }

    fn walk_cells(
        &mut self,
        tr: &Element,
        cells: &Vec<usize>,
        left: u32,
        inherited: Inherited,
        grid: &mut GridBuilder,
    ) -> (r: Result<(), ConvertError>)
        requires
            old(self).wf(),
            old(grid)@.bounded(),
            old(grid)@.open,
            cells@ == rows::cells_of(old(self).css@, *tr),
        ensures
            final(self).continues(old(self)),
            r is Ok ==> final(grid)@.bounded(),
            forall|script: Seq<Call>| #[trigger]
                walk::covers(script, final(self)@.calls) ==> placed(
                    walk::walk_cells(
                        script,
                        old(self).css@,
                        *tr,
                        cells@,
                        cells@.len() as int,
                        left,
                        inherited,
                        Cells { grid: old(grid)@, run: old(self)@ },
                    ),
                    r,
                    final(grid)@,
                    final(self)@,
                ),
        decreases tr, 3int, 0int,
    {
        let ghost was = self@;
        let ghost rules = self.css@;
        let ghost g0 = grid@;
        let mut k: usize = 0;
        while k < cells.len()
            invariant
                k <= cells@.len(),
                self.continues(old(self)),
                rules == self.css@,
                was == old(self)@,
                g0 == old(grid)@,
                grid@.bounded(),
                grid@.open,
                cells@ == rows::cells_of(rules, *tr),
                forall|script: Seq<Call>| #[trigger]
                    walk::covers(script, self@.calls) ==> walk::walk_cells(
                        script,
                        rules,
                        *tr,
                        cells@,
                        k as int,
                        left,
                        inherited,
                        Cells { grid: g0, run: was },
                    ) == Ok::<Cells, Stopped>(Cells { grid: grid@, run: self@ }),
            decreases cells@.len() - k,
        {
            proof {
                rows::lemma_visible(rules, *tr, Part::Cell);
                rows::lemma_elem_at(*tr, cells@[k as int] as int);
                assert(rows::elem_at(tr.children@, cells@[k as int] as int) is Some);
            }
            let ghost mid = self@;
            if let Node::Elem(cell) = &tr.children[cells[k]] {
                let own: Inherited = inherited.merge_props(cell, self.css.element_props(cell));
                let cols: u32 = col_span(cell);
                let lines: u32 = row_span(cell, left);
                let inner: Result<Vec<Block>, ConvertError> = self.sub_blocks_at(cell, own, true);
                let r: Result<(), ConvertError> = match inner {
                    Err(e) => Err(e),
                    Ok(blocks) => grid.place(Cell::spanning(blocks, cols, lines)),
                };
                assert forall|script: Seq<Call>| #[trigger]
                    walk::covers(script, self@.calls) implies placed(
                    walk::walk_cells(
                        script,
                        rules,
                        *tr,
                        cells@,
                        k + 1,
                        left,
                        inherited,
                        Cells { grid: g0, run: was },
                    ),
                    r,
                    grid@,
                    self@,
                ) by {
                    assert(walk::covers(script, mid.calls));
                }
                if let Err(e) = r {
                    proof {
                        assert forall|script: Seq<Call>| #[trigger]
                            walk::covers(script, self@.calls) implies placed(
                            walk::walk_cells(
                                script,
                                rules,
                                *tr,
                                cells@,
                                cells@.len() as int,
                                left,
                                inherited,
                                Cells { grid: g0, run: was },
                            ),
                            r,
                            grid@,
                            self@,
                        ) by {
                            lemma_cells_stopped(
                                script,
                                rules,
                                *tr,
                                cells@,
                                k + 1,
                                cells@.len() as int,
                                left,
                                inherited,
                                Cells { grid: g0, run: was },
                            );
                        }
                    }
                    return Err(e);
                }
            }
            k += 1;
        }
        Ok(())
    }

    /// Place the given rows into a grid. Also counts the rows at the top that
    /// are declared headers.
    fn walk_rows(
        &mut self,
        table: &Element,
        all: &Vec<RowAt>,
        inherited: Inherited,
        grid: &mut GridBuilder,
    ) -> (r: Result<usize, ConvertError>)
        requires
            old(self).wf(),
            old(grid)@.bounded(),
            rows::all_rows(*table, all@),
        ensures
            final(self).continues(old(self)),
            r is Ok ==> final(grid)@.bounded(),
            r matches Ok(headers) ==> headers == rows::declared_headers(
                old(self).css@,
                *table,
                all@,
                all@.len() as int,
            ),
            forall|script: Seq<Call>| #[trigger]
                walk::covers(script, final(self)@.calls) ==> placed(
                    walk::walk_rows(
                        script,
                        old(self).css@,
                        *table,
                        all@,
                        all@.len() as int,
                        inherited,
                        Cells { grid: old(grid)@, run: old(self)@ },
                    ),
                    match r {
                        Ok(_) => Ok(()),
                        Err(e) => Err(e),
                    },
                    final(grid)@,
                    final(self)@,
                ),
        decreases table, 4int, 0int,
    {
        let ghost was = self@;
        let ghost rules = self.css@;
        let ghost g0 = grid@;
        let mut headers: usize = 0;
        let mut i: usize = 0;
        while i < all.len()
            invariant
                headers <= i <= all@.len(),
                self.continues(old(self)),
                rules == self.css@,
                was == old(self)@,
                g0 == old(grid)@,
                grid@.bounded(),
                rows::all_rows(*table, all@),
                headers == rows::declared_headers(rules, *table, all@, i as int),
                forall|script: Seq<Call>| #[trigger]
                    walk::covers(script, self@.calls) ==> walk::walk_rows(
                        script,
                        rules,
                        *table,
                        all@,
                        i as int,
                        inherited,
                        Cells { grid: g0, run: was },
                    ) == Ok::<Cells, Stopped>(Cells { grid: grid@, run: self@ }),
            decreases all@.len() - i,
        {
            let at: RowAt = all[i];
            proof {
                rows::lemma_row_elem(*table, all@[i as int]);
            }
            let ghost mid = self@;
            if let Some(tr) = row_at(table, at) {
                grid.next_row();
                let (cells, hidden) = visible_parts(self.css, tr, Part::Cell);
                self.note_drop(hidden);
                let left: u32 = rows_to_group_end(all, i);
                let own: Inherited = row_inherited(self.css, table, at, inherited);
                let r: Result<(), ConvertError> = self.walk_cells(tr, &cells, left, own, grid);
                assert forall|script: Seq<Call>| #[trigger]
                    walk::covers(script, self@.calls) implies placed(
                    walk::walk_rows(
                        script,
                        rules,
                        *table,
                        all@,
                        i + 1,
                        inherited,
                        Cells { grid: g0, run: was },
                    ),
                    r,
                    grid@,
                    self@,
                ) by {
                    assert(walk::covers(script, mid.calls));
                }
                if let Err(e) = r {
                    proof {
                        assert forall|script: Seq<Call>| #[trigger]
                            walk::covers(script, self@.calls) implies placed(
                            walk::walk_rows(
                                script,
                                rules,
                                *table,
                                all@,
                                all@.len() as int,
                                inherited,
                                Cells { grid: g0, run: was },
                            ),
                            r,
                            grid@,
                            self@,
                        ) by {
                            lemma_rows_stopped(
                                script,
                                rules,
                                *table,
                                all@,
                                i + 1,
                                all@.len() as int,
                                inherited,
                                Cells { grid: g0, run: was },
                            );
                        }
                    }
                    return Err(e);
                }
                if i == headers && is_header(tr, &cells, at.head) {
                    headers += 1;
                }
            }
            i += 1;
        }
        Ok(headers)
    }

    fn walk_caption(&mut self, table: &Element, inherited: Inherited) -> (r: Result<
        (),
        ConvertError,
    >)
        requires
            old(self).wf(),
        ensures
            final(self).continues(old(self)),
            forall|script: Seq<Call>| #[trigger]
                walk::covers(script, final(self)@.calls) ==> walk::walk_caption(
                    script,
                    old(self).css@,
                    *table,
                    inherited,
                    old(self)@,
                ) == led(r, final(self)@),
        decreases table, 4int, 0int,
    {
        let ghost was = self@;
        if let Some(caption) = first_child(table, "caption") {
            let props: StyleProps = self.css.element_props(caption);
            if props.hidden {
                self.note_drop(true);
                return Ok(());
            }
            proof {
                if let Some(i) = rows::first_named(table.children@, "caption"@, 0) {
                    rows::lemma_elem_at(*table, i);
                }
            }
            let own: Inherited = inherited.merge_props(caption, props);
            let line: Result<Vec<Inline>, ConvertError> = self.inline_children_at(
                caption,
                own,
                true,
            );
            let ghost mid = self@;
            let r: Result<(), ConvertError> = match line {
                Err(e) => Err(e),
                Ok(line) => {
                    self.push_paragraph(line);
                    Ok(())
                },
            };
            assert forall|script: Seq<Call>| #[trigger]
                walk::covers(script, self@.calls) implies walk::walk_caption(
                script,
                old(self).css@,
                *table,
                inherited,
                was,
            ) == led(r, self@) by {
                assert(walk::covers(script, mid.calls));
            }
            r
        } else {
            Ok(())
        }
    }

    fn push_table(&mut self, table: Table, declared: usize)
        requires
            old(self).wf(),
            table@.kind == TableKind::Data,
            table@.header_rows == 0,
        ensures
            final(self).continues(old(self)),
            forall|script: Seq<Call>| #[trigger]
                walk::covers(script, final(self)@.calls) ==> walk::with_table(
                    script,
                    table@.grid,
                    declared,
                    old(self)@,
                ) == final(self)@,
    {
        let ghost was = self@;
        let ghost tv = table@;
        if table.grid.len() == 0 {
            return;
        }
        let headers: usize = self.ask_headers(&table, declared);
        let mut table = table;
        table.header_rows = headers;
        self.push_block(Block::Table(table));
        assert forall|script: Seq<Call>| #[trigger]
            walk::covers(script, self@.calls) implies walk::with_table(
            script,
            tv.grid,
            declared,
            was,
        ) == self@ by {
            assert(script[was.at()] == self@.calls[was.at()]);
        }
    }

    fn walk_table(&mut self, elem: &Element, inherited: Inherited) -> (r: Result<
        (),
        ConvertError,
    >)
        requires
            old(self).wf(),
        ensures
            final(self).continues(old(self)),
            forall|script: Seq<Call>| #[trigger]
                walk::covers(script, final(self)@.calls) ==> walk::walk_table(
                    script,
                    old(self).css@,
                    *elem,
                    inherited,
                    old(self)@,
                ) == led(r, final(self)@),
        decreases elem, 5int, 0int,
    {
        let ghost was = self@;
        let ghost rules = self.css@;
        if let Err(e) = self.walk_caption(elem, inherited) {
            return Err(e);
        }
        let ghost captioned = self@;
        let (all, hidden) = collect_rows(self.css, elem);
        self.note_drop(hidden);
        let mut grid = GridBuilder::new();
        let result: Result<usize, ConvertError> = self.walk_rows(elem, &all, inherited, &mut grid);
        let ghost mid = self@;
        let r: Result<(), ConvertError> = match result {
            Err(e) => Err(e),
            Ok(headers) => {
                self.push_table(grid.finish(TableKind::Data), headers);
                Ok(())
            },
        };
        assert forall|script: Seq<Call>| #[trigger]
            walk::covers(script, self@.calls) implies walk::walk_table(
            script,
            rules,
            *elem,
            inherited,
            was,
        ) == led(r, self@) by {
            assert(walk::covers(script, mid.calls));
            assert(walk::covers(script, captioned.calls));
        }
        r
    }
}

/// Whether placing cells that came to `c` left the grid and the walk there.
spec fn placed(
    c: Result<Cells, Stopped>,
    r: Result<(), ConvertError>,
    grid: Grid,
    now: Run,
) -> bool {
    match r {
        Ok(_) => c == Ok::<Cells, Stopped>(Cells { grid, run: now }),
        Err(error) => c == Err::<Cells, Stopped>(Stopped { error, calls: now.calls }),
    }
}

proof fn lemma_cells_stopped(
    script: Seq<Call>,
    rules: Seq<RuleText>,
    tr: Element,
    cells: Seq<usize>,
    n: int,
    m: int,
    left: u32,
    inh: Inherited,
    c: Cells,
)
    requires
        0 < n <= m,
        walk::walk_cells(script, rules, tr, cells, n, left, inh, c) is Err,
    ensures
        walk::walk_cells(script, rules, tr, cells, m, left, inh, c) == walk::walk_cells(
            script,
            rules,
            tr,
            cells,
            n,
            left,
            inh,
            c,
        ),
    decreases m,
{
    if n < m {
        lemma_cells_stopped(script, rules, tr, cells, n, m - 1, left, inh, c);
    }
}

proof fn lemma_rows_stopped(
    script: Seq<Call>,
    rules: Seq<RuleText>,
    table: Element,
    all: Seq<RowAt>,
    n: int,
    m: int,
    inh: Inherited,
    c: Cells,
)
    requires
        0 < n <= m,
        walk::walk_rows(script, rules, table, all, n, inh, c) is Err,
    ensures
        walk::walk_rows(script, rules, table, all, m, inh, c) == walk::walk_rows(
            script,
            rules,
            table,
            all,
            n,
            inh,
            c,
        ),
    decreases m,
{
    if n < m {
        lemma_rows_stopped(script, rules, table, all, n, m - 1, inh, c);
    }
}

/// An error among the first children stays the outcome.
proof fn lemma_stopped(
    script: Seq<Call>,
    rules: Seq<RuleText>,
    elem: Element,
    n: int,
    m: int,
    inh: Inherited,
    r: Run,
)
    requires
        0 < n <= m <= elem.children@.len(),
        walk::walk_nodes(script, rules, elem, n, inh, r) is Err,
    ensures
        walk::walk_nodes(script, rules, elem, m, inh, r) == walk::walk_nodes(
            script,
            rules,
            elem,
            n,
            inh,
            r,
        ),
    decreases m,
{
    if n < m {
        lemma_stopped(script, rules, elem, n, m - 1, inh, r);
    }
}

proof fn lemma_items_stopped(
    script: Seq<Call>,
    rules: Seq<RuleText>,
    elem: Element,
    items: Seq<usize>,
    numbers: Seq<i64>,
    n: int,
    m: int,
    inh: Inherited,
    r: Run,
)
    requires
        0 < n <= m,
        walk::walk_items(script, rules, elem, items, numbers, n, inh, r) is Err,
    ensures
        walk::walk_items(script, rules, elem, items, numbers, m, inh, r) == walk::walk_items(
            script,
            rules,
            elem,
            items,
            numbers,
            n,
            inh,
            r,
        ),
    decreases m,
{
    if n < m {
        lemma_items_stopped(script, rules, elem, items, numbers, n, m - 1, inh, r);
    }
}

/// The numbers of a list's items.
fn numbers_of(css: &Stylesheet, elem: &Element, items: &Vec<usize>) -> (r: Vec<i64>)
    requires
        items@ == walk::items_of(css@, *elem),
    ensures
        r@ == walk::item_numbers(*elem, items@),
{
    let ghost goal = walk::values_of(*elem, items@);
    let mut values: Vec<Option<i64>> = Vec::new();
    let mut k: usize = 0;
    while k < items.len()
        invariant
            k <= items@.len(),
            items@ == walk::items_of(css@, *elem),
            goal == walk::values_of(*elem, items@),
            values@ == goal.take(k as int),
        decreases items@.len() - k,
    {
        proof {
            rows::lemma_visible(css@, *elem, Part::Item);
            assert(rows::elem_at(elem.children@, items@[k as int] as int) is Some);
        }
        let value: Option<i64> = match &elem.children[items[k]] {
            Node::Elem(li) => integer_attr(li, "value"),
            Node::Text(_) => None,
        };
        values.push(value);
        k += 1;
        assert(values@ =~= goal.take(k as int));
    }
    assert(goal.take(k as int) =~= goal);
    let reversed: bool = elem.attr_any("reversed").is_some();
    let start: i64 = match integer_attr(elem, "start") {
        Some(n) => n,
        None => if reversed {
            items.len() as i64
        } else {
            1
        },
    };
    number_items(&values, start, reversed)
}

/// How a list's items are put into list blocks.
fn list_style(elem: &Element, numbers: &Vec<i64>) -> (r: ListStyle)
    ensures
        r == walk::style_of(*elem, numbers@),
{
    if !same_text(elem.local.as_str(), "ol") {
        return ListStyle::Bulleted;
    }
    let mut k: usize = 0;
    while k < numbers.len()
        invariant
            k <= numbers@.len(),
            elem.local@ == "ol"@,
            forall|j: int| 0 <= j < k ==> (#[trigger] numbers@[j]) >= 1,
        decreases numbers@.len() - k,
    {
        if numbers[k] < 1 {
            assert(numbers@[k as int] < 1);
            return ListStyle::Labelled(marker(elem));
        }
        k += 1;
    }
    ListStyle::Counted(marker(elem))
}

/// The anchors among inlines.
fn only_anchors(content: Vec<Inline>) -> (r: Vec<Inline>)
    ensures
        model::inline_views(r@) == walk::anchors_in(model::inline_views(content@)),
{
    let ghost given = content@;
    let ghost all = model::inline_views(given);
    let ghost is_anchor = |i: InlineView| i is Anchor;
    let mut out: Vec<Inline> = Vec::new();
    proof {
        reveal_with_fuel(Seq::filter, 2);
        assert(all.take(0) =~= Seq::empty());
        assert(model::inline_views(out@) =~= all.take(0).filter(is_anchor));
    }
    for inline in it: content
        invariant
            it.seq() == given,
            all == model::inline_views(given),
            is_anchor == (|i: InlineView| i is Anchor),
            model::inline_views(out@) == all.take(it.index() as int).filter(is_anchor),
    {
        let ghost i = it.index() as int;
        proof {
            assert(all[i] == model::inline_view(inline));
            assert(all.take(i + 1).drop_last() =~= all.take(i));
            assert(all.take(i + 1).last() == all[i]);
            reveal_with_fuel(Seq::filter, 2);
        }
        if let Inline::Anchor(id) = inline {
            let anchor = Inline::Anchor(id);
            proof {
                model::lemma_inline_views_push(out@, anchor);
            }
            out.push(anchor);
        }
    }
    assert(all.take(given.len() as int) =~= all);
    out
}

/// Whether a conversion that asked `calls`, and got the answers in them, comes
/// to `r`.
pub open spec fn converts(
    calls: Seq<Call>,
    rules: Seq<RuleText>,
    body: Element,
    r: Result<Vec<Block>, ConvertError>,
) -> bool {
    match r {
        Ok(blocks) => walk::walk_body(calls, rules, body) matches Ok(run) && run.blocks
            == model::block_views(blocks@) && run.calls == calls,
        Err(error) => walk::walk_body(calls, rules, body) == Err::<Run, Stopped>(
            Stopped { error, calls },
        ),
    }
}

/// The blocks of a body, with hooks whose type is known: what that type
/// promises of its answers holds of those in the result.
pub fn convert<C: HtmlCtx + ?Sized>(body: &Element, css: &Stylesheet, ctx: &C) -> (r: Result<
    Vec<Block>,
    ConvertError,
>)
    ensures
        exists|calls: Seq<Call>| #[trigger]
            hooks::all_said(ctx, calls) && converts(calls, css@, *body, r),
        cascade::resolved(css@, *body).hidden ==> (r matches Ok(blocks) && blocks@.len() == 0),
{
    let ghost none: Seq<Call> = Seq::empty();
    // `<body>` itself never goes through `walk_elem`, so its own hiding
    // declarations would otherwise be silently ignored; its own delta is
    // threaded in as the initial one for the same reason `walk_elem` does
    // for every other element.
    let props: StyleProps = css.element_props(body);
    if props.hidden {
        let blocks: Vec<Block> = Vec::new();
        proof {
            assert(model::block_views(blocks@) =~= Seq::empty());
            assert(hooks::all_said(ctx, none));
        }
        return Ok(blocks);
    }
    let mut builder = Builder {
        blocks: Vec::new(),
        inlines: Vec::new(),
        css,
        ctx,
        start_boundary: true,
        dropped_hidden: false,
        calls: Ghost(none),
    };
    proof {
        assert(model::block_views(builder.blocks@) =~= Seq::empty());
        assert(model::inline_views(builder.inlines@) =~= Seq::empty());
        assert(builder@ == Run::new());
    }
    let r: Result<Vec<Block>, ConvertError> = builder.sub_blocks_at(
        body,
        Inherited::root().merge(props),
        true,
    );
    proof {
        let calls = builder.calls@;
        assert(hooks::all_said(ctx, calls));
        assert(walk::covers(calls, builder@.calls));
        assert(converts(calls, css@, *body, r));
    }
    r
}

/// The blocks of a body. What the hooks answer decides which ids, targets and
/// texts are in them; everything else follows from the body and the
/// stylesheet. Of hooks behind a `dyn` no more is known than that they
/// answered; [`convert`] is the same for hooks of one type.
pub fn to_blocks(body: &Element, css: &Stylesheet, ctx: &dyn HtmlCtx) -> (r: Result<
    Vec<Block>,
    ConvertError,
>)
    ensures
        exists|calls: Seq<Call>| #[trigger]
            hooks::all_said(ctx, calls) && converts(calls, css@, *body, r),
        cascade::resolved(css@, *body).hidden ==> (r matches Ok(blocks) && blocks@.len() == 0),
{
    convert(body, css, ctx)
}

} // verus!
