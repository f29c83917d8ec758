//! What taking text apart promises: words are what white space separates, and
//! collapsing, trimming and lower-casing keep them.

use crate::chars;
use crate::chars::CharClass;
use vstd::prelude::*;

verus! {

/// Whether `s` has no white space in it.
pub open spec fn solid(s: Seq<char>) -> bool {
    forall|i: int| 0 <= i < s.len() ==> !chars::white_space(#[trigger] s[i])
}

/// Whether `s` is nothing but white space.
pub open spec fn blank(s: Seq<char>) -> bool {
    forall|i: int| 0 <= i < s.len() ==> chars::white_space(#[trigger] s[i])
}

/// Whether text ends inside a word.
pub open spec fn ends_in_a_word(s: Seq<char>) -> bool {
    s.len() > 0 && !chars::white_space(s.last())
}

/// Text without white space is one word, and white space alone is none.
pub proof fn law_solid_text_is_one_word(s: Seq<char>)
    ensures
        solid(s) && s.len() > 0 ==> chars::words(s) == seq![s],
        blank(s) ==> chars::words(s) == Seq::<Seq<char>>::empty(),
    decreases s.len(),
{
    if solid(s) && s.len() > 0 {
        chars::lemma_first(s, CharClass::Space, false, 0);
        assert(s.skip(0) =~= s);
        chars::lemma_first(s, CharClass::Space, true, s.len() as int);
        assert(s.take(s.len() as int) =~= s);
        let rest = s.skip(s.len() as int);
        assert(rest.len() == 0);
        law_solid_text_is_one_word(rest);
        assert(chars::words(s) =~= seq![s]);
    } else if blank(s) {
        chars::lemma_first(s, CharClass::Space, false, s.len() as int);
    }
}

/// A character at the end: white space ends the last word and adds none;
/// anything else goes on with the last word, or starts one behind white space.
pub proof fn law_words_grow_at_the_end(s: Seq<char>, c: char)
    ensures
        ends_in_a_word(s) ==> chars::words(s).len() > 0,
        chars::white_space(c) ==> chars::words(s.push(c)) == chars::words(s),
        !chars::white_space(c) && !ends_in_a_word(s) ==> chars::words(s.push(c)) == chars::words(
            s,
        ).push(seq![c]),
        !chars::white_space(c) && ends_in_a_word(s) ==> chars::words(s.push(c)) == chars::words(
            s,
        ).drop_last().push(chars::words(s).last().push(c)),
    decreases s.len(),
{
    let f = chars::first(s, CharClass::Space, false) as int;
    chars::lemma_first_is(s, CharClass::Space, false);
    let t = chars::trim_start_of(s, CharClass::Space);
    let more = s.push(c);
    if t.len() == 0 {
        assert(blank(s));
        law_solid_text_is_one_word(s);
        if chars::white_space(c) {
            assert forall|i: int| 0 <= i < more.len() implies chars::white_space(
                #[trigger] more[i],
            ) by {
                if i < s.len() {
                    assert(more[i] == s[i]);
                }
            }
            law_solid_text_is_one_word(more);
        } else {
            assert forall|j: int| 0 <= j < s.len() implies CharClass::Space.has(#[trigger] more[j])
                != false by {
                assert(more[j] == s[j]);
            }
            chars::lemma_first(more, CharClass::Space, false, s.len() as int);
            let one = seq![c];
            assert(more.skip(s.len() as int) =~= one);
            law_solid_text_is_one_word(one);
            chars::lemma_first(one, CharClass::Space, false, 0);
            assert(one.skip(0) =~= one);
            chars::lemma_first(one, CharClass::Space, true, 1);
            assert(one.take(1) =~= one);
            law_solid_text_is_one_word(one.skip(1));
            assert(chars::words(more) =~= seq![one]);
            assert(chars::words(s).push(one) =~= seq![one]);
        }
    } else {
        assert forall|j: int| 0 <= j < f implies CharClass::Space.has(#[trigger] more[j])
            != false by {
            assert(more[j] == s[j]);
        }
        chars::lemma_first(more, CharClass::Space, false, f);
        let u = t.push(c);
        assert(more.skip(f) =~= u);
        let k = chars::first(t, CharClass::Space, true) as int;
        chars::lemma_first_is(t, CharClass::Space, true);
        assert(t[0] == s[f]);
        assert(k > 0);
        let rest = t.skip(k);
        if k < t.len() {
            assert forall|j: int| 0 <= j < k implies CharClass::Space.has(#[trigger] u[j])
                != true by {
                assert(u[j] == t[j]);
            }
            chars::lemma_first(u, CharClass::Space, true, k);
            assert(u.take(k) =~= t.take(k));
            assert(u.skip(k) =~= rest.push(c));
            law_words_grow_at_the_end(rest, c);
            assert(rest.last() == s.last());
            if ends_in_a_word(s) {
                assert(chars::words(s).drop_last() =~= seq![t.take(k)] + chars::words(
                    rest,
                ).drop_last());
                if !chars::white_space(c) {
                    assert(chars::words(more) =~= chars::words(s).drop_last().push(
                        chars::words(s).last().push(c),
                    ));
                }
            } else if !chars::white_space(c) {
                assert(chars::words(more) =~= chars::words(s).push(seq![c]));
            }
        } else {
            assert(t.take(k) =~= t);
            law_solid_text_is_one_word(rest);
            assert(chars::words(s) =~= seq![t]);
            assert(s.last() == t.last());
            assert(!CharClass::Space.has(t[t.len() - 1]));
            if chars::white_space(c) {
                assert forall|j: int| 0 <= j < k implies CharClass::Space.has(#[trigger] u[j])
                    != true by {
                    assert(u[j] == t[j]);
                }
                chars::lemma_first(u, CharClass::Space, true, k);
                assert(u.take(k) =~= t);
                law_solid_text_is_one_word(u.skip(k));
                assert(chars::words(more) =~= seq![t]);
            } else {
                assert forall|j: int| 0 <= j < k + 1 implies CharClass::Space.has(#[trigger] u[j])
                    != true by {
                    if j < k {
                        assert(u[j] == t[j]);
                    }
                }
                chars::lemma_first(u, CharClass::Space, true, k + 1);
                assert(u.take(k + 1) =~= u);
                law_solid_text_is_one_word(u.skip(k + 1));
                assert(chars::words(more) =~= seq![u]);
                assert(chars::words(s).drop_last().push(u) =~= seq![u]);
            }
        }
    }
}

/// White space between two texts keeps their words apart.
pub proof fn law_white_space_separates_words(a: Seq<char>, w: char, b: Seq<char>)
    requires
        chars::white_space(w),
    ensures
        chars::words(a.push(w) + b) == chars::words(a) + chars::words(b),
    decreases b.len(),
{
    if b.len() == 0 {
        assert(a.push(w) + b =~= a.push(w));
        law_words_grow_at_the_end(a, w);
        law_solid_text_is_one_word(b);
        assert(chars::words(a) + chars::words(b) =~= chars::words(a));
    } else {
        let rest = b.drop_last();
        let c = b.last();
        let before = a.push(w) + rest;
        law_white_space_separates_words(a, w, rest);
        assert(b =~= rest.push(c));
        assert(a.push(w) + b =~= before.push(c));
        law_words_grow_at_the_end(before, c);
        law_words_grow_at_the_end(rest, c);
        assert(ends_in_a_word(before) == ends_in_a_word(rest)) by {
            if rest.len() > 0 {
                assert(before.last() == rest.last());
            } else {
                assert(before.last() == w);
            }
        }
        if chars::white_space(c) {
        } else if ends_in_a_word(rest) {
            assert((chars::words(a) + chars::words(rest)).drop_last() =~= chars::words(a)
                + chars::words(rest).drop_last());
            assert(chars::words(a.push(w) + b) =~= chars::words(a) + chars::words(b));
        } else {
            assert(chars::words(a.push(w) + b) =~= chars::words(a) + chars::words(b));
        }
    }
}

/// Collapsing keeps every word, in order, and keeps them apart.
pub proof fn law_collapsing_keeps_the_words(s: Seq<char>)
    ensures
        chars::words(chars::collapse(s)) == chars::words(s),
    decreases s.len(),
{
    if s.len() > 0 {
        let rest = s.drop_last();
        let before = chars::collapse(rest);
        law_collapsing_keeps_the_words(rest);
        assert(s =~= rest.push(s.last()));
        law_words_grow_at_the_end(rest, s.last());
        law_words_grow_at_the_end(before, s.last());
        law_words_grow_at_the_end(before, ' ');
        law_collapsing_keeps_the_ends(rest);
    }
}

/// Collapsed text is empty, starts with white space and ends with white space
/// exactly where the text itself does.
pub proof fn law_collapsing_keeps_the_ends(s: Seq<char>)
    ensures
        (chars::collapse(s).len() == 0) == (s.len() == 0),
        s.len() > 0 ==> chars::white_space(chars::collapse(s)[0]) == chars::white_space(s[0]),
        s.len() > 0 ==> chars::white_space(chars::collapse(s).last()) == chars::white_space(
            s.last(),
        ),
    decreases s.len(),
{
    if s.len() > 0 {
        law_collapsing_keeps_the_ends(s.drop_last());
        if s.len() > 1 {
            assert(s.drop_last()[0] == s[0]);
            assert(s.drop_last().last() == s[s.len() - 2]);
        } else {
            assert(s.drop_last() =~= Seq::empty());
            assert(chars::collapse(s).len() == 1);
        }
    }
}

/// Between two pieces of text that neither end nor start with white space,
/// any run of white space collapses to one space, and each piece collapses as
/// it would alone.
pub proof fn law_one_space_between(a: Seq<char>, space: Seq<char>, b: Seq<char>)
    requires
        blank(space),
        space.len() > 0,
        a.len() > 0 ==> !chars::white_space(a.last()),
        b.len() > 0 ==> !chars::white_space(b[0]),
    ensures
        chars::collapse(a + space + b) == chars::collapse(a).push(' ') + chars::collapse(b),
    decreases b.len(), space.len(),
{
    if b.len() > 0 {
        let rest = b.drop_last();
        law_one_space_between(a, space, rest);
        let whole = a + space + b;
        assert(whole.drop_last() =~= a + space + rest);
        assert(whole.last() == b.last());
        if chars::white_space(b.last()) {
            assert(whole[whole.len() - 2] == b[b.len() - 2]);
        }
        assert(chars::collapse(whole) =~= chars::collapse(a).push(' ') + chars::collapse(b));
    } else if space.len() > 1 {
        let fewer = space.drop_last();
        assert forall|i: int| 0 <= i < fewer.len() implies chars::white_space(
            #[trigger] fewer[i],
        ) by {
            assert(fewer[i] == space[i]);
        }
        law_one_space_between(a, fewer, b);
        let whole = a + space + b;
        assert(whole.drop_last() =~= a + fewer + b);
        assert(whole.last() == space[space.len() - 1]);
        assert(whole[whole.len() - 2] == space[space.len() - 2]);
    } else {
        let whole = a + space + b;
        assert(whole =~= a.push(space[0]));
        assert(whole.drop_last() =~= a);
        assert(chars::collapse(b) =~= Seq::empty());
        assert(chars::collapse(whole) =~= chars::collapse(a).push(' ') + chars::collapse(b));
    }
}

/// White space at either end is what trimming takes away, and all it takes
/// away.
pub proof fn law_trimming_takes_the_ends(before: Seq<char>, s: Seq<char>, behind: Seq<char>)
    requires
        blank(before),
        blank(behind),
        s.len() > 0 ==> !chars::white_space(s[0]) && !chars::white_space(s.last()),
    ensures
        chars::trim(before + s + behind) == s,
    decreases behind.len(),
{
    let whole = before + s + behind;
    if behind.len() > 0 {
        let less = behind.drop_last();
        assert forall|i: int| 0 <= i < less.len() implies chars::white_space(
            #[trigger] less[i],
        ) by {
            assert(less[i] == behind[i]);
        }
        law_trimming_takes_the_ends(before, s, less);
        let w = behind.last();
        assert(whole =~= (before + s + less).push(w));
        assert(chars::white_space(behind[behind.len() - 1]));
        lemma_trim_push(before + s + less, w);
    } else if s.len() > 0 {
        assert forall|j: int| 0 <= j < before.len() implies CharClass::Space.has(
            #[trigger] whole[j],
        ) != false by {
            assert(whole[j] == before[j]);
        }
        assert(whole[before.len() as int] == s[0]);
        chars::lemma_first(whole, CharClass::Space, false, before.len() as int);
        assert(whole.skip(before.len() as int) =~= s);
    } else {
        assert forall|j: int| 0 <= j < whole.len() implies CharClass::Space.has(
            #[trigger] whole[j],
        ) != false by {
            assert(whole[j] == before[j]);
        }
        chars::lemma_first(whole, CharClass::Space, false, whole.len() as int);
        assert(whole.skip(whole.len() as int) =~= s);
    }
}

proof fn lemma_trim_push(s: Seq<char>, w: char)
    requires
        chars::white_space(w),
    ensures
        chars::trim(s.push(w)) == chars::trim(s),
{
    let f = chars::first(s, CharClass::Space, false) as int;
    chars::lemma_first_is(s, CharClass::Space, false);
    let more = s.push(w);
    assert forall|j: int| 0 <= j < f implies CharClass::Space.has(#[trigger] more[j]) != false by {
        assert(more[j] == s[j]);
    }
    if f < s.len() {
        assert(more[f] == s[f]);
        chars::lemma_first(more, CharClass::Space, false, f);
        assert(more.skip(f) =~= s.skip(f).push(w));
        assert(s.skip(f).push(w).drop_last() =~= s.skip(f));
    } else {
        chars::lemma_first(more, CharClass::Space, false, f + 1);
        assert(more.skip(f + 1) =~= s.skip(f));
    }
}

/// Lower-casing goes character by character and changes the capitals from `A`
/// to `Z` alone.
pub proof fn law_lower_casing(s: Seq<char>, i: int)
    requires
        0 <= i < s.len(),
    ensures
        chars::lower(s).len() == s.len(),
        !('A' <= s[i] <= 'Z') ==> chars::lower(s)[i] == s[i],
        'A' <= s[i] <= 'Z' ==> chars::lower(s)[i] as u32 - 'a' as u32 == s[i] as u32 - 'A' as u32,
        chars::lower(chars::lower(s)) == chars::lower(s),
{
    assert forall|c: char| 'A' <= c <= 'Z' implies 'a' <= #[trigger] chars::lower_char(c)
        <= 'z' by {
    }
    assert(chars::lower(chars::lower(s)) =~= chars::lower(s));
}

} // verus!
