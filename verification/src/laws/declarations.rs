//! What the text of a declaration promises: white space and case do not count,
//! and a mark of importance moves it into the higher tier.

use crate::chars;
use crate::chars::CharClass;
use crate::css;
use crate::css::DeclProps;
use crate::laws;
use crate::laws::cascade::Property;
use vstd::prelude::*;

verus! {

/// Whether `s` neither starts nor ends with white space.
pub open spec fn trimmed(s: Seq<char>) -> bool {
    s.len() > 0 ==> !chars::white_space(s[0]) && !chars::white_space(s.last())
}

proof fn lemma_lower_chars()
    ensures
        forall|c: char|
            chars::white_space(#[trigger] chars::lower_char(c)) == chars::white_space(c),
        forall|c: char| (#[trigger] chars::lower_char(c) == '!') == (c == '!'),
        forall|c: char| (#[trigger] chars::lower_char(c) == ':') == (c == ':'),
        forall|c: char| (#[trigger] chars::lower_char(c) == ';') == (c == ';'),
{
}

proof fn lemma_lower_joins(a: Seq<char>, b: Seq<char>)
    ensures
        chars::lower(a + b) == chars::lower(a) + chars::lower(b),
{
    assert(chars::lower(a + b) =~= chars::lower(a) + chars::lower(b));
}

proof fn lemma_lower_trimmed(s: Seq<char>)
    ensures
        trimmed(chars::lower(s)) == trimmed(s),
        laws::words::blank(chars::lower(s)) == laws::words::blank(s),
{
    lemma_lower_chars();
    if s.len() > 0 {
        assert(chars::lower(s).last() == chars::lower_char(s.last()));
    }
    if laws::words::blank(chars::lower(s)) {
        assert forall|i: int| 0 <= i < s.len() implies chars::white_space(#[trigger] s[i]) by {
            assert(chars::white_space(chars::lower(s)[i]));
        }
    }
}

proof fn lemma_joined_free(a: Seq<char>, b: Seq<char>, class: CharClass)
    requires
        laws::css::free_of(a, class),
        laws::css::free_of(b, class),
    ensures
        laws::css::free_of(a + b, class),
{
    let s = a + b;
    assert forall|i: int| 0 <= i < s.len() implies !class.has(#[trigger] s[i]) by {
        if i < a.len() {
            assert(s[i] == a[i]);
        } else {
            assert(s[i] == b[i - a.len()]);
        }
    }
}

proof fn lemma_blank_free(w: Seq<char>, c: char)
    requires
        laws::words::blank(w),
        !chars::white_space(c),
    ensures
        laws::css::free_of(w, CharClass::Only(c)),
{
}

/// A text without a `;` is one declaration.
proof fn lemma_one(decl: Seq<char>, out: DeclProps)
    requires
        laws::css::free_of(decl, CharClass::Only(';')),
    ensures
        css::with_declarations(decl, out) == css::with_declaration(decl, out),
{
    chars::lemma_first(decl, CharClass::Only(';'), true, decl.len() as int);
    assert(decl.take(decl.len() as int) =~= decl);
}

/// The part of a declaration before its `:`.
proof fn lemma_split(a: Seq<char>, b: Seq<char>)
    requires
        laws::css::free_of(a, CharClass::Only(':')),
    ensures
        chars::first(a.push(':') + b, CharClass::Only(':'), true) == a.len(),
        (a.push(':') + b).take(a.len() as int) == a,
        (a.push(':') + b).skip(a.len() as int + 1) == b,
{
    let s = a.push(':') + b;
    assert forall|j: int| 0 <= j < a.len() implies CharClass::Only(':').has(#[trigger] s[j])
        != true by {
        assert(s[j] == a[j]);
    }
    chars::lemma_first(s, CharClass::Only(':'), true, a.len() as int);
    assert(s.take(a.len() as int) =~= a);
    assert(s.skip(a.len() as int + 1) =~= b);
}

/// `name: value` declares that, whatever white space stands around the two and
/// however they are cased.
pub proof fn law_declarations_are_read(
    name: Seq<char>,
    value: Seq<char>,
    w1: Seq<char>,
    w2: Seq<char>,
    w3: Seq<char>,
    w4: Seq<char>,
    out: DeclProps,
)
    requires
        trimmed(name),
        trimmed(value),
        laws::words::blank(w1) && laws::words::blank(w2) && laws::words::blank(w3)
            && laws::words::blank(w4),
        laws::css::free_of(name, CharClass::Only(':')),
        laws::css::free_of(name, CharClass::Only(';')),
        laws::css::free_of(value, CharClass::Only(';')),
        laws::css::free_of(value, CharClass::Only('!')),
    ensures
        css::with_declarations((w1 + name + w2).push(':') + (w3 + value + w4), out) == (DeclProps {
            normal: css::declared(chars::lower(name), chars::lower(value), out.normal),
            important: out.important,
        }),
{
    let a = w1 + name + w2;
    let b = w3 + value + w4;
    let decl = a.push(':') + b;
    lemma_around(w1, name, w2, ':');
    lemma_around(w1, name, w2, ';');
    lemma_around(w3, value, w4, ';');
    lemma_free_decl(a, b);
    lemma_one(decl, out);
    lemma_split(a, b);
    laws::words::law_trimming_takes_the_ends(w1, name, w2);
    laws::words::law_trimming_takes_the_ends(w3, value, w4);
    let text = chars::lower(value);
    lemma_lower_chars();
    assert forall|j: int| 0 <= j < text.len() implies CharClass::Only('!').has(#[trigger] text[j])
        != true by {
        assert(text[j] == chars::lower_char(value[j]));
        assert(!CharClass::Only('!').has(value[j]));
    }
    chars::lemma_first(text, CharClass::Only('!'), true, text.len() as int);
}

proof fn lemma_around(before: Seq<char>, s: Seq<char>, behind: Seq<char>, c: char)
    requires
        laws::words::blank(before),
        laws::words::blank(behind),
        laws::css::free_of(s, CharClass::Only(c)),
        !chars::white_space(c),
    ensures
        laws::css::free_of(before + s + behind, CharClass::Only(c)),
{
    lemma_blank_free(before, c);
    lemma_blank_free(behind, c);
    lemma_joined_free(before, s, CharClass::Only(c));
    lemma_joined_free(before + s, behind, CharClass::Only(c));
}

proof fn lemma_free_decl(a: Seq<char>, b: Seq<char>)
    requires
        laws::css::free_of(a, CharClass::Only(';')),
        laws::css::free_of(b, CharClass::Only(';')),
    ensures
        laws::css::free_of(a.push(':') + b, CharClass::Only(';')),
{
    let colon = a.push(':');
    assert forall|i: int| 0 <= i < colon.len() implies !CharClass::Only(';').has(
        #[trigger] colon[i],
    ) by {
        if i < a.len() {
            assert(colon[i] == a[i]);
        }
    }
    lemma_joined_free(colon, b, CharClass::Only(';'));
}

proof fn lemma_trim_end(s: Seq<char>, behind: Seq<char>)
    requires
        laws::words::blank(behind),
        s.len() > 0 ==> !chars::white_space(s.last()),
    ensures
        chars::trim_end_of(s + behind, CharClass::Space) == s,
    decreases behind.len(),
{
    if behind.len() > 0 {
        let less = behind.drop_last();
        assert forall|i: int| 0 <= i < less.len() implies chars::white_space(
            #[trigger] less[i],
        ) by {
            assert(less[i] == behind[i]);
        }
        lemma_trim_end(s, less);
        assert((s + behind).drop_last() =~= s + less);
        assert(chars::white_space(behind[behind.len() - 1]));
    } else {
        assert(s + behind =~= s);
    }
}

/// `name: value !mark` declares the same, in the higher tier if the mark is
/// `important`, and in the lower one if it is anything else.
pub proof fn law_important_declarations_rank_higher(
    name: Seq<char>,
    value: Seq<char>,
    mark: Seq<char>,
    w1: Seq<char>,
    w2: Seq<char>,
    w3: Seq<char>,
    w4: Seq<char>,
    w5: Seq<char>,
    w6: Seq<char>,
    out: DeclProps,
)
    requires
        trimmed(name),
        trimmed(value),
        trimmed(mark),
        mark.len() > 0,
        laws::words::blank(w1) && laws::words::blank(w2) && laws::words::blank(w3)
            && laws::words::blank(w4) && laws::words::blank(w5) && laws::words::blank(w6),
        laws::css::free_of(name, CharClass::Only(':')),
        laws::css::free_of(name, CharClass::Only(';')),
        laws::css::free_of(value, CharClass::Only(';')),
        laws::css::free_of(value, CharClass::Only('!')),
        laws::css::free_of(mark, CharClass::Only(';')),
    ensures
        ({
            let decl = (w1 + name + w2).push(':') + (w3 + value + w4 + seq!['!'] + w5 + mark + w6);
            let n = chars::lower(name);
            let v = chars::lower(value);
            &&& chars::lower(mark) == "important"@ ==> css::with_declarations(decl, out) == (
            DeclProps { normal: out.normal, important: css::declared(n, v, out.important) })
            &&& chars::lower(mark) != "important"@ ==> css::with_declarations(decl, out) == (
            DeclProps { normal: css::declared(n, v, out.normal), important: out.important })
        }),
{
    let a = w1 + name + w2;
    let b = w3 + value + w4 + seq!['!'] + w5 + mark + w6;
    let decl = a.push(':') + b;
    lemma_around(w1, name, w2, ':');
    lemma_around(w1, name, w2, ';');
    lemma_around(w3, value, w4, ';');
    lemma_around(w5, mark, w6, ';');
    assert(laws::css::free_of(seq!['!'], CharClass::Only(';')));
    lemma_joined_free(w3 + value + w4, seq!['!'], CharClass::Only(';'));
    lemma_joined_free(w3 + value + w4 + seq!['!'], w5 + mark + w6, CharClass::Only(';'));
    assert(b =~= w3 + value + w4 + seq!['!'] + (w5 + mark + w6));
    lemma_free_decl(a, b);
    lemma_one(decl, out);
    lemma_split(a, b);
    laws::words::law_trimming_takes_the_ends(w1, name, w2);
    // The text behind the `:` without the white space around it.
    let tail = seq!['!'] + (w5 + mark);
    let core = if value.len() == 0 {
        tail
    } else {
        value + w4 + tail
    };
    let lead = if value.len() == 0 {
        w3 + w4
    } else {
        w3
    };
    assert(laws::words::blank(lead)) by {
        assert forall|i: int| 0 <= i < lead.len() implies chars::white_space(
            #[trigger] lead[i],
        ) by {
            if i < w3.len() {
                assert(lead[i] == w3[i]);
            } else {
                assert(lead[i] == w4[i - w3.len()]);
            }
        }
    }
    assert(core.last() == mark.last());
    assert(trimmed(core)) by {
        if value.len() > 0 {
            assert(core[0] == value[0]);
        }
    }
    assert(b =~= lead + core + w6);
    laws::words::law_trimming_takes_the_ends(lead, core, w6);
    let text = chars::lower(core);
    let kept = if value.len() == 0 {
        Seq::empty()
    } else {
        w4
    };
    let head = value + kept;
    assert(core =~= head + tail);
    lemma_lower_joins(head, tail);
    lemma_lower_joins(seq!['!'], w5 + mark);
    lemma_lower_chars();
    assert(chars::lower(seq!['!']) =~= seq!['!']);
    assert(laws::words::blank(kept));
    lemma_blank_free(kept, '!');
    lemma_joined_free(value, kept, CharClass::Only('!'));
    let low = chars::lower(head);
    assert forall|j: int| 0 <= j < head.len() implies CharClass::Only('!').has(#[trigger] text[j])
        != true by {
        assert(text[j] == low[j]);
        assert(low[j] == chars::lower_char(head[j]));
        assert(!CharClass::Only('!').has(head[j]));
    }
    assert(text[head.len() as int] == '!');
    chars::lemma_first(text, CharClass::Only('!'), true, head.len() as int);
    assert(text.take(head.len() as int) =~= low);
    assert(text.skip(head.len() as int + 1) =~= chars::lower(w5 + mark));
    lemma_lower_joins(value, kept);
    lemma_lower_trimmed(value);
    lemma_lower_trimmed(kept);
    lemma_trim_end(chars::lower(value), chars::lower(kept));
    lemma_lower_joins(w5, mark);
    lemma_lower_trimmed(w5);
    lemma_lower_trimmed(mark);
    let none = Seq::<char>::empty();
    laws::words::law_trimming_takes_the_ends(chars::lower(w5), chars::lower(mark), none);
    assert(chars::lower(w5) + chars::lower(mark) + none =~= chars::lower(w5 + mark));
}

/// What has no `:` declares nothing.
pub proof fn law_no_declaration_without_a_colon(decl: Seq<char>, out: DeclProps)
    requires
        laws::css::free_of(decl, CharClass::Only(':')),
        laws::css::free_of(decl, CharClass::Only(';')),
    ensures
        css::with_declarations(decl, out) == out,
{
    lemma_one(decl, out);
    chars::lemma_first(decl, CharClass::Only(':'), true, decl.len() as int);
}

proof fn lemma_display_none(name: Seq<char>, value: Seq<char>)
    requires
        chars::lower(name) == "display"@,
        chars::lower(value) == "none"@,
    ensures
        trimmed(name),
        trimmed(value),
        laws::css::free_of(name, CharClass::Only(':')),
        laws::css::free_of(name, CharClass::Only(';')),
        laws::css::free_of(value, CharClass::Only(';')),
        laws::css::free_of(value, CharClass::Only('!')),
{
    lemma_lower_chars();
    reveal_strlit("display");
    reveal_strlit("none");
    let d = "display"@;
    let n = "none"@;
    assert(d.len() == 7 && d[0] == 'd' && d[1] == 'i' && d[2] == 's' && d[3] == 'p' && d[4] == 'l'
        && d[5] == 'a' && d[6] == 'y');
    assert(n.len() == 4 && n[0] == 'n' && n[1] == 'o' && n[2] == 'n' && n[3] == 'e');
    assert(name.len() == 7 && value.len() == 4);
    assert forall|i: int| 0 <= i < name.len() implies !chars::white_space(#[trigger] name[i])
        && name[i] != ':' && name[i] != ';' by {
        assert(chars::lower(name)[i] == chars::lower_char(name[i]));
    }
    assert forall|i: int| 0 <= i < value.len() implies !chars::white_space(#[trigger] value[i])
        && value[i] != ';' && value[i] != '!' by {
        assert(chars::lower(value)[i] == chars::lower_char(value[i]));
    }
}

/// A block that holds `display: none`, in whatever case and spacing, with no
/// later declaration of `display` in the same tier, hides.
pub proof fn law_display_none_hides(
    a: Seq<char>,
    name: Seq<char>,
    value: Seq<char>,
    w1: Seq<char>,
    w2: Seq<char>,
    w3: Seq<char>,
    w4: Seq<char>,
    b: Seq<char>,
)
    requires
        chars::lower(name) == "display"@,
        chars::lower(value) == "none"@,
        laws::words::blank(w1) && laws::words::blank(w2) && laws::words::blank(w3)
            && laws::words::blank(w4),
        css::declarations(b).normal.display_none is None,
    ensures
        ({
            let decl = (w1 + name + w2).push(':') + (w3 + value + w4);
            css::declarations(a.push(';') + (decl.push(';') + b)).normal.display_none == Some(true)
        }),
{
    let decl = (w1 + name + w2).push(':') + (w3 + value + w4);
    let none = DeclProps::none();
    let n = "none"@;
    lemma_display_none(name, value);
    law_declarations_are_read(name, value, w1, w2, w3, w4, none);
    laws::style::law_display(n, none.normal);
    assert(css::declarations(decl).normal.display_none == Some(true));
    laws::style::law_last_declaration_decides(decl, b, false, Property::Display);
    laws::style::law_last_declaration_decides(a, decl.push(';') + b, false, Property::Display);
}

/// The same in the higher tier: `display: none !important` hides, with no later
/// declaration of `display` that is important too.
pub proof fn law_important_display_none_hides(
    a: Seq<char>,
    name: Seq<char>,
    value: Seq<char>,
    mark: Seq<char>,
    w1: Seq<char>,
    w2: Seq<char>,
    w3: Seq<char>,
    w4: Seq<char>,
    w5: Seq<char>,
    w6: Seq<char>,
    b: Seq<char>,
)
    requires
        chars::lower(name) == "display"@,
        chars::lower(value) == "none"@,
        chars::lower(mark) == "important"@,
        laws::words::blank(w1) && laws::words::blank(w2) && laws::words::blank(w3)
            && laws::words::blank(w4) && laws::words::blank(w5) && laws::words::blank(w6),
        css::declarations(b).important.display_none is None,
    ensures
        ({
            let decl = (w1 + name + w2).push(':') + (w3 + value + w4 + seq!['!'] + w5 + mark + w6);
            css::declarations(a.push(';') + (decl.push(';') + b)).important.display_none == Some(
                true,
            )
        }),
{
    let decl = (w1 + name + w2).push(':') + (w3 + value + w4 + seq!['!'] + w5 + mark + w6);
    let none = DeclProps::none();
    lemma_display_none(name, value);
    lemma_lower_chars();
    reveal_strlit("important");
    let m = "important"@;
    assert(m.len() == 9 && m[0] == 'i' && m[1] == 'm' && m[2] == 'p' && m[3] == 'o' && m[4] == 'r'
        && m[5] == 't' && m[6] == 'a' && m[7] == 'n' && m[8] == 't');
    assert(mark.len() == 9);
    assert forall|i: int| 0 <= i < mark.len() implies !chars::white_space(#[trigger] mark[i])
        && mark[i] != ';' by {
        assert(chars::lower(mark)[i] == chars::lower_char(mark[i]));
    }
    law_important_declarations_rank_higher(
        name,
        value,
        mark,
        w1,
        w2,
        w3,
        w4,
        w5,
        w6,
        none,
    );
    laws::style::law_display("none"@, none.important);
    assert(css::declarations(decl).important.display_none == Some(true));
    laws::style::law_last_declaration_decides(decl, b, true, Property::Display);
    laws::style::law_last_declaration_decides(a, decl.push(';') + b, true, Property::Display);
}

} // verus!
