//! What the sets of characters are that text is taken apart by.

use crate::chars;
use crate::chars::CharClass;
use crate::css;
use crate::css::Place;
use vstd::prelude::*;

verus! {

/// White space: tab, line feed, line tabulation, form feed, carriage return,
/// space, next line, no-break space and the spaces and separators beyond.
pub proof fn law_white_space(c: char)
    ensures
        chars::white_space(c) <==> {
            ||| c == '\u{9}'
            ||| c == '\u{a}'
            ||| c == '\u{b}'
            ||| c == '\u{c}'
            ||| c == '\u{d}'
            ||| c == ' '
            ||| c == '\u{85}'
            ||| c == '\u{a0}'
            ||| c == '\u{1680}'
            ||| '\u{2000}' <= c <= '\u{200a}'
            ||| c == '\u{2028}'
            ||| c == '\u{2029}'
            ||| c == '\u{202f}'
            ||| c == '\u{205f}'
            ||| c == '\u{3000}'
        },
{
}

/// The sets of characters, one by one.
pub proof fn law_character_classes(c: char, d: char)
    ensures
        CharClass::Only(d).has(c) <==> c == d,
        CharClass::Space.has(c) <==> chars::white_space(c),
        CharClass::Mark.has(c) <==> c == '.' || c == '#' || c == '[',
        CharClass::Unsupported.has(c) <==> c == ':' || c == '>' || c == '+' || c == '~' || c == '*'
            || chars::white_space(c),
        CharClass::Quote.has(c) <==> c == '"' || c == '\'',
        CharClass::Unit.has(c) <==> 'a' <= c <= 'z' || 'A' <= c <= 'Z' || c == '%',
        CharClass::Digit.has(c) <==> '0' <= c <= '9',
        CharClass::Brace.has(c) <==> c == '{' || c == '}',
        chars::digit(c) <==> '0' <= c <= '9',
        chars::digit(c) ==> chars::digit_value(c) == c as int - '0' as int,
{
}

// ---------------------------------------------------------------------------
// Strings in stylesheets

/// A string closes at its quote, as long as that comes before the line ends;
/// what stands behind a `\` does not count.
pub proof fn law_strings_close(text: Seq<char>, escaped: char, rest: Seq<char>, q: char)
    requires
        q == '"' || q == '\'',
        forall|i: int|
            0 <= i < text.len() ==> #[trigger] text[i] != q && text[i] != '\n' && text[i] != '\\',
    ensures
        css::closes(text + seq![q] + rest, q),
        !css::closes(text + seq!['\n'] + rest, q),
        !css::closes(text, q),
        css::closes(text + seq!['\\', escaped] + rest, q) == css::closes(rest, q),
    decreases text.len(),
{
    let a = text + seq![q] + rest;
    let b = text + seq!['\n'] + rest;
    let c = text + seq!['\\', escaped] + rest;
    if text.len() > 0 {
        let t = text.skip(1);
        assert(text[0] != q && text[0] != '\n' && text[0] != '\\');
        assert forall|i: int| 0 <= i < t.len() implies #[trigger] t[i] != q && t[i] != '\n' && t[i]
            != '\\' by {
            assert(t[i] == text[i + 1]);
        }
        law_strings_close(t, escaped, rest, q);
        assert(a.skip(1) =~= t + seq![q] + rest);
        assert(b.skip(1) =~= t + seq!['\n'] + rest);
        assert(c.skip(1) =~= t + seq!['\\', escaped] + rest);
        assert(a[0] == text[0] && b[0] == text[0] && c[0] == text[0]);
    } else {
        assert(a[0] == q);
        assert(b[0] == '\n');
        assert(c[0] == '\\');
        assert(c.skip(2) =~= rest);
    }
}

/// How a reader's place changes from character to character: a `\` takes the
/// next one along; a quote that closes opens a string; the same quote ends it,
/// and the other one does not; anything else changes nothing.
pub proof fn law_places(at: Place, s: Seq<char>)
    requires
        s.len() > 0,
    ensures
        at.escaped ==> at.past(s) == (Place { quote: at.quote, escaped: false }),
        !at.escaped && s[0] == '\\' ==> at.past(s) == (Place { quote: at.quote, escaped: true }),
        !at.escaped && at.quote is None && (s[0] == '"' || s[0] == '\'') ==> at.past(s) == (Place {
            quote: if css::closes(s.skip(1), s[0]) {
                Some(s[0])
            } else {
                None
            },
            escaped: false,
        }),
        !at.escaped && s[0] != '\\' ==> (at.quote matches Some(q) ==> at.past(s) == (Place {
            quote: if s[0] == q {
                None
            } else {
                Some(q)
            },
            escaped: false,
        })),
        !at.escaped && at.quote is None && s[0] != '\\' && s[0] != '"' && s[0] != '\''
            ==> at.past(s) == at,
        Place::plain() == (Place { quote: None, escaped: false }),
{
}

/// The size in a word of a `font` shorthand ends before its `/`.
pub proof fn law_sizes_end_at_the_slash(size: Seq<char>, height: Seq<char>)
    requires
        forall|i: int| 0 <= i < size.len() ==> #[trigger] size[i] != '/',
    ensures
        css::size_of(size) == crate::zero::zero(size),
        css::size_of(size + seq!['/'] + height) == crate::zero::zero(size),
{
    let s = size + seq!['/'] + height;
    assert forall|j: int| 0 <= j < size.len() implies CharClass::Only('/').has(#[trigger] s[j])
        != true by {
        assert(s[j] == size[j]);
    }
    chars::lemma_first(s, CharClass::Only('/'), true, size.len() as int);
    assert(s.take(size.len() as int) =~= size);
    chars::lemma_first(size, CharClass::Only('/'), true, size.len() as int);
    assert(size.take(size.len() as int) =~= size);
}

} // verus!
