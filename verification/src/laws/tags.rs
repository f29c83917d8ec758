//! What tags promise: how an element is walked goes by its name.

use crate::tags;
use crate::tags::ElemKind;
use crate::xml::{Element, Node};
use vstd::prelude::*;

verus! {

/// The names of headings: `h` and a digit from 1 to 6, which is the level.
pub proof fn law_headings_are_named_by_level(name: Seq<char>, level: u8)
    ensures
        tags::kind_of(name) == ElemKind::Heading(level) <==> 1 <= level <= 6 && name == seq![
            'h',
            (('0' as u32 + level as u32) as u32) as char,
        ],
{
    reveal_strlit("h1");
    reveal_strlit("h2");
    reveal_strlit("h3");
    reveal_strlit("h4");
    reveal_strlit("h5");
    reveal_strlit("h6");
    assert("h1"@.len() == 2 && "h1"@[0] == 'h' && "h1"@[1] == '1');
    assert("h2"@.len() == 2 && "h2"@[0] == 'h' && "h2"@[1] == '2');
    assert("h3"@.len() == 2 && "h3"@[0] == 'h' && "h3"@[1] == '3');
    assert("h4"@.len() == 2 && "h4"@[0] == 'h' && "h4"@[1] == '4');
    assert("h5"@.len() == 2 && "h5"@[0] == 'h' && "h5"@[1] == '5');
    assert("h6"@.len() == 2 && "h6"@[0] == 'h' && "h6"@[1] == '6');
    assert("h1"@ =~= seq!['h', '1']);
    assert("h2"@ =~= seq!['h', '2']);
    assert("h3"@ =~= seq!['h', '3']);
    assert("h4"@ =~= seq!['h', '4']);
    assert("h5"@ =~= seq!['h', '5']);
    assert("h6"@ =~= seq!['h', '6']);
    assert(name == seq!['h', '1'] ==> name[1] == '1');
    assert(name == seq!['h', '2'] ==> name[1] == '2');
    assert(name == seq!['h', '3'] ==> name[1] == '3');
    assert(name == seq!['h', '4'] ==> name[1] == '4');
    assert(name == seq!['h', '5'] ==> name[1] == '5');
    assert(name == seq!['h', '6'] ==> name[1] == '6');
    assert(('0' as u32 + 1) as u32 as char == '1');
    assert(('0' as u32 + 2) as u32 as char == '2');
    assert(('0' as u32 + 3) as u32 as char == '3');
    assert(('0' as u32 + 4) as u32 as char == '4');
    assert(('0' as u32 + 5) as u32 as char == '5');
    assert(('0' as u32 + 6) as u32 as char == '6');
}

proof fn lemma_block_names()
    ensures
        tags::kind_of("p"@) is Para,
        tags::kind_of("ul"@) is List,
        tags::kind_of("ol"@) is List,
        tags::kind_of("table"@) is Table,
        tags::kind_of("blockquote"@) is Quote,
        tags::kind_of("pre"@) is Pre,
        tags::kind_of("hr"@) is Rule,
        tags::kind_of("math"@) is Math,
{
    reveal_strlit("h1");
    reveal_strlit("h2");
    reveal_strlit("h3");
    reveal_strlit("h4");
    reveal_strlit("h5");
    reveal_strlit("h6");
    reveal_strlit("p");
    reveal_strlit("ul");
    reveal_strlit("ol");
    reveal_strlit("table");
    reveal_strlit("blockquote");
    reveal_strlit("pre");
    reveal_strlit("hr");
    reveal_strlit("math");
    assert("h1"@.len() == 2 && "h1"@[0] == 'h' && "h1"@[1] == '1');
    assert("h2"@.len() == 2 && "h2"@[0] == 'h' && "h2"@[1] == '2');
    assert("h3"@.len() == 2 && "h3"@[0] == 'h' && "h3"@[1] == '3');
    assert("h4"@.len() == 2 && "h4"@[0] == 'h' && "h4"@[1] == '4');
    assert("h5"@.len() == 2 && "h5"@[0] == 'h' && "h5"@[1] == '5');
    assert("h6"@.len() == 2 && "h6"@[0] == 'h' && "h6"@[1] == '6');
    assert("p"@.len() == 1 && "p"@[0] == 'p');
    assert("ul"@.len() == 2 && "ul"@[0] == 'u' && "ul"@[1] == 'l');
    assert("ol"@.len() == 2 && "ol"@[0] == 'o' && "ol"@[1] == 'l');
    assert("table"@.len() == 5 && "table"@[0] == 't' && "table"@[1] == 'a' && "table"@[2] == 'b'
        && "table"@[3] == 'l' && "table"@[4] == 'e');
    assert("blockquote"@.len() == 10 && "blockquote"@[0] == 'b' && "blockquote"@[1] == 'l'
        && "blockquote"@[2] == 'o' && "blockquote"@[3] == 'c' && "blockquote"@[4] == 'k'
        && "blockquote"@[5] == 'q' && "blockquote"@[6] == 'u' && "blockquote"@[7] == 'o'
        && "blockquote"@[8] == 't' && "blockquote"@[9] == 'e');
    assert("pre"@.len() == 3 && "pre"@[0] == 'p' && "pre"@[1] == 'r' && "pre"@[2] == 'e');
    assert("hr"@.len() == 2 && "hr"@[0] == 'h' && "hr"@[1] == 'r');
    assert("math"@.len() == 4 && "math"@[0] == 'm' && "math"@[1] == 'a' && "math"@[2] == 't'
        && "math"@[3] == 'h');
}

proof fn lemma_container_names()
    ensures
        tags::kind_of("div"@) is Container,
        tags::kind_of("section"@) is Container,
        tags::kind_of("article"@) is Container,
        tags::kind_of("aside"@) is Container,
        tags::kind_of("main"@) is Container,
        tags::kind_of("nav"@) is Container,
        tags::kind_of("header"@) is Container,
        tags::kind_of("footer"@) is Container,
        tags::kind_of("figure"@) is Container,
        tags::kind_of("figcaption"@) is Container,
        tags::kind_of("center"@) is Container,
        tags::kind_of("details"@) is Container,
        tags::kind_of("summary"@) is Container,
        tags::kind_of("li"@) is Container,
        tags::kind_of("dl"@) is Container,
        tags::kind_of("dt"@) is Container,
        tags::kind_of("dd"@) is Container,
        tags::kind_of("body"@) is Container,
{
    reveal_strlit("h1");
    reveal_strlit("h2");
    reveal_strlit("h3");
    reveal_strlit("h4");
    reveal_strlit("h5");
    reveal_strlit("h6");
    reveal_strlit("p");
    reveal_strlit("ul");
    reveal_strlit("ol");
    reveal_strlit("table");
    reveal_strlit("blockquote");
    reveal_strlit("pre");
    reveal_strlit("hr");
    reveal_strlit("math");
    reveal_strlit("div");
    reveal_strlit("section");
    reveal_strlit("article");
    reveal_strlit("aside");
    reveal_strlit("main");
    reveal_strlit("nav");
    reveal_strlit("header");
    reveal_strlit("footer");
    reveal_strlit("figure");
    reveal_strlit("figcaption");
    reveal_strlit("center");
    reveal_strlit("details");
    reveal_strlit("summary");
    reveal_strlit("li");
    reveal_strlit("dl");
    reveal_strlit("dt");
    reveal_strlit("dd");
    reveal_strlit("body");
    assert("h1"@.len() == 2 && "h1"@[0] == 'h' && "h1"@[1] == '1');
    assert("h2"@.len() == 2 && "h2"@[0] == 'h' && "h2"@[1] == '2');
    assert("h3"@.len() == 2 && "h3"@[0] == 'h' && "h3"@[1] == '3');
    assert("h4"@.len() == 2 && "h4"@[0] == 'h' && "h4"@[1] == '4');
    assert("h5"@.len() == 2 && "h5"@[0] == 'h' && "h5"@[1] == '5');
    assert("h6"@.len() == 2 && "h6"@[0] == 'h' && "h6"@[1] == '6');
    assert("p"@.len() == 1 && "p"@[0] == 'p');
    assert("ul"@.len() == 2 && "ul"@[0] == 'u' && "ul"@[1] == 'l');
    assert("ol"@.len() == 2 && "ol"@[0] == 'o' && "ol"@[1] == 'l');
    assert("table"@.len() == 5 && "table"@[0] == 't' && "table"@[1] == 'a' && "table"@[2] == 'b'
        && "table"@[3] == 'l' && "table"@[4] == 'e');
    assert("blockquote"@.len() == 10 && "blockquote"@[0] == 'b' && "blockquote"@[1] == 'l'
        && "blockquote"@[2] == 'o' && "blockquote"@[3] == 'c' && "blockquote"@[4] == 'k'
        && "blockquote"@[5] == 'q' && "blockquote"@[6] == 'u' && "blockquote"@[7] == 'o'
        && "blockquote"@[8] == 't' && "blockquote"@[9] == 'e');
    assert("pre"@.len() == 3 && "pre"@[0] == 'p' && "pre"@[1] == 'r' && "pre"@[2] == 'e');
    assert("hr"@.len() == 2 && "hr"@[0] == 'h' && "hr"@[1] == 'r');
    assert("math"@.len() == 4 && "math"@[0] == 'm' && "math"@[1] == 'a' && "math"@[2] == 't'
        && "math"@[3] == 'h');
    assert("div"@.len() == 3 && "div"@[0] == 'd' && "div"@[1] == 'i' && "div"@[2] == 'v');
    assert("section"@.len() == 7 && "section"@[0] == 's' && "section"@[1] == 'e'
        && "section"@[2] == 'c' && "section"@[3] == 't' && "section"@[4] == 'i'
        && "section"@[5] == 'o' && "section"@[6] == 'n');
    assert("article"@.len() == 7 && "article"@[0] == 'a' && "article"@[1] == 'r'
        && "article"@[2] == 't' && "article"@[3] == 'i' && "article"@[4] == 'c'
        && "article"@[5] == 'l' && "article"@[6] == 'e');
    assert("aside"@.len() == 5 && "aside"@[0] == 'a' && "aside"@[1] == 's' && "aside"@[2] == 'i'
        && "aside"@[3] == 'd' && "aside"@[4] == 'e');
    assert("main"@.len() == 4 && "main"@[0] == 'm' && "main"@[1] == 'a' && "main"@[2] == 'i'
        && "main"@[3] == 'n');
    assert("nav"@.len() == 3 && "nav"@[0] == 'n' && "nav"@[1] == 'a' && "nav"@[2] == 'v');
    assert("header"@.len() == 6 && "header"@[0] == 'h' && "header"@[1] == 'e'
        && "header"@[2] == 'a' && "header"@[3] == 'd' && "header"@[4] == 'e'
        && "header"@[5] == 'r');
    assert("footer"@.len() == 6 && "footer"@[0] == 'f' && "footer"@[1] == 'o'
        && "footer"@[2] == 'o' && "footer"@[3] == 't' && "footer"@[4] == 'e'
        && "footer"@[5] == 'r');
    assert("figure"@.len() == 6 && "figure"@[0] == 'f' && "figure"@[1] == 'i'
        && "figure"@[2] == 'g' && "figure"@[3] == 'u' && "figure"@[4] == 'r'
        && "figure"@[5] == 'e');
    assert("figcaption"@.len() == 10 && "figcaption"@[0] == 'f' && "figcaption"@[1] == 'i'
        && "figcaption"@[2] == 'g' && "figcaption"@[3] == 'c' && "figcaption"@[4] == 'a'
        && "figcaption"@[5] == 'p' && "figcaption"@[6] == 't' && "figcaption"@[7] == 'i'
        && "figcaption"@[8] == 'o' && "figcaption"@[9] == 'n');
    assert("center"@.len() == 6 && "center"@[0] == 'c' && "center"@[1] == 'e'
        && "center"@[2] == 'n' && "center"@[3] == 't' && "center"@[4] == 'e'
        && "center"@[5] == 'r');
    assert("details"@.len() == 7 && "details"@[0] == 'd' && "details"@[1] == 'e'
        && "details"@[2] == 't' && "details"@[3] == 'a' && "details"@[4] == 'i'
        && "details"@[5] == 'l' && "details"@[6] == 's');
    assert("summary"@.len() == 7 && "summary"@[0] == 's' && "summary"@[1] == 'u'
        && "summary"@[2] == 'm' && "summary"@[3] == 'm' && "summary"@[4] == 'a'
        && "summary"@[5] == 'r' && "summary"@[6] == 'y');
    assert("li"@.len() == 2 && "li"@[0] == 'l' && "li"@[1] == 'i');
    assert("dl"@.len() == 2 && "dl"@[0] == 'd' && "dl"@[1] == 'l');
    assert("dt"@.len() == 2 && "dt"@[0] == 'd' && "dt"@[1] == 't');
    assert("dd"@.len() == 2 && "dd"@[0] == 'd' && "dd"@[1] == 'd');
    assert("body"@.len() == 4 && "body"@[0] == 'b' && "body"@[1] == 'o' && "body"@[2] == 'd'
        && "body"@[3] == 'y');
}

proof fn lemma_ignored_names()
    ensures
        tags::kind_of("script"@) is Ignored,
        tags::kind_of("style"@) is Ignored,
        tags::kind_of("head"@) is Ignored,
        tags::kind_of("template"@) is Ignored,
        tags::kind_of("noscript"@) is Ignored,
{
    reveal_strlit("h1");
    reveal_strlit("h2");
    reveal_strlit("h3");
    reveal_strlit("h4");
    reveal_strlit("h5");
    reveal_strlit("h6");
    reveal_strlit("p");
    reveal_strlit("ul");
    reveal_strlit("ol");
    reveal_strlit("table");
    reveal_strlit("blockquote");
    reveal_strlit("pre");
    reveal_strlit("hr");
    reveal_strlit("math");
    reveal_strlit("div");
    reveal_strlit("section");
    reveal_strlit("article");
    reveal_strlit("aside");
    reveal_strlit("main");
    reveal_strlit("nav");
    reveal_strlit("header");
    reveal_strlit("footer");
    reveal_strlit("figure");
    reveal_strlit("figcaption");
    reveal_strlit("center");
    reveal_strlit("details");
    reveal_strlit("summary");
    reveal_strlit("li");
    reveal_strlit("dl");
    reveal_strlit("dt");
    reveal_strlit("dd");
    reveal_strlit("body");
    reveal_strlit("script");
    reveal_strlit("style");
    reveal_strlit("head");
    reveal_strlit("template");
    reveal_strlit("noscript");
    assert("h1"@.len() == 2 && "h1"@[0] == 'h' && "h1"@[1] == '1');
    assert("h2"@.len() == 2 && "h2"@[0] == 'h' && "h2"@[1] == '2');
    assert("h3"@.len() == 2 && "h3"@[0] == 'h' && "h3"@[1] == '3');
    assert("h4"@.len() == 2 && "h4"@[0] == 'h' && "h4"@[1] == '4');
    assert("h5"@.len() == 2 && "h5"@[0] == 'h' && "h5"@[1] == '5');
    assert("h6"@.len() == 2 && "h6"@[0] == 'h' && "h6"@[1] == '6');
    assert("p"@.len() == 1 && "p"@[0] == 'p');
    assert("ul"@.len() == 2 && "ul"@[0] == 'u' && "ul"@[1] == 'l');
    assert("ol"@.len() == 2 && "ol"@[0] == 'o' && "ol"@[1] == 'l');
    assert("table"@.len() == 5 && "table"@[0] == 't' && "table"@[1] == 'a' && "table"@[2] == 'b'
        && "table"@[3] == 'l' && "table"@[4] == 'e');
    assert("blockquote"@.len() == 10 && "blockquote"@[0] == 'b' && "blockquote"@[1] == 'l'
        && "blockquote"@[2] == 'o' && "blockquote"@[3] == 'c' && "blockquote"@[4] == 'k'
        && "blockquote"@[5] == 'q' && "blockquote"@[6] == 'u' && "blockquote"@[7] == 'o'
        && "blockquote"@[8] == 't' && "blockquote"@[9] == 'e');
    assert("pre"@.len() == 3 && "pre"@[0] == 'p' && "pre"@[1] == 'r' && "pre"@[2] == 'e');
    assert("hr"@.len() == 2 && "hr"@[0] == 'h' && "hr"@[1] == 'r');
    assert("math"@.len() == 4 && "math"@[0] == 'm' && "math"@[1] == 'a' && "math"@[2] == 't'
        && "math"@[3] == 'h');
    assert("div"@.len() == 3 && "div"@[0] == 'd' && "div"@[1] == 'i' && "div"@[2] == 'v');
    assert("section"@.len() == 7 && "section"@[0] == 's' && "section"@[1] == 'e'
        && "section"@[2] == 'c' && "section"@[3] == 't' && "section"@[4] == 'i'
        && "section"@[5] == 'o' && "section"@[6] == 'n');
    assert("article"@.len() == 7 && "article"@[0] == 'a' && "article"@[1] == 'r'
        && "article"@[2] == 't' && "article"@[3] == 'i' && "article"@[4] == 'c'
        && "article"@[5] == 'l' && "article"@[6] == 'e');
    assert("aside"@.len() == 5 && "aside"@[0] == 'a' && "aside"@[1] == 's' && "aside"@[2] == 'i'
        && "aside"@[3] == 'd' && "aside"@[4] == 'e');
    assert("main"@.len() == 4 && "main"@[0] == 'm' && "main"@[1] == 'a' && "main"@[2] == 'i'
        && "main"@[3] == 'n');
    assert("nav"@.len() == 3 && "nav"@[0] == 'n' && "nav"@[1] == 'a' && "nav"@[2] == 'v');
    assert("header"@.len() == 6 && "header"@[0] == 'h' && "header"@[1] == 'e'
        && "header"@[2] == 'a' && "header"@[3] == 'd' && "header"@[4] == 'e'
        && "header"@[5] == 'r');
    assert("footer"@.len() == 6 && "footer"@[0] == 'f' && "footer"@[1] == 'o'
        && "footer"@[2] == 'o' && "footer"@[3] == 't' && "footer"@[4] == 'e'
        && "footer"@[5] == 'r');
    assert("figure"@.len() == 6 && "figure"@[0] == 'f' && "figure"@[1] == 'i'
        && "figure"@[2] == 'g' && "figure"@[3] == 'u' && "figure"@[4] == 'r'
        && "figure"@[5] == 'e');
    assert("figcaption"@.len() == 10 && "figcaption"@[0] == 'f' && "figcaption"@[1] == 'i'
        && "figcaption"@[2] == 'g' && "figcaption"@[3] == 'c' && "figcaption"@[4] == 'a'
        && "figcaption"@[5] == 'p' && "figcaption"@[6] == 't' && "figcaption"@[7] == 'i'
        && "figcaption"@[8] == 'o' && "figcaption"@[9] == 'n');
    assert("center"@.len() == 6 && "center"@[0] == 'c' && "center"@[1] == 'e'
        && "center"@[2] == 'n' && "center"@[3] == 't' && "center"@[4] == 'e'
        && "center"@[5] == 'r');
    assert("details"@.len() == 7 && "details"@[0] == 'd' && "details"@[1] == 'e'
        && "details"@[2] == 't' && "details"@[3] == 'a' && "details"@[4] == 'i'
        && "details"@[5] == 'l' && "details"@[6] == 's');
    assert("summary"@.len() == 7 && "summary"@[0] == 's' && "summary"@[1] == 'u'
        && "summary"@[2] == 'm' && "summary"@[3] == 'm' && "summary"@[4] == 'a'
        && "summary"@[5] == 'r' && "summary"@[6] == 'y');
    assert("li"@.len() == 2 && "li"@[0] == 'l' && "li"@[1] == 'i');
    assert("dl"@.len() == 2 && "dl"@[0] == 'd' && "dl"@[1] == 'l');
    assert("dt"@.len() == 2 && "dt"@[0] == 'd' && "dt"@[1] == 't');
    assert("dd"@.len() == 2 && "dd"@[0] == 'd' && "dd"@[1] == 'd');
    assert("body"@.len() == 4 && "body"@[0] == 'b' && "body"@[1] == 'o' && "body"@[2] == 'd'
        && "body"@[3] == 'y');
    assert("script"@.len() == 6 && "script"@[0] == 's' && "script"@[1] == 'c'
        && "script"@[2] == 'r' && "script"@[3] == 'i' && "script"@[4] == 'p'
        && "script"@[5] == 't');
    assert("style"@.len() == 5 && "style"@[0] == 's' && "style"@[1] == 't' && "style"@[2] == 'y'
        && "style"@[3] == 'l' && "style"@[4] == 'e');
    assert("head"@.len() == 4 && "head"@[0] == 'h' && "head"@[1] == 'e' && "head"@[2] == 'a'
        && "head"@[3] == 'd');
    assert("template"@.len() == 8 && "template"@[0] == 't' && "template"@[1] == 'e'
        && "template"@[2] == 'm' && "template"@[3] == 'p' && "template"@[4] == 'l'
        && "template"@[5] == 'a' && "template"@[6] == 't' && "template"@[7] == 'e');
    assert("noscript"@.len() == 8 && "noscript"@[0] == 'n' && "noscript"@[1] == 'o'
        && "noscript"@[2] == 's' && "noscript"@[3] == 'c' && "noscript"@[4] == 'r'
        && "noscript"@[5] == 'i' && "noscript"@[6] == 'p' && "noscript"@[7] == 't');
}

proof fn lemma_inline_names()
    ensures
        tags::kind_of("br"@) is Break,
        tags::kind_of("img"@) is Image,
        tags::kind_of("image"@) is Image,
        tags::kind_of("a"@) is Link,
{
    reveal_strlit("h1");
    reveal_strlit("h2");
    reveal_strlit("h3");
    reveal_strlit("h4");
    reveal_strlit("h5");
    reveal_strlit("h6");
    reveal_strlit("p");
    reveal_strlit("ul");
    reveal_strlit("ol");
    reveal_strlit("table");
    reveal_strlit("blockquote");
    reveal_strlit("pre");
    reveal_strlit("hr");
    reveal_strlit("math");
    reveal_strlit("div");
    reveal_strlit("section");
    reveal_strlit("article");
    reveal_strlit("aside");
    reveal_strlit("main");
    reveal_strlit("nav");
    reveal_strlit("header");
    reveal_strlit("footer");
    reveal_strlit("figure");
    reveal_strlit("figcaption");
    reveal_strlit("center");
    reveal_strlit("details");
    reveal_strlit("summary");
    reveal_strlit("li");
    reveal_strlit("dl");
    reveal_strlit("dt");
    reveal_strlit("dd");
    reveal_strlit("body");
    reveal_strlit("script");
    reveal_strlit("style");
    reveal_strlit("head");
    reveal_strlit("template");
    reveal_strlit("noscript");
    reveal_strlit("br");
    reveal_strlit("img");
    reveal_strlit("image");
    reveal_strlit("a");
    assert("h1"@.len() == 2 && "h1"@[0] == 'h' && "h1"@[1] == '1');
    assert("h2"@.len() == 2 && "h2"@[0] == 'h' && "h2"@[1] == '2');
    assert("h3"@.len() == 2 && "h3"@[0] == 'h' && "h3"@[1] == '3');
    assert("h4"@.len() == 2 && "h4"@[0] == 'h' && "h4"@[1] == '4');
    assert("h5"@.len() == 2 && "h5"@[0] == 'h' && "h5"@[1] == '5');
    assert("h6"@.len() == 2 && "h6"@[0] == 'h' && "h6"@[1] == '6');
    assert("p"@.len() == 1 && "p"@[0] == 'p');
    assert("ul"@.len() == 2 && "ul"@[0] == 'u' && "ul"@[1] == 'l');
    assert("ol"@.len() == 2 && "ol"@[0] == 'o' && "ol"@[1] == 'l');
    assert("table"@.len() == 5 && "table"@[0] == 't' && "table"@[1] == 'a' && "table"@[2] == 'b'
        && "table"@[3] == 'l' && "table"@[4] == 'e');
    assert("blockquote"@.len() == 10 && "blockquote"@[0] == 'b' && "blockquote"@[1] == 'l'
        && "blockquote"@[2] == 'o' && "blockquote"@[3] == 'c' && "blockquote"@[4] == 'k'
        && "blockquote"@[5] == 'q' && "blockquote"@[6] == 'u' && "blockquote"@[7] == 'o'
        && "blockquote"@[8] == 't' && "blockquote"@[9] == 'e');
    assert("pre"@.len() == 3 && "pre"@[0] == 'p' && "pre"@[1] == 'r' && "pre"@[2] == 'e');
    assert("hr"@.len() == 2 && "hr"@[0] == 'h' && "hr"@[1] == 'r');
    assert("math"@.len() == 4 && "math"@[0] == 'm' && "math"@[1] == 'a' && "math"@[2] == 't'
        && "math"@[3] == 'h');
    assert("div"@.len() == 3 && "div"@[0] == 'd' && "div"@[1] == 'i' && "div"@[2] == 'v');
    assert("section"@.len() == 7 && "section"@[0] == 's' && "section"@[1] == 'e'
        && "section"@[2] == 'c' && "section"@[3] == 't' && "section"@[4] == 'i'
        && "section"@[5] == 'o' && "section"@[6] == 'n');
    assert("article"@.len() == 7 && "article"@[0] == 'a' && "article"@[1] == 'r'
        && "article"@[2] == 't' && "article"@[3] == 'i' && "article"@[4] == 'c'
        && "article"@[5] == 'l' && "article"@[6] == 'e');
    assert("aside"@.len() == 5 && "aside"@[0] == 'a' && "aside"@[1] == 's' && "aside"@[2] == 'i'
        && "aside"@[3] == 'd' && "aside"@[4] == 'e');
    assert("main"@.len() == 4 && "main"@[0] == 'm' && "main"@[1] == 'a' && "main"@[2] == 'i'
        && "main"@[3] == 'n');
    assert("nav"@.len() == 3 && "nav"@[0] == 'n' && "nav"@[1] == 'a' && "nav"@[2] == 'v');
    assert("header"@.len() == 6 && "header"@[0] == 'h' && "header"@[1] == 'e'
        && "header"@[2] == 'a' && "header"@[3] == 'd' && "header"@[4] == 'e'
        && "header"@[5] == 'r');
    assert("footer"@.len() == 6 && "footer"@[0] == 'f' && "footer"@[1] == 'o'
        && "footer"@[2] == 'o' && "footer"@[3] == 't' && "footer"@[4] == 'e'
        && "footer"@[5] == 'r');
    assert("figure"@.len() == 6 && "figure"@[0] == 'f' && "figure"@[1] == 'i'
        && "figure"@[2] == 'g' && "figure"@[3] == 'u' && "figure"@[4] == 'r'
        && "figure"@[5] == 'e');
    assert("figcaption"@.len() == 10 && "figcaption"@[0] == 'f' && "figcaption"@[1] == 'i'
        && "figcaption"@[2] == 'g' && "figcaption"@[3] == 'c' && "figcaption"@[4] == 'a'
        && "figcaption"@[5] == 'p' && "figcaption"@[6] == 't' && "figcaption"@[7] == 'i'
        && "figcaption"@[8] == 'o' && "figcaption"@[9] == 'n');
    assert("center"@.len() == 6 && "center"@[0] == 'c' && "center"@[1] == 'e'
        && "center"@[2] == 'n' && "center"@[3] == 't' && "center"@[4] == 'e'
        && "center"@[5] == 'r');
    assert("details"@.len() == 7 && "details"@[0] == 'd' && "details"@[1] == 'e'
        && "details"@[2] == 't' && "details"@[3] == 'a' && "details"@[4] == 'i'
        && "details"@[5] == 'l' && "details"@[6] == 's');
    assert("summary"@.len() == 7 && "summary"@[0] == 's' && "summary"@[1] == 'u'
        && "summary"@[2] == 'm' && "summary"@[3] == 'm' && "summary"@[4] == 'a'
        && "summary"@[5] == 'r' && "summary"@[6] == 'y');
    assert("li"@.len() == 2 && "li"@[0] == 'l' && "li"@[1] == 'i');
    assert("dl"@.len() == 2 && "dl"@[0] == 'd' && "dl"@[1] == 'l');
    assert("dt"@.len() == 2 && "dt"@[0] == 'd' && "dt"@[1] == 't');
    assert("dd"@.len() == 2 && "dd"@[0] == 'd' && "dd"@[1] == 'd');
    assert("body"@.len() == 4 && "body"@[0] == 'b' && "body"@[1] == 'o' && "body"@[2] == 'd'
        && "body"@[3] == 'y');
    assert("script"@.len() == 6 && "script"@[0] == 's' && "script"@[1] == 'c'
        && "script"@[2] == 'r' && "script"@[3] == 'i' && "script"@[4] == 'p'
        && "script"@[5] == 't');
    assert("style"@.len() == 5 && "style"@[0] == 's' && "style"@[1] == 't' && "style"@[2] == 'y'
        && "style"@[3] == 'l' && "style"@[4] == 'e');
    assert("head"@.len() == 4 && "head"@[0] == 'h' && "head"@[1] == 'e' && "head"@[2] == 'a'
        && "head"@[3] == 'd');
    assert("template"@.len() == 8 && "template"@[0] == 't' && "template"@[1] == 'e'
        && "template"@[2] == 'm' && "template"@[3] == 'p' && "template"@[4] == 'l'
        && "template"@[5] == 'a' && "template"@[6] == 't' && "template"@[7] == 'e');
    assert("noscript"@.len() == 8 && "noscript"@[0] == 'n' && "noscript"@[1] == 'o'
        && "noscript"@[2] == 's' && "noscript"@[3] == 'c' && "noscript"@[4] == 'r'
        && "noscript"@[5] == 'i' && "noscript"@[6] == 'p' && "noscript"@[7] == 't');
    assert("br"@.len() == 2 && "br"@[0] == 'b' && "br"@[1] == 'r');
    assert("img"@.len() == 3 && "img"@[0] == 'i' && "img"@[1] == 'm' && "img"@[2] == 'g');
    assert("image"@.len() == 5 && "image"@[0] == 'i' && "image"@[1] == 'm' && "image"@[2] == 'a'
        && "image"@[3] == 'g' && "image"@[4] == 'e');
    assert("a"@.len() == 1 && "a"@[0] == 'a');
}

/// Elements that only group others.
pub open spec fn groups(name: Seq<char>) -> bool {
    ||| name == "div"@
    ||| name == "section"@
    ||| name == "article"@
    ||| name == "aside"@
    ||| name == "main"@
    ||| name == "nav"@
    ||| name == "header"@
    ||| name == "footer"@
    ||| name == "figure"@
    ||| name == "figcaption"@
    ||| name == "center"@
    ||| name == "details"@
    ||| name == "summary"@
    ||| name == "li"@
    ||| name == "dl"@
    ||| name == "dt"@
    ||| name == "dd"@
    ||| name == "body"@
}

/// Elements that are never shown.
pub open spec fn never_shown(name: Seq<char>) -> bool {
    ||| name == "script"@
    ||| name == "style"@
    ||| name == "head"@
    ||| name == "template"@
    ||| name == "noscript"@
}

/// How an element is walked, by its name.
pub proof fn law_elements_are_walked_by_name(name: Seq<char>)
    ensures
        tags::kind_of(name) is Para <==> name == "p"@,
        tags::kind_of(name) is List <==> name == "ul"@ || name == "ol"@,
        tags::kind_of(name) is Table <==> name == "table"@,
        tags::kind_of(name) is Quote <==> name == "blockquote"@,
        tags::kind_of(name) is Pre <==> name == "pre"@,
        tags::kind_of(name) is Rule <==> name == "hr"@,
        tags::kind_of(name) is Math <==> name == "math"@,
        tags::kind_of(name) is Break <==> name == "br"@,
        tags::kind_of(name) is Image <==> name == "img"@ || name == "image"@,
        tags::kind_of(name) is Link <==> name == "a"@,
        tags::kind_of(name) is Container <==> groups(name),
        tags::kind_of(name) is Ignored <==> never_shown(name),
{
    lemma_block_names();
    lemma_container_names();
    lemma_ignored_names();
    lemma_inline_names();
}

/// An element ends the line it stands in exactly if it groups others or makes
/// blocks of its own; formulas, images, links and everything else go on in the
/// line.
pub proof fn law_block_elements(name: Seq<char>)
    ensures
        tags::block_level(name) <==> match tags::kind_of(name) {
            ElemKind::Heading(_)
            | ElemKind::Para
            | ElemKind::List
            | ElemKind::Table
            | ElemKind::Quote
            | ElemKind::Pre
            | ElemKind::Rule
            | ElemKind::Container => true,
            ElemKind::Math
            | ElemKind::Ignored
            | ElemKind::Break
            | ElemKind::Image
            | ElemKind::Link
            | ElemKind::Inline => false,
        },
{
    law_elements_are_walked_by_name(name);
}

/// An element stands on lines of its own as soon as one of its children does.
pub proof fn law_one_block_child_is_enough(elem: Element, i: int)
    requires
        0 <= i < elem.children@.len(),
        elem.children@[i] matches Node::Elem(e) && tags::block_level(e.local@),
    ensures
        tags::blocks_among(elem),
{
}

/// Without a block among its children it does not.
pub proof fn law_no_block_child_is_none(elem: Element)
    requires
        forall|i: int|
            0 <= i < elem.children@.len() ==> (#[trigger] elem.children@[i] matches Node::Elem(e)
                ==> !tags::block_level(e.local@)),
    ensures
        !tags::blocks_among(elem),
{
}

} // verus!
