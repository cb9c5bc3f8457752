//! The shape of the rendered text: its quotes come in pairs and, outside of quoted strings,
//! its brackets are balanced.

use crate::chars::{
    is_identifier_part, is_identifier_start, is_number_part, is_number_start, single_char_kind,
    unicode_alphabetic, unicode_numeric, unicode_whitespace,
};
use crate::grammar::{parse_expr, parse_table};
use crate::json::{
    is_array_table, quoted, render_element, render_elements, render_text, render_unit,
};
use crate::scanner::{
    comment_chars, has_letter, identifier_chars, lemma_next_token_bounds,
    lemma_run_length_bounds, next_token, number_chars, number_kind, run_length, space_chars,
    string_chars, unread,
};
use crate::text::{indentation, join};
use crate::token::{kind_is_key, kind_is_unit, TokenType, TokenView};
use crate::typedefs::{all_array, all_keyed, ElementView, ExpressionView};
use vstd::prelude::*;

verus! {

/// Where a reader of JSON text stands: the brackets that are open, the innermost last, and
/// whether a quoted string is open.
pub struct Nesting {
    pub open: Seq<char>,
    pub in_string: bool,
}

/// The state after reading `c` in state `at`, or `None` where `c` closes a bracket that is
/// not the innermost open one. A double quote opens a string or closes the open one; inside a
/// string, brackets are text.
pub open spec fn read_char(at: Option<Nesting>, c: char) -> Option<Nesting> {
    match at {
        None => None,
        Some(n) => {
            if c == '"' {
                Some(Nesting { open: n.open, in_string: !n.in_string })
            } else if n.in_string {
                Some(n)
            } else if c == '{' || c == '[' {
                Some(Nesting { open: n.open.push(c), in_string: false })
            } else if c == '}' {
                if n.open.len() > 0 && n.open.last() == '{' {
                    Some(Nesting { open: n.open.drop_last(), in_string: false })
                } else {
                    None
                }
            } else if c == ']' {
                if n.open.len() > 0 && n.open.last() == '[' {
                    Some(Nesting { open: n.open.drop_last(), in_string: false })
                } else {
                    None
                }
            } else {
                Some(n)
            }
        },
    }
}

/// The state after reading all of `text` from state `at`.
pub open spec fn read(text: Seq<char>, at: Option<Nesting>) -> Option<Nesting>
    decreases text.len(),
{
    if text.len() == 0 {
        at
    } else {
        read_char(read(text.drop_last(), at), text.last())
    }
}

/// The state outside of any string, with the brackets `open` open.
pub open spec fn outside(open: Seq<char>) -> Option<Nesting> {
    Some(Nesting { open, in_string: false })
}

/// Every bracket of `text` that stands outside of a quoted string is closed by its
/// counterpart, in the right order, and every quoted string is closed.
pub open spec fn balanced(text: Seq<char>) -> bool {
    read(text, outside(Seq::empty())) == outside(Seq::empty())
}

/// Reading `text` outside of a string ends where it began, whatever brackets are open: the
/// text closes all that it opens and nothing else.
pub open spec fn self_contained(text: Seq<char>) -> bool {
    forall|open: Seq<char>| #[trigger] read(text, outside(open)) == outside(open)
}

/// `text` holds no double quote.
pub open spec fn quote_free(text: Seq<char>) -> bool {
    forall|i: int| 0 <= i < text.len() ==> #[trigger] text[i] != '"'
}

/// `c` is a double quote or a bracket.
pub open spec fn is_structural(c: char) -> bool {
    c == '"' || c == '{' || c == '}' || c == '[' || c == ']'
}

/// `text` holds neither a double quote nor a bracket.
pub open spec fn plain(text: Seq<char>) -> bool {
    forall|i: int| 0 <= i < text.len() ==> !is_structural(#[trigger] text[i])
}

/// The lexeme of `t` does not break the text that it is rendered into: it holds no double
/// quote, and no bracket either where it is rendered without quotes.
pub open spec fn renders_cleanly(t: TokenView) -> bool {
    if t.kind == TokenType::String || t.kind == TokenType::Identifier {
        quote_free(t.text)
    } else {
        plain(t.text)
    }
}

/// Every scalar of the expression renders cleanly and no key holds a double quote.
pub open spec fn clean(e: ExpressionView) -> bool
    decreases e,
{
    match e {
        ExpressionView::Unit(t) => renders_cleanly(t),
        ExpressionView::Table(elements) => forall|i: int|
            0 <= i < elements.len() ==> clean_element(#[trigger] elements[i]),
    }
}

/// The scalar of an array item renders cleanly; the key of an entry holds no double quote and
/// its value is clean.
pub open spec fn clean_element(el: ElementView) -> bool
    decreases el,
{
    match el {
        ElementView::Array(t) => renders_cleanly(t),
        ElementView::KeyValue { key, value } => quote_free(key.text) && clean(value),
    }
}

/// Reading a text of one character is reading the character.
pub proof fn lemma_read_one(c: char, at: Option<Nesting>)
    ensures
        read(seq![c], at) == read_char(at, c),
{
    let one = seq![c];
    assert(one.drop_last() =~= Seq::<char>::empty());
    assert(read(one.drop_last(), at) == at);
    assert(one.last() == c);
}

/// Reading two texts one after the other is reading their concatenation.
pub proof fn lemma_read_concat(a: Seq<char>, b: Seq<char>, at: Option<Nesting>)
    ensures
        read(a + b, at) == read(b, read(a, at)),
    decreases b.len(),
{
    if b.len() == 0 {
        assert(a + b =~= a);
    } else {
        assert((a + b).drop_last() =~= a + b.drop_last());
        assert((a + b).last() == b.last());
        lemma_read_concat(a, b.drop_last(), at);
    }
}

/// A text without quotes leaves a string open that was open, and changes nothing else.
pub proof fn lemma_read_inside_string(text: Seq<char>, open: Seq<char>)
    requires
        quote_free(text),
    ensures
        read(text, Some(Nesting { open, in_string: true })) == Some(
            Nesting { open, in_string: true },
        ),
    decreases text.len(),
{
    if text.len() > 0 {
        assert forall|i: int| 0 <= i < text.drop_last().len() implies #[trigger] text.drop_last()[i]
            != '"' by {
            assert(text.drop_last()[i] == text[i]);
        }
        lemma_read_inside_string(text.drop_last(), open);
        assert(text.last() == text[text.len() - 1]);
    }
}

/// A text without quotes and brackets is self-contained.
pub proof fn lemma_plain_is_self_contained(text: Seq<char>)
    requires
        plain(text),
    ensures
        self_contained(text),
    decreases text.len(),
{
    if text.len() > 0 {
        assert forall|i: int| 0 <= i < text.drop_last().len() implies !is_structural(
            #[trigger] text.drop_last()[i],
        ) by {
            assert(text.drop_last()[i] == text[i]);
        }
        lemma_plain_is_self_contained(text.drop_last());
        assert(!is_structural(text[text.len() - 1]));
        assert forall|open: Seq<char>| #[trigger] read(text, outside(open)) == outside(open) by {
            assert(read(text.drop_last(), outside(open)) == outside(open));
        }
    } else {
        assert forall|open: Seq<char>| #[trigger] read(text, outside(open)) == outside(open) by {}
    }
}

/// The concatenation of two self-contained texts is self-contained.
pub proof fn lemma_self_contained_concat(a: Seq<char>, b: Seq<char>)
    requires
        self_contained(a),
        self_contained(b),
    ensures
        self_contained(a + b),
{
    assert forall|open: Seq<char>| #[trigger] read(a + b, outside(open)) == outside(open) by {
        lemma_read_concat(a, b, outside(open));
        assert(read(a, outside(open)) == outside(open));
        assert(read(b, outside(open)) == outside(open));
    }
}

/// A text without quotes, between double quotes, is self-contained.
pub proof fn lemma_quoted_is_self_contained(text: Seq<char>)
    requires
        quote_free(text),
    ensures
        self_contained(quoted(text)),
{
    assert forall|open: Seq<char>| #[trigger] read(quoted(text), outside(open)) == outside(
        open,
    ) by {
        let q = seq!['"'];
        let inside = Some(Nesting { open, in_string: true });
        lemma_read_one('"', outside(open));
        lemma_read_one('"', inside);
        lemma_read_inside_string(text, open);
        lemma_read_concat(q, text, outside(open));
        lemma_read_concat(q + text, q, outside(open));
    }
}

/// A self-contained text between an opening bracket and its closing one is self-contained.
pub proof fn lemma_bracketed_is_self_contained(left: char, body: Seq<char>, right: char)
    requires
        self_contained(body),
        (left == '[' && right == ']') || (left == '{' && right == '}'),
    ensures
        self_contained(seq![left] + body + seq![right]),
{
    assert forall|open: Seq<char>| #[trigger] read(seq![left] + body + seq![right], outside(open))
        == outside(open) by {
        let l = seq![left];
        let r = seq![right];
        lemma_read_one(left, outside(open));
        lemma_read_one(right, outside(open.push(left)));
        assert(read(body, outside(open.push(left))) == outside(open.push(left)));
        assert(open.push(left).drop_last() =~= open);
        lemma_read_concat(l, body, outside(open));
        lemma_read_concat(l + body, r, outside(open));
    }
}

/// Self-contained parts, joined by a self-contained separator, are self-contained.
pub proof fn lemma_join_is_self_contained(parts: Seq<Seq<char>>, sep: Seq<char>)
    requires
        self_contained(sep),
        forall|i: int| 0 <= i < parts.len() ==> self_contained(#[trigger] parts[i]),
    ensures
        self_contained(join(parts, sep)),
    decreases parts.len(),
{
    if parts.len() == 0 {
        lemma_plain_is_self_contained(Seq::empty());
    } else if parts.len() == 1 {
    } else {
        assert forall|i: int| 0 <= i < parts.drop_last().len() implies self_contained(
            #[trigger] parts.drop_last()[i],
        ) by {
            assert(parts.drop_last()[i] == parts[i]);
        }
        lemma_join_is_self_contained(parts.drop_last(), sep);
        lemma_self_contained_concat(join(parts.drop_last(), sep), sep);
        assert(parts.last() == parts[parts.len() - 1]);
        lemma_self_contained_concat(join(parts.drop_last(), sep) + sep, parts.last());
    }
}

/// Indentation is self-contained.
pub proof fn lemma_indentation_is_self_contained(level: nat)
    ensures
        self_contained(indentation(level)),
{
    lemma_plain_is_self_contained(indentation(level));
}

/// A scalar that renders cleanly renders as a self-contained text.
pub proof fn lemma_unit_is_self_contained(t: TokenView)
    requires
        renders_cleanly(t),
    ensures
        self_contained(render_unit(t)),
{
    if t.kind == TokenType::String || t.kind == TokenType::Identifier {
        lemma_quoted_is_self_contained(t.text);
    } else {
        lemma_plain_is_self_contained(t.text);
    }
}

/// A clean expression whose tables are homogeneous renders as a self-contained text.
pub proof fn lemma_render_is_self_contained(e: ExpressionView, level: nat)
    requires
        clean(e),
    ensures
        self_contained(render_text(e, level)),
    decreases e, 1nat,
{
    match e {
        ExpressionView::Unit(t) => {
            lemma_unit_is_self_contained(t);
        },
        ExpressionView::Table(elements) => {
            let lines = render_elements(elements, level + 1);
            let sep = seq![',', '\n'];
            let newline = seq!['\n'];
            assert forall|i: int| 0 <= i < lines.len() implies self_contained(
                #[trigger] lines[i],
            ) by {
                assert(clean_element(elements[i]));
                lemma_element_is_self_contained(elements, i, level + 1);
            }
            lemma_plain_is_self_contained(sep);
            lemma_plain_is_self_contained(newline);
            lemma_join_is_self_contained(lines, sep);
            lemma_indentation_is_self_contained(level);
            let body = join(lines, sep);
            lemma_self_contained_concat(newline, body);
            lemma_self_contained_concat(newline + body, newline);
            lemma_self_contained_concat(newline + body + newline, indentation(level));
            let inner = newline + body + newline + indentation(level);
            if is_array_table(elements) {
                lemma_bracketed_is_self_contained('[', inner, ']');
                assert(render_text(e, level) =~= seq!['['] + inner + seq![']']);
            } else {
                lemma_bracketed_is_self_contained('{', inner, '}');
                assert(render_text(e, level) =~= seq!['{'] + inner + seq!['}']);
            }
        },
    }
}

/// The line of a clean element is self-contained.
pub proof fn lemma_element_is_self_contained(elements: Seq<ElementView>, i: int, level: nat)
    requires
        0 <= i < elements.len(),
        clean_element(elements[i]),
    ensures
        self_contained(render_element(elements[i], level)),
    decreases elements, 0nat,
{
    lemma_indentation_is_self_contained(level);
    match elements[i] {
        ElementView::Array(t) => {
            lemma_unit_is_self_contained(t);
            lemma_self_contained_concat(indentation(level), render_unit(t));
        },
        ElementView::KeyValue { key, value } => {
            let colon = seq![':', ' '];
            lemma_quoted_is_self_contained(key.text);
            lemma_plain_is_self_contained(colon);
            lemma_render_is_self_contained(value, level);
            lemma_self_contained_concat(indentation(level), quoted(key.text));
            lemma_self_contained_concat(indentation(level) + quoted(key.text), colon);
            lemma_self_contained_concat(
                indentation(level) + quoted(key.text) + colon,
                render_text(value, level),
            );
        },
    }
}

/// The text of a clean expression is balanced: read from the start, it ends with no bracket
/// and no string open, and never closes what is not open.
pub proof fn lemma_render_is_balanced(e: ExpressionView, level: nat)
    requires
        clean(e),
    ensures
        balanced(render_text(e, level)),
{
    lemma_render_is_self_contained(e, level);
    assert(read(render_text(e, level), outside(Seq::empty())) == outside(Seq::empty()));
}

/// No letter and no digit is a double quote or a bracket. The tables of Unicode by which the
/// tokenizer tells letters and digits are not part of what is verified here, so what is
/// proved of the lexemes of identifiers and numbers is proved from this.
pub open spec fn letters_and_digits_are_plain() -> bool {
    &&& forall|c: char| #[trigger] unicode_alphabetic(c) ==> !is_structural(c)
    &&& forall|c: char| #[trigger] unicode_numeric(c) ==> !is_structural(c)
}

/// Whether `text` is balanced.
pub fn is_balanced(text: &str) -> (b: bool)
    ensures
        b == balanced(text@),
{
    let mut open: Vec<char> = Vec::new();
    let mut in_string = false;
    let mut failed = false;
    for c in it: text.chars()
        invariant
            it.seq() == text@,
            read(text@.take(it.index()), outside(Seq::empty())) == (if failed {
                None
            } else {
                Some(Nesting { open: open@, in_string })
            }),
    {
        proof {
            let more = text@.take(it.index() + 1);
            assert(more.drop_last() =~= text@.take(it.index()));
            assert(more.last() == c);
        }
        if failed {
        } else if c == '"' {
            in_string = !in_string;
        } else if in_string {
        } else if c == '{' || c == '[' {
            open.push(c);
        } else if c == '}' || c == ']' {
            let wanted = if c == '}' {
                '{'
            } else {
                '['
            };
            match open.pop() {
                Some(last) => {
                    if last != wanted {
                        failed = true;
                    }
                },
                None => {
                    failed = true;
                },
            }
        }
    }
    proof {
        assert(text@.take(text@.len() as int) =~= text@);
        if !failed && !in_string && open.len() == 0 {
            assert(open@ =~= Seq::<char>::empty());
        }
    }
    !failed && !in_string && open.len() == 0
}

/// Tests whether no letter and no digit is a double quote or a bracket, on the five
/// characters concerned.
pub fn check_letters_and_digits_are_plain() -> (b: bool)
    ensures
        b == letters_and_digits_are_plain(),
{
    let quote = '"'.is_alphabetic() || '"'.is_numeric();
    let left_brace = '{'.is_alphabetic() || '{'.is_numeric();
    let right_brace = '}'.is_alphabetic() || '}'.is_numeric();
    let left_bracket = '['.is_alphabetic() || '['.is_numeric();
    let right_bracket = ']'.is_alphabetic() || ']'.is_numeric();
    proof {
        assert(is_structural('"') && is_structural('{') && is_structural('}') && is_structural('[')
            && is_structural(']'));
    }
    !(quote || left_brace || right_brace || left_bracket || right_bracket)
}

/// All the characters of a run satisfy its predicate.
pub proof fn lemma_run_all_satisfy(s: Seq<char>, p: spec_fn(char) -> bool)
    ensures
        forall|i: int| 0 <= i < run_length(s, p) ==> p(#[trigger] s[i]),
    decreases s.len(),
{
    if s.len() > 0 && p(s[0]) {
        lemma_run_all_satisfy(s.drop_first(), p);
        lemma_run_length_bounds(s.drop_first(), p);
        assert forall|i: int| 0 <= i < run_length(s, p) implies p(#[trigger] s[i]) by {
            if i > 0 {
                assert(s[i] == s.drop_first()[i - 1]);
            }
        }
    }
}

/// The lexeme of a unit token of the tokenizer renders cleanly, if no letter and no digit is
/// a double quote or a bracket.
pub proof fn lemma_next_token_clean(s: Seq<char>)
    requires
        letters_and_digits_are_plain(),
    ensures
        next_token(s) matches Ok(lexed) ==> (kind_is_unit(lexed.token.kind) ==> renders_cleanly(
            lexed.token,
        ) && quote_free(lexed.token.text)),
    decreases s.len(),
{
    if s.len() == 0 {
    } else if single_char_kind(s[0]) is Some {
    } else if is_identifier_start(s[0]) {
        let n = run_length(s, identifier_chars());
        lemma_run_length_bounds(s, identifier_chars());
        lemma_run_all_satisfy(s, identifier_chars());
        let text = s.take(n as int);
        assert forall|i: int| 0 <= i < text.len() implies #[trigger] text[i] != '"' by {
            assert(is_identifier_part(s[i]));
        }
    } else if is_number_start(s[0]) {
        let n = run_length(s, number_chars());
        lemma_run_length_bounds(s, number_chars());
        lemma_run_all_satisfy(s, number_chars());
        let text = s.take(n as int);
        assert forall|i: int| 0 <= i < text.len() implies #[trigger] text[i] != '"' by {
            assert(is_number_part(s[i]));
        }
        if number_kind(text) != TokenType::Identifier {
            assert forall|i: int| 0 <= i < text.len() implies !is_structural(
                #[trigger] text[i],
            ) by {
                assert(is_number_part(s[i]));
                assert(!has_letter(text));
                assert(!is_identifier_start(text[i]));
            }
        }
    } else if s[0] == '"' {
        let rest = s.skip(1);
        let n = run_length(rest, string_chars());
        lemma_run_length_bounds(rest, string_chars());
        lemma_run_all_satisfy(rest, string_chars());
        if n + 1 != s.len() {
            let text = s.subrange(1, n as int + 1);
            assert forall|i: int| 0 <= i < text.len() implies #[trigger] text[i] != '"' by {
                assert(text[i] == rest[i]);
                assert(string_chars()(rest[i]));
            }
        }
    } else if unicode_whitespace(s[0]) {
        lemma_run_length_bounds(s, space_chars());
        lemma_next_token_clean(s.skip(run_length(s, space_chars()) as int));
    } else if s[0] == '#' {
        lemma_run_length_bounds(s, comment_chars());
        lemma_next_token_clean(s.skip(run_length(s, comment_chars()) as int));
    } else {
    }
}

/// Every scalar and every key of a parsed expression renders cleanly, if no letter and no
/// digit is a double quote or a bracket.
pub proof fn lemma_parse_expr_clean(s: Seq<char>)
    requires
        letters_and_digits_are_plain(),
    ensures
        parse_expr(s) matches Ok(p) ==> clean(p.value),
    decreases s.len(), 1nat,
{
    lemma_next_token_bounds(s);
    lemma_next_token_clean(s);
    if let Ok(first) = next_token(s) {
        if !kind_is_unit(first.token.kind) && first.token.kind == TokenType::LBrace {
            lemma_parse_table_clean(s.skip(first.consumed as int), Seq::empty());
        }
    }
}

/// The elements of a parsed table are clean if those before them are, and if no letter and no
/// digit is a double quote or a bracket.
pub proof fn lemma_parse_table_clean(s: Seq<char>, seen: Seq<ElementView>)
    requires
        letters_and_digits_are_plain(),
        clean(ExpressionView::Table(seen)),
    ensures
        parse_table(s, seen) matches Ok(p) ==> clean(ExpressionView::Table(p.value)),
    decreases s.len(), 0nat,
{
    lemma_next_token_bounds(s);
    lemma_next_token_clean(s);
    if let Ok(cur) = next_token(s) {
        let s1 = s.skip(cur.consumed as int);
        lemma_next_token_bounds(s1);
        lemma_next_token_clean(s1);
        if cur.token.kind != TokenType::RBrace && kind_is_unit(cur.token.kind) {
            if let Ok(next) = next_token(s1) {
                let s2 = s1.skip(next.consumed as int);
                if next.token.kind == TokenType::Equal && kind_is_key(cur.token.kind) {
                    if all_keyed(seen) {
                        lemma_parse_expr_clean(s2);
                        if let Ok(value) = parse_expr(s2) {
                            let entry = ElementView::KeyValue {
                                key: cur.token,
                                value: value.value,
                            };
                            lemma_clean_push(seen, entry);
                            lemma_parse_table_clean(unread(s2, value.consumed), seen.push(entry));
                        }
                    }
                } else if kind_is_unit(next.token.kind) {
                    if all_array(seen) {
                        let one = ElementView::Array(cur.token);
                        let two = ElementView::Array(next.token);
                        lemma_clean_push(seen, one);
                        lemma_clean_push(seen.push(one), two);
                        lemma_parse_table_clean(s2, seen.push(one).push(two));
                    }
                } else if next.token.kind == TokenType::RBrace {
                    if all_array(seen) {
                        lemma_clean_push(seen, ElementView::Array(cur.token));
                    }
                }
            }
        }
    }
}

/// Clean elements stay clean with one more clean element.
pub proof fn lemma_clean_push(seen: Seq<ElementView>, element: ElementView)
    requires
        clean(ExpressionView::Table(seen)),
        clean_element(element),
    ensures
        clean(ExpressionView::Table(seen.push(element))),
{
    let more = seen.push(element);
    assert(ExpressionView::Table(seen)->Table_0 == seen);
    assert forall|i: int| 0 <= i < more.len() implies clean_element(#[trigger] more[i]) by {
        if i < seen.len() {
            assert(more[i] == seen[i]);
        }
    }
}

} // verus!
