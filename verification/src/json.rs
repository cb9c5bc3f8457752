//! Rendering a syntax tree as pretty-printed JSON text.

use crate::error::{ConvertError, ErrorView};
use crate::text::{
    indentation, indentation_string, join, join_strings, lemma_indentation_step, push_indent,
    views_of,
};
use crate::token::{Token, TokenType, TokenView};
use crate::typedefs::{
    all_array, all_keyed, elements_view, homogeneous, kind_of_elements, lemma_all_array_push,
    lemma_all_keyed_push, lemma_kind_of_elements, well_shaped, ElementView, Expression,
    ExpressionView, TableElement,
};
use vstd::prelude::*;

verus! {

/// `text` between double quotes, with nothing escaped.
pub open spec fn quoted(text: Seq<char>) -> Seq<char> {
    seq!['"'] + text + seq!['"']
}

/// A scalar as JSON: strings and identifiers between double quotes, anything else as it was
/// written.
pub open spec fn render_unit(t: TokenView) -> Seq<char> {
    if t.kind == TokenType::String || t.kind == TokenType::Identifier {
        quoted(t.text)
    } else {
        t.text
    }
}

/// A table renders as an array when its first element is an array item. The empty table
/// renders as an object.
pub open spec fn is_array_table(elements: Seq<ElementView>) -> bool {
    elements.len() > 0 && elements[0] is Array
}

/// The JSON text of `e` where the enclosing indentation level is `level`, for a well-shaped
/// `e`.
pub open spec fn render_text(e: ExpressionView, level: nat) -> Seq<char>
    decreases e,
{
    match e {
        ExpressionView::Unit(t) => render_unit(t),
        ExpressionView::Table(elements) => {
            let body = join(render_elements(elements, level + 1), seq![',', '\n']);
            if is_array_table(elements) {
                seq!['[', '\n'] + body + seq!['\n'] + indentation(level) + seq![']']
            } else {
                seq!['{', '\n'] + body + seq!['\n'] + indentation(level) + seq!['}']
            }
        },
    }
}

/// The line of one element at indentation level `level`: the scalar of an array item, or
/// `"key": value` for an entry, whose key is quoted whatever its kind.
pub open spec fn render_element(el: ElementView, level: nat) -> Seq<char>
    decreases el,
{
    match el {
        ElementView::Array(t) => indentation(level) + render_unit(t),
        ElementView::KeyValue { key, value } => indentation(level) + quoted(key.text) + seq![
            ':',
            ' ',
        ] + render_text(value, level),
    }
}

/// The lines of the elements of a table, in source order.
pub open spec fn render_elements(elements: Seq<ElementView>, level: nat) -> Seq<Seq<char>>
    decreases elements,
{
    Seq::new(
        elements.len(),
        |i: int|
            if 0 <= i < elements.len() {
                render_element(elements[i], level)
            } else {
                arbitrary()
            },
    )
}

/// The outcome of rendering `e`: its JSON text if every table in it is homogeneous, the error
/// `MixedTableKinds` otherwise.
pub open spec fn render(e: ExpressionView, level: nat) -> Result<Seq<char>, ErrorView> {
    if well_shaped(e) {
        Ok(render_text(e, level))
    } else {
        Err(ErrorView::MixedTableKinds)
    }
}

/// Whether the result of a rendering is the one that the model gives.
pub open spec fn rendered_as(
    r: Result<String, ConvertError>,
    expected: Result<Seq<char>, ErrorView>,
) -> bool {
    match expected {
        Ok(text) => r matches Ok(s) && s@ == text,
        Err(e) => r matches Err(x) && x@ == e,
    }
}

fn unit_to_json(unit: &Token) -> (s: String)
    ensures
        s@ == render_unit(unit@),
{
    if unit.token_type == TokenType::String || unit.token_type == TokenType::Identifier {
        quote(&unit.value)
    } else {
        unit.value.clone()
    }
}

fn quote(text: &String) -> (s: String)
    ensures
        s@ == quoted(text@),
{
    let mut s = String::new();
    s.push('"');
    s.append(text.as_str());
    s.push('"');
    proof {
        assert(s@ =~= quoted(text@));
    }
    s
}

fn render_at(expr: &Expression, indent_str: &String, Ghost(level): Ghost<nat>) -> (r: Result<
    String,
    ConvertError,
>)
    requires
        indent_str@ == indentation(level),
    ensures
        rendered_as(r, render(expr@, level)),
    decreases expr,
{
    match expr {
        Expression::Unit(unit) => Ok(unit_to_json(unit)),
        Expression::Table(table) => {
            let ghost elements = elements_view(table.elements@);
            let ghost lines = render_elements(elements, level + 1);
            let mut next_indent_str = indent_str.clone();
            push_indent(&mut next_indent_str);
            proof {
                lemma_indentation_step(level);
            }
            let mut is_array: Option<bool> = None;
            let mut table_strings: Vec<String> = Vec::new();
            let mut i: usize = 0;
            while i < table.elements.len()
                invariant
                    expr is Table,
                    expr->Table_0 == *table,
                    elements == elements_view(table.elements@),
                    lines == render_elements(elements, level + 1),
                    next_indent_str@ == indentation(level + 1),
                    i <= table.elements.len(),
                    table_strings@.len() == i,
                    kind_of_elements(is_array, elements.take(i as int)),
                    forall|j: int|
                        0 <= j < i && (#[trigger] elements[j]) is KeyValue ==> well_shaped(
                            elements[j]->value,
                        ),
                    forall|j: int| 0 <= j < i ==> (#[trigger] table_strings@[j])@ == lines[j],
                decreases table.elements.len() - i,
            {
                let ghost seen = elements.take(i as int);
                proof {
                    lemma_kind_of_elements(is_array, seen);
                    assert(elements.take(i + 1) =~= seen.push(elements[i as int]));
                    if i > 0 {
                        assert(seen[0] == elements[0]);
                    }
                }
                let mut line = next_indent_str.clone();
                match &table.elements[i] {
                    TableElement::ArrayElement(element) => {
                        if is_array == Some(false) {
                            return Err(ConvertError::MixedTableKinds);
                        }
                        is_array = Some(true);
                        proof {
                            lemma_all_array_push(seen, elements[i as int]);
                        }
                        let text = unit_to_json(element);
                        line.append(text.as_str());
                    },
                    TableElement::KeyValueElement(key_value_element) => {
                        if is_array == Some(true) {
                            return Err(ConvertError::MixedTableKinds);
                        }
                        is_array = Some(false);
                        proof {
                            lemma_all_keyed_push(seen, elements[i as int]);
                            assert(decreases_to!(table.elements => table.elements[i as int]));
                            assert(decreases_to!(*expr => expr->Table_0.elements));
                        }
                        let expr_json = match render_at(
                            &key_value_element.value,
                            &next_indent_str,
                            Ghost(level + 1),
                        ) {
                            Ok(s) => s,
                            Err(e) => {
                                return Err(e);
                            },
                        };
                        let key = quote(&key_value_element.key.value);
                        line.append(key.as_str());
                        line.push(':');
                        line.push(' ');
                        line.append(expr_json.as_str());
                    },
                }
                proof {
                    assert(line@ =~= lines[i as int]);
                }
                table_strings.push(line);
                i = i + 1;
            }
            proof {
                assert(elements.take(i as int) =~= elements);
                assert(views_of(table_strings@) =~= lines);
                lemma_kind_of_elements(is_array, elements);
                reveal_strlit(",\n");
                assert(",\n"@ =~= seq![',', '\n']);
            }
            let body = join_strings(&table_strings, ",\n");
            let mut out = String::new();
            if let Some(true) = is_array {
                out.push('[');
            } else {
                out.push('{');
            }
            out.push('\n');
            out.append(body.as_str());
            out.push('\n');
            out.append(indent_str.as_str());
            if let Some(true) = is_array {
                out.push(']');
            } else {
                out.push('}');
            }
            proof {
                assert(is_array == Some(true) <==> is_array_table(elements));
                assert(out@ =~= render_text(expr@, level));
            }
            Ok(out)
        },
    }
}

/// Renders `expr` as JSON text, where `indent` is the indentation level of the enclosing
/// brackets.
///
/// A scalar renders as its lexeme, between double quotes if it is a string or an identifier.
/// A table renders as an array or an object, one element per line, each four spaces deeper
/// than the brackets. A table that holds both array items and object entries, at any depth,
/// is an error.
pub fn parse_expr_to_json(expr: &Expression, indent: usize) -> (r: Result<String, ConvertError>)
    ensures
        rendered_as(r, render(expr@, indent as nat)),
{
    let indent_str = indentation_string(indent);
    render_at(expr, &indent_str, Ghost(indent as nat))
}

/// An integer or a float renders as its exact lexeme, with no quotes, by itself and as an
/// item of an array.
pub proof fn lemma_number_renders_raw(t: TokenView, level: nat)
    requires
        t.kind == TokenType::Integer || t.kind == TokenType::Float,
    ensures
        render(ExpressionView::Unit(t), level) == Ok::<Seq<char>, ErrorView>(t.text),
        render_element(ElementView::Array(t), level) == indentation(level) + t.text,
{
}

/// A string or an identifier renders as its lexeme between one pair of double quotes: the
/// first and the last character are the quotes, and what stands between them is the lexeme,
/// character for character.
pub proof fn lemma_text_renders_quoted(t: TokenView, level: nat)
    requires
        t.kind == TokenType::String || t.kind == TokenType::Identifier,
    ensures
        render(ExpressionView::Unit(t), level) == Ok::<Seq<char>, ErrorView>(quoted(t.text)),
        render_element(ElementView::Array(t), level) == indentation(level) + quoted(t.text),
        quoted(t.text).len() == t.text.len() + 2,
        quoted(t.text).first() == '"',
        quoted(t.text).last() == '"',
        quoted(t.text).subrange(1, t.text.len() as int + 1) == t.text,
{
    assert(quoted(t.text).subrange(1, t.text.len() as int + 1) =~= t.text);
}

/// A table that holds array items only, and at least one, renders as a JSON array: `[`, the
/// items in source order, one per line, a level deeper and with `,` between them, and `]` at
/// the level of the table.
pub proof fn lemma_array_renders_in_order(elements: Seq<ElementView>, level: nat)
    requires
        elements.len() > 0,
        all_array(elements),
    ensures
        render(ExpressionView::Table(elements), level) == Ok::<Seq<char>, ErrorView>(
            seq!['[', '\n'] + join(
                Seq::new(
                    elements.len(),
                    |i: int| indentation(level + 1) + render_unit(elements[i]->Array_0),
                ),
                seq![',', '\n'],
            ) + seq!['\n'] + indentation(level) + seq![']'],
        ),
{
    let lines = Seq::new(
        elements.len(),
        |i: int| indentation(level + 1) + render_unit(elements[i]->Array_0),
    );
    assert(elements[0] is Array);
    assert forall|i: int| 0 <= i < elements.len() implies render_elements(elements, level + 1)[i]
        == lines[i] by {
        assert(elements[i] is Array);
    }
    assert(render_elements(elements, level + 1) =~= lines);
    assert(well_shaped(ExpressionView::Table(elements))) by {
        assert forall|i: int| 0 <= i < elements.len() implies !((#[trigger] elements[i])
            is KeyValue) by {}
    }
}

/// A table that holds object entries only, whose values render, renders as a JSON object:
/// `{`, the entries in source order, one per line, a level deeper and with `,` between them,
/// each as its key between double quotes, `: `, and its value, and `}` at the level of the
/// table.
pub proof fn lemma_object_renders_in_order(elements: Seq<ElementView>, level: nat)
    requires
        all_keyed(elements),
        forall|i: int| 0 <= i < elements.len() ==> well_shaped((#[trigger] elements[i])->value),
    ensures
        render(ExpressionView::Table(elements), level) == Ok::<Seq<char>, ErrorView>(
            seq!['{', '\n'] + join(
                Seq::new(
                    elements.len(),
                    |i: int|
                        indentation(level + 1) + quoted(elements[i]->key.text) + seq![':', ' ']
                            + render_text(elements[i]->value, level + 1),
                ),
                seq![',', '\n'],
            ) + seq!['\n'] + indentation(level) + seq!['}'],
        ),
{
    let lines = Seq::new(
        elements.len(),
        |i: int|
            indentation(level + 1) + quoted(elements[i]->key.text) + seq![':', ' ']
                + render_text(elements[i]->value, level + 1),
    );
    if elements.len() > 0 {
        assert(elements[0] is KeyValue);
    }
    assert forall|i: int| 0 <= i < elements.len() implies render_elements(elements, level + 1)[i]
        == lines[i] by {
        assert(elements[i] is KeyValue);
    }
    assert(render_elements(elements, level + 1) =~= lines);
}

/// A table that holds both an array item and an object entry does not render: the result is
/// the error `MixedTableKinds`.
pub proof fn lemma_mixed_table_fails(elements: Seq<ElementView>, i: int, j: int, level: nat)
    requires
        0 <= i < elements.len(),
        0 <= j < elements.len(),
        elements[i] is Array,
        elements[j] is KeyValue,
    ensures
        render(ExpressionView::Table(elements), level) == Err::<Seq<char>, ErrorView>(
            ErrorView::MixedTableKinds,
        ),
{
    assert(!homogeneous(elements));
}

/// A table with an entry whose value does not render does not render either: a mixed table
/// fails the rendering at whatever depth it stands.
pub proof fn lemma_failure_inside_fails(
    elements: Seq<ElementView>,
    i: int,
    level: nat,
    inner: nat,
)
    requires
        0 <= i < elements.len(),
        elements[i] is KeyValue,
        render(elements[i]->value, inner) is Err,
    ensures
        render(ExpressionView::Table(elements), level) == Err::<Seq<char>, ErrorView>(
            ErrorView::MixedTableKinds,
        ),
{
    assert(!well_shaped(elements[i]->value));
}

/// Rendering fails with no other error than `MixedTableKinds`, and it succeeds on every
/// expression whose tables are homogeneous.
pub proof fn lemma_render_fails_on_mixed_only(e: ExpressionView, level: nat)
    ensures
        render(e, level) is Ok <==> well_shaped(e),
        render(e, level) matches Err(x) ==> x == ErrorView::MixedTableKinds,
{
}

} // verus!
