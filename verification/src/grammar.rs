//! The grammar of programs, stated on sequences of characters, and a recursive-descent parser
//! for any source of characters that follows it.
//!
//! ```text
//! Program := Identifier '=' Expr
//! Expr    := Unit | '{' Element* '}'
//! Element := Key '=' Expr | Unit
//! ```

use crate::error::{ConvertError, ErrorView};
use crate::scanner::{
    advanced_by, lemma_advanced_twice, lemma_next_token_bounds, next_token, scan_token, unread,
    CharSource, Failure,
};
use crate::token::{kind_is_key, kind_is_unit, TokenType, TokenView};
use crate::typedefs::{
    all_array, all_keyed, elements_view, kind_of_elements, lemma_all_array_push,
    lemma_all_keyed_push, lemma_elements_view_push, lemma_kind_of_elements, well_shaped,
    well_typed, well_typed_element, AssignmentStatement, ElementView, Expression,
    ExpressionView, KeyValue, Statement, StatementView, Table, TableElement,
};
use vstd::prelude::*;

verus! {

/// What was parsed, together with the number of characters that were consumed for it.
pub struct Parsed<V> {
    pub value: V,
    pub consumed: nat,
}

/// The error `error`, found after `consumed` characters.
pub open spec fn fails<V>(error: ErrorView, consumed: nat) -> Result<Parsed<V>, Failure> {
    Err(Failure { error, consumed })
}

/// The outcome `next` of parsing what follows `consumed` characters.
pub open spec fn after_consuming<V>(consumed: nat, next: Result<Parsed<V>, Failure>) -> Result<
    Parsed<V>,
    Failure,
> {
    match next {
        Ok(p) => Ok(Parsed { value: p.value, consumed: consumed + p.consumed }),
        Err(f) => Err(Failure { error: f.error, consumed: consumed + f.consumed }),
    }
}

/// The table whose elements are the outcome `elements`.
pub open spec fn as_table(elements: Result<Parsed<Seq<ElementView>>, Failure>) -> Result<
    Parsed<ExpressionView>,
    Failure,
> {
    match elements {
        Ok(p) => Ok(Parsed { value: ExpressionView::Table(p.value), consumed: p.consumed }),
        Err(f) => Err(f),
    }
}

/// The expression at the front of `s`: a unit token, or a table from `{` to its `}`.
pub open spec fn parse_expr(s: Seq<char>) -> Result<Parsed<ExpressionView>, Failure>
    decreases s.len(), 1nat,
{
    match next_token(s) {
        Err(f) => Err(f),
        Ok(first) => {
            if kind_is_unit(first.token.kind) {
                Ok(Parsed { value: ExpressionView::Unit(first.token), consumed: first.consumed })
            } else if first.token.kind == TokenType::LBrace {
                proof {
                    lemma_next_token_bounds(s);
                }
                after_consuming(
                    first.consumed,
                    as_table(parse_table(s.skip(first.consumed as int), Seq::empty())),
                )
            } else {
                fails(ErrorView::UnexpectedToken(first.token), first.consumed)
            }
        },
    }
}

/// The elements of a table whose `{` was consumed, where `s` is what follows the elements
/// `seen`: all the elements up to and including the closing `}`.
///
/// A unit token is read together with the token after it. Before `=`, a key-eligible token is
/// the key of an entry. Before another unit token, both are array items. Before `}`, it is the
/// last array item. An element of the other kind than those before it is refused when it is
/// met.
pub open spec fn parse_table(s: Seq<char>, seen: Seq<ElementView>) -> Result<
    Parsed<Seq<ElementView>>,
    Failure,
>
    decreases s.len(), 0nat,
{
    match next_token(s) {
        Err(f) => Err(f),
        Ok(cur) => {
            let s1 = s.skip(cur.consumed as int);
            if cur.token.kind == TokenType::RBrace {
                Ok(Parsed { value: seen, consumed: cur.consumed })
            } else if kind_is_unit(cur.token.kind) {
                match next_token(s1) {
                    Err(f) => after_consuming(cur.consumed, Err(f)),
                    Ok(next) => {
                        let s2 = s1.skip(next.consumed as int);
                        let both = cur.consumed + next.consumed;
                        proof {
                            lemma_next_token_bounds(s);
                            lemma_next_token_bounds(s1);
                        }
                        if next.token.kind == TokenType::Equal && kind_is_key(cur.token.kind) {
                            if !all_keyed(seen) {
                                fails(ErrorView::MixedTableKinds, both)
                            } else {
                                match parse_expr(s2) {
                                    Err(f) => after_consuming(both, Err(f)),
                                    Ok(value) => {
                                        let entry = ElementView::KeyValue {
                                            key: cur.token,
                                            value: value.value,
                                        };
                                        after_consuming(
                                            both + value.consumed,
                                            parse_table(
                                                unread(s2, value.consumed),
                                                seen.push(entry),
                                            ),
                                        )
                                    },
                                }
                            }
                        } else if kind_is_unit(next.token.kind) {
                            if !all_array(seen) {
                                fails(ErrorView::MixedTableKinds, both)
                            } else {
                                after_consuming(
                                    both,
                                    parse_table(
                                        s2,
                                        seen.push(ElementView::Array(cur.token)).push(
                                            ElementView::Array(next.token),
                                        ),
                                    ),
                                )
                            }
                        } else if next.token.kind == TokenType::RBrace {
                            if !all_array(seen) {
                                fails(ErrorView::MixedTableKinds, both)
                            } else {
                                Ok(
                                    Parsed {
                                        value: seen.push(ElementView::Array(cur.token)),
                                        consumed: both,
                                    },
                                )
                            }
                        } else {
                            fails(ErrorView::UnexpectedToken(next.token), both)
                        }
                    },
                }
            } else if cur.token.kind == TokenType::EOF {
                fails(ErrorView::UnexpectedEndOfInput, cur.consumed)
            } else if cur.token.kind == TokenType::Undefined {
                fails(ErrorView::UndefinedToken(cur.token), cur.consumed)
            } else {
                fails(ErrorView::UnexpectedToken(cur.token), cur.consumed)
            }
        },
    }
}

/// The statement that assigns the outcome `value` to `identifier`.
pub open spec fn as_assignment(
    identifier: TokenView,
    value: Result<Parsed<ExpressionView>, Failure>,
) -> Result<Parsed<StatementView>, Failure> {
    match value {
        Ok(p) => Ok(
            Parsed { value: StatementView { identifier, value: p.value }, consumed: p.consumed },
        ),
        Err(f) => Err(f),
    }
}

/// The program at the front of `s`: an identifier, `=`, and an expression. What follows the
/// expression is not read.
pub open spec fn parse_program(s: Seq<char>) -> Result<Parsed<StatementView>, Failure> {
    match next_token(s) {
        Err(f) => Err(f),
        Ok(first) => {
            let s1 = s.skip(first.consumed as int);
            if first.token.kind != TokenType::Identifier {
                fails(ErrorView::ExpectedIdentifier(first.token), first.consumed)
            } else {
                match next_token(s1) {
                    Err(f) => after_consuming(first.consumed, Err(f)),
                    Ok(second) => {
                        let s2 = s1.skip(second.consumed as int);
                        let both = first.consumed + second.consumed;
                        if second.token.kind != TokenType::Equal {
                            fails(ErrorView::ExpectedAssignment(second.token), both)
                        } else {
                            after_consuming(both, as_assignment(first.token, parse_expr(s2)))
                        }
                    },
                }
            }
        },
    }
}

/// An expression consumes no more than there is, whether it parses or not.
pub proof fn lemma_parse_expr_bounds(s: Seq<char>)
    ensures
        parse_expr(s) matches Ok(p) ==> p.consumed <= s.len(),
        parse_expr(s) matches Err(f) ==> f.consumed <= s.len(),
    decreases s.len(), 1nat,
{
    lemma_next_token_bounds(s);
    if let Ok(first) = next_token(s) {
        if !kind_is_unit(first.token.kind) && first.token.kind == TokenType::LBrace {
            lemma_parse_table_bounds(s.skip(first.consumed as int), Seq::empty());
        }
    }
}

/// The elements of a table consume no more than there is, whether they parse or not.
pub proof fn lemma_parse_table_bounds(s: Seq<char>, seen: Seq<ElementView>)
    ensures
        parse_table(s, seen) matches Ok(p) ==> p.consumed <= s.len(),
        parse_table(s, seen) matches Err(f) ==> f.consumed <= s.len(),
    decreases s.len(), 0nat,
{
    lemma_next_token_bounds(s);
    if let Ok(cur) = next_token(s) {
        let s1 = s.skip(cur.consumed as int);
        lemma_next_token_bounds(s1);
        if cur.token.kind != TokenType::RBrace && kind_is_unit(cur.token.kind) {
            if let Ok(next) = next_token(s1) {
                let s2 = s1.skip(next.consumed as int);
                if next.token.kind == TokenType::Equal && kind_is_key(cur.token.kind) {
                    if all_keyed(seen) {
                        lemma_parse_expr_bounds(s2);
                        if let Ok(value) = parse_expr(s2) {
                            let entry = ElementView::KeyValue {
                                key: cur.token,
                                value: value.value,
                            };
                            lemma_parse_table_bounds(
                                unread(s2, value.consumed),
                                seen.push(entry),
                            );
                        }
                    }
                } else if kind_is_unit(next.token.kind) {
                    if all_array(seen) {
                        lemma_parse_table_bounds(
                            s2,
                            seen.push(ElementView::Array(cur.token)).push(
                                ElementView::Array(next.token),
                            ),
                        );
                    }
                }
            }
        }
    }
}

/// Whether the elements can be those of a table of a parsed program: they are of one kind,
/// their scalars are unit tokens, their keys are key-eligible, and the same holds inside the
/// values of the entries.
pub open spec fn sound_elements(elements: Seq<ElementView>) -> bool {
    sound(ExpressionView::Table(elements))
}

/// Every table of a parsed expression is homogeneous, every scalar in it is a unit token and
/// every key is key-eligible.
pub proof fn lemma_parse_expr_sound(s: Seq<char>)
    ensures
        parse_expr(s) matches Ok(p) ==> sound(p.value),
    decreases s.len(), 1nat,
{
    lemma_next_token_bounds(s);
    if let Ok(first) = next_token(s) {
        if !kind_is_unit(first.token.kind) && first.token.kind == TokenType::LBrace {
            lemma_parse_table_sound(s.skip(first.consumed as int), Seq::empty());
        }
    }
}

/// The elements of a parsed table are sound if those before them are.
pub proof fn lemma_parse_table_sound(s: Seq<char>, seen: Seq<ElementView>)
    requires
        sound_elements(seen),
    ensures
        parse_table(s, seen) matches Ok(p) ==> sound_elements(p.value),
    decreases s.len(), 0nat,
{
    lemma_next_token_bounds(s);
    if let Ok(cur) = next_token(s) {
        let s1 = s.skip(cur.consumed as int);
        lemma_next_token_bounds(s1);
        if cur.token.kind != TokenType::RBrace && kind_is_unit(cur.token.kind) {
            if let Ok(next) = next_token(s1) {
                let s2 = s1.skip(next.consumed as int);
                if next.token.kind == TokenType::Equal && kind_is_key(cur.token.kind) {
                    if all_keyed(seen) {
                        lemma_parse_expr_sound(s2);
                        if let Ok(value) = parse_expr(s2) {
                            let entry = ElementView::KeyValue {
                                key: cur.token,
                                value: value.value,
                            };
                            lemma_sound_elements_push(seen, entry);
                            lemma_parse_table_sound(unread(s2, value.consumed), seen.push(entry));
                        }
                    }
                } else if kind_is_unit(next.token.kind) {
                    if all_array(seen) {
                        let one = ElementView::Array(cur.token);
                        let two = ElementView::Array(next.token);
                        lemma_sound_elements_push(seen, one);
                        lemma_sound_elements_push(seen.push(one), two);
                        lemma_parse_table_sound(s2, seen.push(one).push(two));
                    }
                } else if next.token.kind == TokenType::RBrace {
                    if all_array(seen) {
                        lemma_sound_elements_push(seen, ElementView::Array(cur.token));
                    }
                }
            }
        }
    }
}

/// Sound elements stay sound with one more element of their kind that is sound itself.
pub proof fn lemma_sound_elements_push(seen: Seq<ElementView>, element: ElementView)
    requires
        sound_elements(seen),
        well_typed_element(element),
        match element {
            ElementView::Array(_) => all_array(seen),
            ElementView::KeyValue { key, value } => all_keyed(seen) && well_shaped(value),
        },
    ensures
        sound_elements(seen.push(element)),
        element is Array ==> all_array(seen.push(element)),
        element is KeyValue ==> all_keyed(seen.push(element)),
{
    let more = seen.push(element);
    assert forall|i: int| 0 <= i < more.len() implies well_typed_element(#[trigger] more[i])
        && (more[i] is KeyValue ==> well_shaped(more[i]->value)) && (element is Array
        ==> more[i] is Array) && (element is KeyValue ==> more[i] is KeyValue) by {
        if i < seen.len() {
            assert(more[i] == seen[i]);
        }
    }
}

/// Whether the expression can be the value of a parsed program: its tables are homogeneous,
/// its scalars are unit tokens and its keys are key-eligible.
pub open spec fn sound(e: ExpressionView) -> bool {
    well_shaped(e) && well_typed(e)
}

/// Whether the statement can be a parsed program: it assigns a sound value to an identifier.
pub open spec fn sound_statement(st: StatementView) -> bool {
    st.identifier.kind == TokenType::Identifier && sound(st.value)
}

/// A parsed program assigns a sound value to an identifier.
pub proof fn lemma_parse_program_sound(s: Seq<char>)
    ensures
        parse_program(s) matches Ok(p) ==> sound_statement(p.value),
{
    lemma_next_token_bounds(s);
    if let Ok(first) = next_token(s) {
        let s1 = s.skip(first.consumed as int);
        lemma_next_token_bounds(s1);
        if let Ok(second) = next_token(s1) {
            lemma_parse_expr_sound(s1.skip(second.consumed as int));
        }
    }
}

/// Whether `r` and the source `after` are what parsing an expression from `before` gives: the
/// expression of the grammar, or the error of the grammar, with the characters consumed that
/// the grammar tells.
pub open spec fn parsed_expression<S: CharSource>(
    before: S,
    r: Result<Expression, ConvertError>,
    after: S,
) -> bool {
    match parse_expr(before.remaining()) {
        Ok(p) => r matches Ok(e) && e@ == p.value && advanced_by(before, p.consumed, after),
        Err(f) => r matches Err(e) && e@ == f.error && advanced_by(before, f.consumed, after),
    }
}

/// Whether `r` and the source `after` are what parsing a program from `before` gives: the
/// statement of the grammar, or the error of the grammar, with the characters consumed that
/// the grammar tells.
pub open spec fn parsed_program<S: CharSource>(
    before: S,
    r: Result<Statement, ConvertError>,
    after: S,
) -> bool {
    match parse_program(before.remaining()) {
        Ok(p) => r matches Ok(st) && st@ == p.value && advanced_by(before, p.consumed, after),
        Err(f) => r matches Err(e) && e@ == f.error && advanced_by(before, f.consumed, after),
    }
}

/// Parses the expression at the front of `src`: a unit token, or a table.
pub fn parse_expression<S: CharSource>(src: &mut S) -> (r: Result<Expression, ConvertError>)
    ensures
        parsed_expression(*old(src), r, *final(src)),
        r matches Ok(e) ==> sound(e@),
    decreases old(src).remaining().len(),
{
    let ghost s = src.remaining();
    proof {
        lemma_parse_expr_sound(s);
    }
    let cur_token = match scan_token(src) {
        Ok(token) => token,
        Err(e) => {
            return Err(e);
        },
    };
    let ghost first = next_token(s)->Ok_0;
    proof {
        lemma_next_token_bounds(s);
    }
    if cur_token.is_unit() {
        return Ok(Expression::Unit(cur_token));
    } else if cur_token.token_type == TokenType::LBrace {
        let ghost k0 = first.consumed;
        let ghost t0 = s.skip(k0 as int);
        let ghost mut done: nat = 0;
        let mut table_elements: Vec<TableElement> = Vec::new();
        let mut is_array: Option<bool> = None;
        proof {
            assert(elements_view(table_elements@) =~= Seq::<ElementView>::empty());
        }
        loop
            invariant
                k0 >= 1,
                k0 + done <= s.len(),
                s == old(src).remaining(),
                t0 == s.skip(k0 as int),
                parse_expr(s) == after_consuming(k0, as_table(parse_table(t0, Seq::empty()))),
                parse_expr(s) matches Ok(p) ==> sound(p.value),
                advanced_by(*old(src), k0 + done, *src),
                parse_table(t0, Seq::empty()) == after_consuming(
                    done,
                    parse_table(src.remaining(), elements_view(table_elements@)),
                ),
                kind_of_elements(is_array, elements_view(table_elements@)),
            decreases src.remaining().len(),
        {
            let ghost before = *src;
            let r = parse_element(src, &mut table_elements, &mut is_array);
            proof {
                let k = (src.position() - before.position()) as nat;
                lemma_advanced_twice(*old(src), k0 + done, before, k, *src);
            }
            match r {
                Ok(true) => {
                    return Ok(Expression::Table(Table { elements: table_elements }));
                },
                Ok(false) => {
                    proof {
                        done = done + (src.position() - before.position()) as nat;
                    }
                },
                Err(e) => {
                    return Err(e);
                },
            }
        }
    }
    Err(ConvertError::UnexpectedToken(cur_token))
}

/// Parses one element of a table, or its closing `}`: a unit token is read together with the
/// token after it, and what they are is appended to `table_elements`. The result tells
/// whether the table is closed.
fn parse_element<S: CharSource>(
    src: &mut S,
    table_elements: &mut Vec<TableElement>,
    is_array: &mut Option<bool>,
) -> (r: Result<bool, ConvertError>)
    requires
        kind_of_elements(*old(is_array), elements_view(old(table_elements)@)),
    ensures
        final(src).position() >= old(src).position(),
        final(src).position() - old(src).position() <= old(src).remaining().len(),
        advanced_by(
            *old(src),
            (final(src).position() - old(src).position()) as nat,
            *final(src),
        ),
        match r {
            Ok(closed) => {
                let k = (final(src).position() - old(src).position()) as nat;
                let seen = elements_view(old(table_elements)@);
                let more = elements_view(final(table_elements)@);
                &&& kind_of_elements(*final(is_array), more)
                &&& parse_table(old(src).remaining(), seen) == (if closed {
                    Ok(Parsed { value: more, consumed: k })
                } else {
                    after_consuming(k, parse_table(final(src).remaining(), more))
                })
                &&& !closed ==> k >= 1
            },
            Err(e) => parse_table(old(src).remaining(), elements_view(old(table_elements)@))
                == fails::<Seq<ElementView>>(
                e@,
                (final(src).position() - old(src).position()) as nat,
            ),
        },
    decreases old(src).remaining().len(),
{
    let ghost start = *src;
    let ghost t = src.remaining();
    let ghost seen = elements_view(table_elements@);
    proof {
        lemma_next_token_bounds(t);
        lemma_kind_of_elements(*is_array, seen);
    }
    let cur_token = match scan_token(src) {
        Ok(token) => token,
        Err(e) => {
            return Err(e);
        },
    };
    let ghost cur = next_token(t)->Ok_0;
    let ghost t1 = t.skip(cur.consumed as int);
    let ghost after_cur = *src;
    proof {
        lemma_next_token_bounds(t1);
    }
    if cur_token.token_type == TokenType::RBrace {
        Ok(true)
    } else if cur_token.is_unit() {
        let scanned_next = scan_token(src);
        let ghost after_next = *src;
        let ghost both = (after_next.position() - start.position()) as nat;
        proof {
            match next_token(t1) {
                Ok(next) => {
                    lemma_advanced_twice(start, cur.consumed, after_cur, next.consumed, after_next);
                },
                Err(f) => {
                    lemma_advanced_twice(start, cur.consumed, after_cur, f.consumed, after_next);
                },
            }
        }
        let following = match scanned_next {
            Ok(token) => token,
            Err(e) => {
                return Err(e);
            },
        };
        let ghost next = next_token(t1)->Ok_0;
        let ghost t2 = t1.skip(next.consumed as int);
        if following.token_type == TokenType::Equal && cur_token.is_key() {
            if *is_array == Some(true) {
                return Err(ConvertError::MixedTableKinds);
            }
            let parsed_value = parse_expression(src);
            proof {
                lemma_parse_expr_bounds(t2);
                match parse_expr(t2) {
                    Ok(value) => {
                        lemma_advanced_twice(start, both, after_next, value.consumed, *src);
                    },
                    Err(f) => {
                        lemma_advanced_twice(start, both, after_next, f.consumed, *src);
                    },
                }
            }
            let expr = match parsed_value {
                Ok(expr) => expr,
                Err(e) => {
                    return Err(e);
                },
            };
            let element = TableElement::KeyValueElement(KeyValue { key: cur_token, value: expr });
            proof {
                lemma_elements_view_push(table_elements@, element);
                lemma_all_keyed_push(seen, element@);
            }
            table_elements.push(element);
            *is_array = Some(false);
            Ok(false)
        } else if following.is_unit() {
            if *is_array == Some(false) {
                return Err(ConvertError::MixedTableKinds);
            }
            let first_element = TableElement::ArrayElement(cur_token);
            let second_element = TableElement::ArrayElement(following);
            proof {
                lemma_elements_view_push(table_elements@, first_element);
                lemma_elements_view_push(table_elements@.push(first_element), second_element);
                lemma_all_array_push(seen, first_element@);
                lemma_all_array_push(seen.push(first_element@), second_element@);
            }
            table_elements.push(first_element);
            table_elements.push(second_element);
            *is_array = Some(true);
            Ok(false)
        } else if following.token_type == TokenType::RBrace {
            if *is_array == Some(false) {
                return Err(ConvertError::MixedTableKinds);
            }
            let element = TableElement::ArrayElement(cur_token);
            proof {
                lemma_elements_view_push(table_elements@, element);
                lemma_all_array_push(seen, element@);
            }
            table_elements.push(element);
            *is_array = Some(true);
            Ok(true)
        } else {
            Err(ConvertError::UnexpectedToken(following))
        }
    } else if cur_token.token_type == TokenType::EOF {
        Err(ConvertError::UnexpectedEndOfInput)
    } else if cur_token.token_type == TokenType::Undefined {
        Err(ConvertError::UndefinedToken(cur_token))
    } else {
        Err(ConvertError::UnexpectedToken(cur_token))
    }
}

/// Parses the program at the front of `src`: an identifier, `=`, and an expression.
pub fn parse_statement<S: CharSource>(src: &mut S) -> (r: Result<Statement, ConvertError>)
    ensures
        parsed_program(*old(src), r, *final(src)),
        r matches Ok(st) ==> sound_statement(st@),
{
    let ghost s = src.remaining();
    proof {
        lemma_parse_program_sound(s);
    }
    let cur_token = match scan_token(src) {
        Ok(token) => token,
        Err(e) => {
            return Err(e);
        },
    };
    let ghost first = next_token(s)->Ok_0;
    let ghost s1 = s.skip(first.consumed as int);
    let ghost after_first = *src;
    proof {
        lemma_next_token_bounds(s);
        lemma_next_token_bounds(s1);
    }
    if cur_token.token_type != TokenType::Identifier {
        return Err(ConvertError::ExpectedIdentifier(cur_token));
    }
    let scanned_next = scan_token(src);
    let ghost after_second = *src;
    let ghost both = (after_second.position() - old(src).position()) as nat;
    proof {
        match next_token(s1) {
            Ok(second) => {
                lemma_advanced_twice(
                    *old(src),
                    first.consumed,
                    after_first,
                    second.consumed,
                    after_second,
                );
            },
            Err(f) => {
                lemma_advanced_twice(
                    *old(src),
                    first.consumed,
                    after_first,
                    f.consumed,
                    after_second,
                );
            },
        }
    }
    let following = match scanned_next {
        Ok(token) => token,
        Err(e) => {
            return Err(e);
        },
    };
    if following.token_type != TokenType::Equal {
        return Err(ConvertError::ExpectedAssignment(following));
    }
    let ghost second = next_token(s1)->Ok_0;
    let ghost s2 = s1.skip(second.consumed as int);
    let parsed_value = parse_expression(src);
    proof {
        lemma_parse_expr_bounds(s2);
        match parse_expr(s2) {
            Ok(value) => {
                lemma_advanced_twice(*old(src), both, after_second, value.consumed, *src);
            },
            Err(f) => {
                lemma_advanced_twice(*old(src), both, after_second, f.consumed, *src);
            },
        }
    }
    match parsed_value {
        Ok(expr) => Ok(
            Statement::Assignment(AssignmentStatement { identifier: cur_token, value: expr }),
        ),
        Err(e) => Err(e),
    }
}

} // verus!
