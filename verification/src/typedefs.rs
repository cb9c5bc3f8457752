//! The syntax tree of a program, and its mathematical model.

use crate::token::{kind_is_key, kind_is_unit, Token, TokenView};
use vstd::prelude::*;

verus! {

/// A value: a scalar or a table.
#[derive(Debug, PartialEq)]
pub enum Expression {
    Unit(Token),
    Table(Table),
}

/// A whole program. Its only form is the assignment of a value to a name.
#[derive(Debug, PartialEq)]
pub enum Statement {
    Assignment(AssignmentStatement),
}

/// The elements of a table, in source order.
#[derive(Debug, PartialEq)]
pub struct Table {
    pub elements: Vec<TableElement>,
}

/// One element of a table: an entry of an object or an item of an array.
#[derive(Debug, PartialEq)]
pub enum TableElement {
    KeyValueElement(KeyValue),
    ArrayElement(Token),
}

/// An entry `key = value` of an object-shaped table.
#[derive(Debug, PartialEq)]
pub struct KeyValue {
    pub key: Token,
    pub value: Expression,
}

/// The statement `identifier = value`.
#[derive(Debug, PartialEq)]
pub struct AssignmentStatement {
    pub identifier: Token,
    pub value: Expression,
}

/// The model of an [`Expression`].
pub enum ExpressionView {
    Unit(TokenView),
    Table(Seq<ElementView>),
}

/// The model of a [`TableElement`].
pub enum ElementView {
    KeyValue { key: TokenView, value: ExpressionView },
    Array(TokenView),
}

/// The model of a [`Statement`].
pub struct StatementView {
    pub identifier: TokenView,
    pub value: ExpressionView,
}

/// The models of the elements of `elements`, in order.
pub open spec fn elements_view(elements: Seq<TableElement>) -> Seq<ElementView>
    decreases elements,
{
    Seq::new(
        elements.len(),
        |i: int|
            if 0 <= i < elements.len() {
                elements[i].view()
            } else {
                arbitrary()
            },
    )
}

impl View for Expression {
    type V = ExpressionView;

    open spec fn view(&self) -> ExpressionView
        decreases self,
    {
        match self {
            Expression::Unit(t) => ExpressionView::Unit(t@),
            Expression::Table(t) => ExpressionView::Table(elements_view(t.elements@)),
        }
    }
}

impl View for TableElement {
    type V = ElementView;

    open spec fn view(&self) -> ElementView
        decreases self,
    {
        match self {
            TableElement::KeyValueElement(kv) => ElementView::KeyValue {
                key: kv.key@,
                value: kv.value.view(),
            },
            TableElement::ArrayElement(t) => ElementView::Array(t@),
        }
    }
}

impl View for Table {
    type V = Seq<ElementView>;

    open spec fn view(&self) -> Seq<ElementView> {
        elements_view(self.elements@)
    }
}

impl View for AssignmentStatement {
    type V = StatementView;

    open spec fn view(&self) -> StatementView {
        StatementView { identifier: self.identifier@, value: self.value@ }
    }
}

impl View for Statement {
    type V = StatementView;

    open spec fn view(&self) -> StatementView {
        match self {
            Statement::Assignment(a) => a@,
        }
    }
}

/// Every element is an array item.
pub open spec fn all_array(elements: Seq<ElementView>) -> bool {
    forall|i: int| 0 <= i < elements.len() ==> (#[trigger] elements[i]) is Array
}

/// Every element is an object entry.
pub open spec fn all_keyed(elements: Seq<ElementView>) -> bool {
    forall|i: int| 0 <= i < elements.len() ==> (#[trigger] elements[i]) is KeyValue
}

/// A table is homogeneous when it holds array items only or object entries only.
pub open spec fn homogeneous(elements: Seq<ElementView>) -> bool {
    all_array(elements) || all_keyed(elements)
}

/// Every table of the expression, at any depth, is homogeneous.
pub open spec fn well_shaped(e: ExpressionView) -> bool
    decreases e,
{
    match e {
        ExpressionView::Unit(_) => true,
        ExpressionView::Table(elements) => {
            &&& homogeneous(elements)
            &&& forall|i: int|
                0 <= i < elements.len() && (#[trigger] elements[i]) is KeyValue ==> well_shaped(
                    elements[i]->value,
                )
        },
    }
}

/// Every scalar of the expression is a unit token and every key is key-eligible.
pub open spec fn well_typed(e: ExpressionView) -> bool
    decreases e,
{
    match e {
        ExpressionView::Unit(t) => kind_is_unit(t.kind),
        ExpressionView::Table(elements) => forall|i: int|
            0 <= i < elements.len() ==> well_typed_element(#[trigger] elements[i]),
    }
}

/// The scalar of an array item is a unit token; the key of an entry is key-eligible and its
/// value is well typed.
pub open spec fn well_typed_element(el: ElementView) -> bool
    decreases el,
{
    match el {
        ElementView::Array(t) => kind_is_unit(t.kind),
        ElementView::KeyValue { key, value } => kind_is_key(key.kind) && well_typed(value),
    }
}

/// The model of a sequence of elements with one more element is the model of the sequence
/// with the model of the element.
pub proof fn lemma_elements_view_push(elements: Seq<TableElement>, element: TableElement)
    ensures
        elements_view(elements.push(element)) == elements_view(elements).push(element@),
{
    assert(elements_view(elements.push(element)) =~= elements_view(elements).push(element@));
}

/// Whether `is_array` tells the kind of the elements `seen`: nothing for none, `true` for
/// array items, `false` for object entries.
pub open spec fn kind_of_elements(is_array: Option<bool>, seen: Seq<ElementView>) -> bool {
    &&& is_array is None <==> seen.len() == 0
    &&& is_array == Some(true) ==> all_array(seen)
    &&& is_array == Some(false) ==> all_keyed(seen)
}

/// Elements whose kind is not that of object entries are all array items, and the other way
/// round; no elements are both.
pub proof fn lemma_kind_of_elements(is_array: Option<bool>, seen: Seq<ElementView>)
    requires
        kind_of_elements(is_array, seen),
    ensures
        is_array != Some(false) ==> all_array(seen),
        is_array != Some(true) ==> all_keyed(seen),
        is_array == Some(true) ==> !all_keyed(seen),
        is_array == Some(false) ==> !all_array(seen),
{
    match is_array {
        Some(true) => {
            assert(seen[0] is Array);
        },
        Some(false) => {
            assert(seen[0] is KeyValue);
        },
        None => {},
    }
}

/// Array items stay array items with one more.
pub proof fn lemma_all_array_push(seen: Seq<ElementView>, element: ElementView)
    requires
        all_array(seen),
        element is Array,
    ensures
        all_array(seen.push(element)),
{
    let more = seen.push(element);
    assert forall|i: int| 0 <= i < more.len() implies (#[trigger] more[i]) is Array by {
        if i < seen.len() {
            assert(seen[i] is Array);
        }
    }
}

/// Object entries stay object entries with one more.
pub proof fn lemma_all_keyed_push(seen: Seq<ElementView>, element: ElementView)
    requires
        all_keyed(seen),
        element is KeyValue,
    ensures
        all_keyed(seen.push(element)),
{
    let more = seen.push(element);
    assert forall|i: int| 0 <= i < more.len() implies (#[trigger] more[i]) is KeyValue by {
        if i < seen.len() {
            assert(seen[i] is KeyValue);
        }
    }
}

} // verus!
