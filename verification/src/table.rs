use vstd::prelude::*;
use crate::scalar::{spec_render_int, spec_parse_int, spec_parse_bool};
use crate::text::str_to_chars;

verus! {

/// The scalar type of one column, fixed when the table is built.
#[derive(Clone, Copy, Debug, PartialEq, Eq, Structural)]
pub enum ColType {
    IntType,
    BoolType,
    StrType,
}

/// One cell of a table: a missing value or a typed scalar.
#[derive(Clone, Debug, PartialEq)]
pub enum Value {
    Null,
    Int(i64),
    Bool(bool),
    Str(String),
}

/// Mathematical model of a cell.
pub enum ValueModel {
    Null,
    Int(i64),
    Bool(bool),
    Str(Seq<char>),
}

impl View for Value {
    type V = ValueModel;

    open spec fn view(&self) -> ValueModel {
        match self {
            Value::Null => ValueModel::Null,
            Value::Int(x) => ValueModel::Int(*x),
            Value::Bool(b) => ValueModel::Bool(*b),
            Value::Str(s) => ValueModel::Str(s@),
        }
    }
}

impl DeepView for Value {
    type V = ValueModel;

    open spec fn deep_view(&self) -> ValueModel {
        self.view()
    }
}

/// One named, homogeneously typed sequence of values.
#[derive(Clone, Debug, PartialEq)]
pub struct Column {
    pub name: String,
    pub ty: ColType,
    pub vals: Vec<Value>,
}

/// Mathematical model of a column.
pub struct ColModel {
    pub name: Seq<char>,
    pub ty: ColType,
    pub vals: Seq<ValueModel>,
}

impl View for Column {
    type V = ColModel;

    open spec fn view(&self) -> ColModel {
        ColModel { name: self.name@, ty: self.ty, vals: self.vals.deep_view() }
    }
}

impl DeepView for Column {
    type V = ColModel;

    open spec fn deep_view(&self) -> ColModel {
        self.view()
    }
}

/// An ordered sequence of named columns sharing one row count.
#[derive(Clone, Debug, PartialEq)]
pub struct Table {
    pub cols: Vec<Column>,
}

impl View for Table {
    type V = Seq<ColModel>;

    open spec fn view(&self) -> Seq<ColModel> {
        self.cols.deep_view()
    }
}

pub open spec fn value_fits(v: ValueModel, ty: ColType) -> bool {
    match v {
        ValueModel::Null => true,
        ValueModel::Int(_) => ty == ColType::IntType,
        ValueModel::Bool(_) => ty == ColType::BoolType,
        ValueModel::Str(_) => ty == ColType::StrType,
    }
}

pub open spec fn col_wf(c: ColModel) -> bool {
    forall|i: int| 0 <= i < c.vals.len() ==> value_fits(#[trigger] c.vals[i], c.ty)
}

/// The common row count; zero for a table without columns.
pub open spec fn table_nrows(t: Seq<ColModel>) -> int {
    if t.len() == 0 {
        0
    } else {
        t[0].vals.len() as int
    }
}

/// Every column is well typed and has exactly the table's row count.
pub open spec fn table_wf(t: Seq<ColModel>) -> bool {
    forall|j: int| 0 <= j < t.len() ==> col_wf(#[trigger] t[j]) && t[j].vals.len() == table_nrows(t)
}

/// The canonical text form of a value: nulls are empty, integers are
/// decimal, booleans are `true`/`false`, strings are themselves.
pub open spec fn spec_render_value(v: ValueModel) -> Seq<char> {
    match v {
        ValueModel::Null => Seq::empty(),
        ValueModel::Int(x) => spec_render_int(x as int),
        ValueModel::Bool(b) => if b { "true"@ } else { "false"@ },
        ValueModel::Str(s) => s,
    }
}

/// A table as the delimited-text reader would produce it: values match the
/// column type, typed columns are inhabited, and a string column cannot be
/// re-read as a numeric or boolean one.  Reading either format yields only
/// such tables, and they round-trip through the text format exactly.
pub open spec fn col_normalized(c: ColModel) -> bool {
    &&& col_wf(c)
    &&& (c.ty == ColType::IntType ==> exists|i: int|
        0 <= i < c.vals.len() && (#[trigger] c.vals[i]) matches ValueModel::Int(_))
    &&& (c.ty == ColType::BoolType ==> exists|i: int|
        0 <= i < c.vals.len() && (#[trigger] c.vals[i]) matches ValueModel::Bool(_))
    &&& (c.ty == ColType::StrType ==> forall|i: int|
        0 <= i < c.vals.len() ==> ((#[trigger] c.vals[i]) matches ValueModel::Str(s) ==> s.len()
            > 0))
    &&& (c.ty == ColType::StrType && (exists|i: int|
        0 <= i < c.vals.len() && !((#[trigger] c.vals[i]) matches ValueModel::Null)) ==> {
        &&& exists|i: int|
            0 <= i < c.vals.len() && ((#[trigger] c.vals[i]) matches ValueModel::Str(s)
                && spec_parse_int(s) is None)
        &&& exists|i: int|
            0 <= i < c.vals.len() && ((#[trigger] c.vals[i]) matches ValueModel::Str(s)
                && spec_parse_bool(s) is None)
    })
}

pub open spec fn table_normalized(t: Seq<ColModel>) -> bool {
    &&& table_wf(t)
    &&& t.len() > 0
    &&& forall|j: int| 0 <= j < t.len() ==> col_normalized(#[trigger] t[j])
}

/// Renders one value in its canonical text form.
pub fn render_value(v: &Value) -> (r: Vec<char>)
    ensures
        r@ == spec_render_value(v@),
{
    match v {
        Value::Null => Vec::new(),
        Value::Int(x) => crate::scalar::render_int(*x),
        Value::Bool(b) => {
            if *b {
                str_to_chars("true")
            } else {
                str_to_chars("false")
            }
        },
        Value::Str(s) => str_to_chars(s.as_str()),
    }
}

} // verus!
