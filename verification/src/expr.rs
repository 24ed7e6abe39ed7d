use vstd::prelude::*;
use crate::error::Error;
use crate::field::{Field, FieldV, res_v};
use crate::row::{Row, RowV};

verus! {

/// An expression of the planner's expression language, evaluated against an
/// optional input row. A row is absent only for constant expressions.
#[derive(Debug)]
pub enum Expression {
    /// A literal value.
    Constant(Field),
    /// The value of the column at the given index.
    Column(usize),
    /// SQL equality: null operands make the result null, and values of
    /// different types are unequal.
    Equal(Box<Expression>, Box<Expression>),
}

/// What evaluation returns, as a function of the expression and the row's
/// value.
pub open spec fn eval(e: Expression, row: Option<RowV>) -> Result<FieldV, Error>
    decreases e,
{
    match e {
        Expression::Constant(f) => Ok(f@),
        Expression::Column(i) => match row {
            Option::Some(r) => if i < r.len() {
                Ok(r[i as int])
            } else {
                Err(Error::InvalidInput)
            },
            Option::None => Err(Error::InvalidInput),
        },
        Expression::Equal(a, b) => match eval(*a, row) {
            Ok(x) => match eval(*b, row) {
                Ok(y) => if x == FieldV::Null || y == FieldV::Null {
                    Ok(FieldV::Null)
                } else {
                    Ok(FieldV::Boolean(x == y))
                },
                Err(err) => Err(err),
            },
            Err(err) => Err(err),
        },
    }
}

/// The value of an optional row reference.
pub open spec fn opt_row_v(row: Option<&Row>) -> Option<RowV> {
    match row {
        Option::Some(r) => Option::Some(r@),
        Option::None => Option::None,
    }
}

impl Expression {
    /// Evaluates the expression on the given row; see [`eval`].
    pub fn evaluate(&self, row: Option<&Row>) -> (r: Result<Field, Error>)
        ensures
            res_v(r) == eval(*self, opt_row_v(row)),
        decreases *self,
    {
        match self {
            Expression::Constant(f) => Ok(f.clone()),
            Expression::Column(i) => match row {
                Option::Some(rr) => match rr.get_field(*i) {
                    Ok(f) => Ok(f.clone()),
                    Err(e) => Err(e),
                },
                Option::None => Err(Error::InvalidInput),
            },
            Expression::Equal(a, b) => match a.evaluate(row) {
                Ok(x) => match b.evaluate(row) {
                    Ok(y) => if x.is_undefined() || y.is_undefined() {
                        Ok(Field::Null)
                    } else {
                        Ok(Field::Boolean(x.equals(&y)))
                    },
                    Err(e) => Err(e),
                },
                Err(e) => Err(e),
            },
        }
    }
}

} // verus!
