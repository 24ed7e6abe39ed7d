use vstd::prelude::*;
use vstd::utf8::encode_utf8;
use crate::error::Error;

verus! {

/// The mathematical value of a [`Field`]: text is modelled by its UTF-8
/// bytes, so the total order on text is the lexicographic order on those
/// bytes.
pub enum FieldV {
    Null,
    Boolean(bool),
    Integer(i32),
    Text(Seq<u8>),
}

/// A tagged column value. The concrete set of variants is fixed by the
/// planner and catalog; every variant supports the total comparison used by
/// sorting and grouping, and the checked arithmetic used by aggregation.
#[derive(Debug)]
pub enum Field {
    Null,
    Boolean(bool),
    Integer(i32),
    Text(String),
}

impl View for Field {
    type V = FieldV;

    open spec fn view(&self) -> FieldV {
        match self {
            Field::Null => FieldV::Null,
            Field::Boolean(b) => FieldV::Boolean(*b),
            Field::Integer(i) => FieldV::Integer(*i),
            Field::Text(s) => FieldV::Text(encode_utf8(s@)),
        }
    }
}

impl DeepView for Field {
    type V = FieldV;

    open spec fn deep_view(&self) -> FieldV {
        self.view()
    }
}

impl Clone for Field {
    fn clone(&self) -> (r: Self)
        ensures
            r@ == self@,
    {
        match self {
            Field::Null => Field::Null,
            Field::Boolean(b) => Field::Boolean(*b),
            Field::Integer(i) => Field::Integer(*i),
            Field::Text(s) => Field::Text(s.clone()),
        }
    }
}

/// The outcome of a three-way comparison.
#[derive(Clone, Copy, Debug, PartialEq, Eq, Structural)]
pub enum Cmp {
    Less,
    Equal,
    Greater,
}

/// Lexicographic three-way comparison of byte sequences.
pub open spec fn bytes_cmp(a: Seq<u8>, b: Seq<u8>) -> Cmp
    decreases a.len(),
{
    if a.len() == 0 && b.len() == 0 {
        Cmp::Equal
    } else if a.len() == 0 {
        Cmp::Less
    } else if b.len() == 0 {
        Cmp::Greater
    } else if a[0] < b[0] {
        Cmp::Less
    } else if b[0] < a[0] {
        Cmp::Greater
    } else {
        bytes_cmp(a.drop_first(), b.drop_first())
    }
}

/// The rank of a variant in the total order: nulls sort first, then
/// booleans, integers, and text.
pub open spec fn field_rank(f: FieldV) -> int {
    match f {
        FieldV::Null => 0,
        FieldV::Boolean(_) => 1,
        FieldV::Integer(_) => 2,
        FieldV::Text(_) => 3,
    }
}

/// The total three-way comparison on field values.
pub open spec fn field_cmp(a: FieldV, b: FieldV) -> Cmp {
    if field_rank(a) < field_rank(b) {
        Cmp::Less
    } else if field_rank(b) < field_rank(a) {
        Cmp::Greater
    } else {
        match (a, b) {
            (FieldV::Boolean(x), FieldV::Boolean(y)) => if x == y {
                Cmp::Equal
            } else if !x {
                Cmp::Less
            } else {
                Cmp::Greater
            },
            (FieldV::Integer(x), FieldV::Integer(y)) => if x < y {
                Cmp::Less
            } else if y < x {
                Cmp::Greater
            } else {
                Cmp::Equal
            },
            (FieldV::Text(x), FieldV::Text(y)) => bytes_cmp(x, y),
            _ => Cmp::Equal,
        }
    }
}

pub proof fn lemma_bytes_cmp_eq(a: Seq<u8>, b: Seq<u8>)
    ensures
        bytes_cmp(a, b) == Cmp::Equal <==> a == b,
    decreases a.len(),
{
    if a.len() == 0 && b.len() == 0 {
        assert(a =~= b);
    } else if a.len() != 0 && b.len() != 0 && a[0] == b[0] {
        lemma_bytes_cmp_eq(a.drop_first(), b.drop_first());
        if bytes_cmp(a, b) == Cmp::Equal {
            assert(a =~= seq![a[0]] + a.drop_first());
            assert(b =~= seq![b[0]] + b.drop_first());
        }
        if a == b {
            assert(a.drop_first() =~= b.drop_first());
        }
    } else {
        if a == b {
            assert(a.len() == b.len());
        }
    }
}

pub proof fn lemma_bytes_cmp_antisym(a: Seq<u8>, b: Seq<u8>)
    ensures
        bytes_cmp(a, b) == Cmp::Less <==> bytes_cmp(b, a) == Cmp::Greater,
    decreases a.len(),
{
    if a.len() != 0 && b.len() != 0 && a[0] == b[0] {
        lemma_bytes_cmp_antisym(a.drop_first(), b.drop_first());
    }
}

pub proof fn lemma_bytes_cmp_trans(a: Seq<u8>, b: Seq<u8>, c: Seq<u8>)
    requires
        bytes_cmp(a, b) != Cmp::Greater,
        bytes_cmp(b, c) != Cmp::Greater,
    ensures
        bytes_cmp(a, c) != Cmp::Greater,
    decreases a.len(),
{
    if a.len() == 0 {
    } else {
        assert(b.len() != 0);
        assert(c.len() != 0);
        if a[0] == c[0] {
            assert(a[0] == b[0] && b[0] == c[0]);
            lemma_bytes_cmp_trans(a.drop_first(), b.drop_first(), c.drop_first());
        }
    }
}

pub proof fn lemma_field_cmp_eq(a: FieldV, b: FieldV)
    ensures
        field_cmp(a, b) == Cmp::Equal <==> a == b,
{
    match (a, b) {
        (FieldV::Text(x), FieldV::Text(y)) => lemma_bytes_cmp_eq(x, y),
        _ => {},
    }
}

pub proof fn lemma_field_cmp_antisym(a: FieldV, b: FieldV)
    ensures
        field_cmp(a, b) == Cmp::Less <==> field_cmp(b, a) == Cmp::Greater,
{
    match (a, b) {
        (FieldV::Text(x), FieldV::Text(y)) => {
            lemma_bytes_cmp_antisym(x, y);
            lemma_bytes_cmp_antisym(y, x);
        },
        _ => {},
    }
}

pub proof fn lemma_field_cmp_trans(a: FieldV, b: FieldV, c: FieldV)
    requires
        field_cmp(a, b) != Cmp::Greater,
        field_cmp(b, c) != Cmp::Greater,
    ensures
        field_cmp(a, c) != Cmp::Greater,
{
    match (a, b) {
        (FieldV::Text(x), FieldV::Text(y)) => match c {
            FieldV::Text(z) => lemma_bytes_cmp_trans(x, y, z),
            _ => {},
        },
        _ => {},
    }
}

fn bytes_compare(a: &[u8], b: &[u8]) -> (r: Cmp)
    ensures
        r == bytes_cmp(a@, b@),
{
    let alen = a.len();
    let blen = b.len();
    let mut i: usize = 0;
    proof {
        assert(a@.skip(0) =~= a@);
        assert(b@.skip(0) =~= b@);
    }
    while i < alen && i < blen
        invariant
            i <= alen,
            i <= blen,
            alen == a@.len(),
            blen == b@.len(),
            bytes_cmp(a@, b@) == bytes_cmp(a@.skip(i as int), b@.skip(i as int)),
        decreases alen - i,
    {
        let x = a[i];
        let y = b[i];
        proof {
            assert(a@.skip(i as int)[0] == a@[i as int]);
            assert(b@.skip(i as int)[0] == b@[i as int]);
        }
        if x < y {
            return Cmp::Less;
        }
        if y < x {
            return Cmp::Greater;
        }
        proof {
            assert(a@.skip(i as int).drop_first() =~= a@.skip(i + 1));
            assert(b@.skip(i as int).drop_first() =~= b@.skip(i + 1));
        }
        i = i + 1;
    }
    proof {
        assert(a@.skip(i as int).len() == alen - i);
        assert(b@.skip(i as int).len() == blen - i);
    }
    if alen < blen {
        Cmp::Less
    } else if blen < alen {
        Cmp::Greater
    } else {
        Cmp::Equal
    }
}

impl Field {
    /// Three-way comparison in the total field order: rank first
    /// (null, boolean, integer, text), then the value.
    pub fn compare(&self, other: &Field) -> (r: Cmp)
        ensures
            r == field_cmp(self@, other@),
    {
        match (self, other) {
            (Field::Null, Field::Null) => Cmp::Equal,
            (Field::Null, _) => Cmp::Less,
            (_, Field::Null) => Cmp::Greater,
            (Field::Boolean(x), Field::Boolean(y)) => if *x == *y {
                Cmp::Equal
            } else if !*x {
                Cmp::Less
            } else {
                Cmp::Greater
            },
            (Field::Boolean(_), _) => Cmp::Less,
            (_, Field::Boolean(_)) => Cmp::Greater,
            (Field::Integer(x), Field::Integer(y)) => if *x < *y {
                Cmp::Less
            } else if *y < *x {
                Cmp::Greater
            } else {
                Cmp::Equal
            },
            (Field::Integer(_), _) => Cmp::Less,
            (_, Field::Integer(_)) => Cmp::Greater,
            (Field::Text(x), Field::Text(y)) => bytes_compare(
                x.as_str().as_bytes(),
                y.as_str().as_bytes(),
            ),
        }
    }

    /// Equality in the field order; text compares by content.
    pub fn equals(&self, other: &Field) -> (r: bool)
        ensures
            r == (self@ == other@),
    {
        proof {
            lemma_field_cmp_eq(self@, other@);
        }
        matches!(self.compare(other), Cmp::Equal)
    }

    /// A value on which equality is undefined, so that it never joins or
    /// groups: with no floating-point variant this is exactly `Null`.
    pub fn is_undefined(&self) -> (r: bool)
        ensures
            r == (self@ == FieldV::Null),
    {
        matches!(self, Field::Null)
    }
}

/// What checked addition returns: null propagates, integer addition fails
/// on overflow, and any other combination is a type mismatch.
pub open spec fn field_add(a: FieldV, b: FieldV) -> Result<FieldV, Error> {
    match (a, b) {
        (FieldV::Null, _) => Ok(FieldV::Null),
        (_, FieldV::Null) => Ok(FieldV::Null),
        (FieldV::Integer(x), FieldV::Integer(y)) => if i32::MIN <= x + y <= i32::MAX {
            Ok(FieldV::Integer((x + y) as i32))
        } else {
            Err(Error::TypeMismatch)
        },
        _ => Err(Error::TypeMismatch),
    }
}

/// Truncated (round-toward-zero) integer division, as `i32` division does
/// it.
pub open spec fn trunc_div(x: int, d: int) -> int {
    if x == 0 {
        0
    } else if x > 0 && d > 0 {
        x / d
    } else if x < 0 && d < 0 {
        (x * -1) / (d * -1)
    } else if x < 0 {
        ((x * -1) / d) * -1
    } else {
        (x / (d * -1)) * -1
    }
}

/// What checked division returns: null propagates, division by zero and
/// overflow (only `i32::MIN / -1`) fail, and any other combination is a
/// type mismatch.
pub open spec fn field_div(a: FieldV, b: FieldV) -> Result<FieldV, Error> {
    match (a, b) {
        (FieldV::Null, _) => Ok(FieldV::Null),
        (_, FieldV::Null) => Ok(FieldV::Null),
        (FieldV::Integer(x), FieldV::Integer(y)) => if y == 0 {
            Err(Error::TypeMismatch)
        } else if trunc_div(x as int, y as int) < i32::MIN || trunc_div(x as int, y as int)
            > i32::MAX {
            Err(Error::TypeMismatch)
        } else {
            Ok(FieldV::Integer(trunc_div(x as int, y as int) as i32))
        },
        _ => Err(Error::TypeMismatch),
    }
}

/// The value of a `Result` carrying a field.
pub open spec fn res_v(r: Result<Field, Error>) -> Result<FieldV, Error> {
    match r {
        Ok(f) => Ok(f@),
        Err(e) => Err(e),
    }
}

impl Field {
    /// Checked addition; see [`field_add`].
    pub fn checked_add(&self, other: &Field) -> (r: Result<Field, Error>)
        ensures
            res_v(r) == field_add(self@, other@),
    {
        match (self, other) {
            (Field::Null, _) => Ok(Field::Null),
            (_, Field::Null) => Ok(Field::Null),
            (Field::Integer(x), Field::Integer(y)) => {
                let wide: i64 = (*x as i64) + (*y as i64);
                if i32::MIN as i64 <= wide && wide <= i32::MAX as i64 {
                    Ok(Field::Integer(wide as i32))
                } else {
                    Err(Error::TypeMismatch)
                }
            },
            _ => Err(Error::TypeMismatch),
        }
    }

    /// Checked division; see [`field_div`].
    pub fn checked_div(&self, other: &Field) -> (r: Result<Field, Error>)
        ensures
            res_v(r) == field_div(self@, other@),
    {
        match (self, other) {
            (Field::Null, _) => Ok(Field::Null),
            (_, Field::Null) => Ok(Field::Null),
            (Field::Integer(x), Field::Integer(y)) => {
                match x.checked_div(*y) {
                    Some(q) => Ok(Field::Integer(q)),
                    None => Err(Error::TypeMismatch),
                }
            },
            _ => Err(Error::TypeMismatch),
        }
    }
}

} // verus!
