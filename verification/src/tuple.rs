//! Logical records for the query operators: typed fields, tuples, table
//! schemas, and the comparison operators the operators evaluate.

use vstd::prelude::*;
use crate::seq_util::lemma_take_push;

verus! {

/// A typed field value: an integer or a string.
#[derive(Debug, Clone, PartialEq, Eq, PartialOrd, Ord, Hash)]
pub enum Field {
    IntField(i32),
    StringField(String),
}

/// Mathematical model of a field: the integer's value, or the string's
/// UTF-8 bytes. Strings order lexicographically by these bytes, and every
/// integer orders below every string.
pub enum FieldV {
    IntV(int),
    StrV(Seq<u8>),
}

impl View for Field {
    type V = FieldV;

    open spec fn view(&self) -> FieldV {
        match self {
            Field::IntField(x) => FieldV::IntV(*x as int),
            Field::StringField(s) => FieldV::StrV(vstd::utf8::encode_utf8(s@)),
        }
    }
}

/// Strict lexicographic order on byte sequences.
pub open spec fn bytes_lt(x: Seq<u8>, y: Seq<u8>) -> bool
    decreases x.len(),
{
    if y.len() == 0 {
        false
    } else if x.len() == 0 {
        true
    } else if x[0] < y[0] {
        true
    } else if x[0] > y[0] {
        false
    } else {
        bytes_lt(x.drop_first(), y.drop_first())
    }
}

/// Strict total order on fields: integers by value, strings
/// lexicographically, and every integer below every string.
pub open spec fn field_lt(a: FieldV, b: FieldV) -> bool {
    match (a, b) {
        (FieldV::IntV(x), FieldV::IntV(y)) => x < y,
        (FieldV::IntV(_), FieldV::StrV(_)) => true,
        (FieldV::StrV(_), FieldV::IntV(_)) => false,
        (FieldV::StrV(x), FieldV::StrV(y)) => bytes_lt(x, y),
    }
}

/// Equal byte prefixes do not affect the lexicographic comparison of the
/// rests.
proof fn lemma_bytes_lt_skip(x: Seq<u8>, y: Seq<u8>, i: int)
    requires
        0 <= i <= x.len(),
        i <= y.len(),
        forall|k: int| 0 <= k < i ==> x[k] == y[k],
    ensures
        bytes_lt(x, y) == bytes_lt(x.skip(i), y.skip(i)),
    decreases i,
{
    if i > 0 {
        assert(x.len() > 0 && y.len() > 0 && x[0] == y[0]);
        lemma_bytes_lt_skip(x.drop_first(), y.drop_first(), i - 1);
        assert(x.drop_first().skip(i - 1) =~= x.skip(i));
        assert(y.drop_first().skip(i - 1) =~= y.skip(i));
    } else {
        assert(x.skip(0) =~= x);
        assert(y.skip(0) =~= y);
    }
}

/// Compare two byte slices for equality.
fn bytes_eq(x: &[u8], y: &[u8]) -> (r: bool)
    ensures
        r == (x@ == y@),
{
    if x.len() != y.len() {
        proof {
            assert(x@.len() != y@.len());
        }
        return false;
    }
    let n = x.len();
    let mut i: usize = 0;
    while i < n
        invariant
            i <= n,
            n == x@.len(),
            n == y@.len(),
            forall|k: int| 0 <= k < i ==> x@[k] == y@[k],
        decreases n - i,
    {
        if *vstd::slice::slice_index_get(x, i) != *vstd::slice::slice_index_get(y, i) {
            return false;
        }
        i += 1;
    }
    proof {
        assert(x@ =~= y@);
    }
    true
}

/// Compare two byte slices lexicographically.
fn bytes_less(x: &[u8], y: &[u8]) -> (r: bool)
    ensures
        r == bytes_lt(x@, y@),
{
    let nx = x.len();
    let ny = y.len();
    let n = if nx < ny { nx } else { ny };
    let mut i: usize = 0;
    while i < n
        invariant
            i <= n,
            n == if nx < ny { nx } else { ny },
            nx == x@.len(),
            ny == y@.len(),
            forall|k: int| 0 <= k < i ==> x@[k] == y@[k],
        decreases n - i,
    {
        let a = *vstd::slice::slice_index_get(x, i);
        let b = *vstd::slice::slice_index_get(y, i);
        if a < b {
            proof {
                lemma_bytes_lt_skip(x@, y@, i as int);
            }
            return true;
        }
        if a > b {
            proof {
                lemma_bytes_lt_skip(x@, y@, i as int);
            }
            return false;
        }
        i += 1;
    }
    proof {
        lemma_bytes_lt_skip(x@, y@, n as int);
    }
    nx < ny
}

/// Whether two fields are equal, by value.
pub fn field_eq(a: &Field, b: &Field) -> (r: bool)
    ensures
        r == (a@ == b@),
{
    match (a, b) {
        (Field::IntField(x), Field::IntField(y)) => x == y,
        (Field::StringField(x), Field::StringField(y)) => bytes_eq(
            x.as_str().as_bytes(),
            y.as_str().as_bytes(),
        ),
        _ => false,
    }
}

/// Whether `a` orders strictly below `b`.
pub fn field_less(a: &Field, b: &Field) -> (r: bool)
    ensures
        r == field_lt(a@, b@),
{
    match (a, b) {
        (Field::IntField(x), Field::IntField(y)) => x < y,
        (Field::IntField(_), Field::StringField(_)) => true,
        (Field::StringField(_), Field::IntField(_)) => false,
        (Field::StringField(x), Field::StringField(y)) => bytes_less(
            x.as_str().as_bytes(),
            y.as_str().as_bytes(),
        ),
    }
}

/// A field identical to the given one.
pub fn clone_field(f: &Field) -> (r: Field)
    ensures
        r@ == f@,
{
    match f {
        Field::IntField(x) => Field::IntField(*x),
        Field::StringField(s) => Field::StringField(s.clone()),
    }
}

/// An ordered sequence of typed fields comprising one logical record.
#[derive(Debug, Clone, PartialEq, Eq)]
pub struct Tuple {
    pub field_vals: Vec<Field>,
}

impl View for Tuple {
    type V = Seq<FieldV>;

    open spec fn view(&self) -> Seq<FieldV> {
        self.field_vals@.map_values(|f: Field| f@)
    }
}

impl Tuple {
    /// A tuple over the given fields.
    pub fn new(field_vals: Vec<Field>) -> (t: Tuple)
        ensures
            t@ == field_vals@.map_values(|f: Field| f@),
    {
        Tuple { field_vals }
    }

    /// The field at an index, if the tuple is that wide.
    pub fn get_field(&self, i: usize) -> (r: Option<&Field>)
        ensures
            match r {
                Some(f) => i < self@.len() && f@ == self@[i as int],
                None => i >= self@.len(),
            },
    {
        if i < self.field_vals.len() {
            Some(&self.field_vals[i])
        } else {
            None
        }
    }

    /// Replace the field at an index.
    pub fn set_field(&mut self, i: usize, f: Field)
        requires
            i < old(self)@.len(),
        ensures
            final(self)@ == old(self)@.update(i as int, f@),
    {
        self.field_vals[i] = f;
        proof {
            assert(self@ =~= old(self)@.update(i as int, f@));
        }
    }

    /// Number of fields.
    pub fn size(&self) -> (r: usize)
        ensures
            r == self@.len(),
    {
        self.field_vals.len()
    }

    /// The fields themselves.
    pub fn field_vals(&self) -> (r: &Vec<Field>)
        ensures
            r@.map_values(|f: Field| f@) == self@,
    {
        &self.field_vals
    }

    /// A tuple identical to this one.
    pub fn duplicate(&self) -> (r: Tuple)
        ensures
            r@ == self@,
    {
        let mut fields: Vec<Field> = Vec::new();
        let n = self.field_vals.len();
        let mut i: usize = 0;
        while i < n
            invariant
                i <= n,
                n == self.field_vals@.len(),
                fields@.len() == i,
                forall|k: int| 0 <= k < i ==> (#[trigger] fields@[k])@ == self.field_vals@[k]@,
            decreases n - i,
        {
            let c = clone_field(&self.field_vals[i]);
            fields.push(c);
            i += 1;
        }
        let t = Tuple { field_vals: fields };
        proof {
            assert(t@ =~= self@);
        }
        t
    }
}

/// The declared type of a column.
#[derive(Debug, Clone, Copy, PartialEq, Eq)]
pub enum DataType {
    Int,
    String,
}

/// One column of a schema: a name and a type.
#[derive(Debug, Clone, PartialEq, Eq)]
pub struct Attribute {
    pub name: String,
    pub dtype: DataType,
}

impl View for Attribute {
    type V = (Seq<char>, DataType);

    open spec fn view(&self) -> (Seq<char>, DataType) {
        (self.name@, self.dtype)
    }
}

impl Attribute {
    /// An attribute with the given name and type.
    pub fn new(name: String, dtype: DataType) -> (a: Attribute)
        ensures
            a@ == (name@, dtype),
    {
        Attribute { name, dtype }
    }

    /// The column name.
    pub fn name(&self) -> (r: &str)
        ensures
            r@ == self@.0,
    {
        self.name.as_str()
    }

    /// The column type.
    pub fn dtype(&self) -> (r: &DataType)
        ensures
            r == self@.1,
    {
        &self.dtype
    }
}

/// The schema of a stream of tuples: its columns in order.
#[derive(Debug, Clone, PartialEq, Eq)]
pub struct TableSchema {
    pub attributes: Vec<Attribute>,
}

impl View for TableSchema {
    type V = Seq<(Seq<char>, DataType)>;

    open spec fn view(&self) -> Seq<(Seq<char>, DataType)> {
        self.attributes@.map_values(|a: Attribute| a@)
    }
}

impl TableSchema {
    /// A schema over the given attributes.
    pub fn new(attributes: Vec<Attribute>) -> (s: TableSchema)
        ensures
            s@ == attributes@.map_values(|a: Attribute| a@),
    {
        TableSchema { attributes }
    }

    /// A schema from parallel vectors of names and types.
    pub fn from_vecs(names: Vec<&str>, dtypes: Vec<DataType>) -> (s: TableSchema)
        requires
            names@.len() == dtypes@.len(),
        ensures
            s@.len() == names@.len(),
            forall|i: int|
                0 <= i < names@.len() ==> #[trigger] s@[i] == (names@[i]@, dtypes@[i]),
    {
        let mut attributes: Vec<Attribute> = Vec::new();
        let n = names.len();
        let mut i: usize = 0;
        while i < n
            invariant
                i <= n,
                n == names@.len(),
                n == dtypes@.len(),
                attributes@.len() == i,
                forall|k: int|
                    0 <= k < i ==> (#[trigger] attributes@[k])@ == (names@[k]@, dtypes@[k]),
            decreases n - i,
        {
            attributes.push(Attribute::new(names[i].to_owned(), dtypes[i]));
            i += 1;
        }
        let s = TableSchema { attributes };
        s
    }

    /// A schema identical to this one.
    pub fn duplicate(&self) -> (r: TableSchema)
        ensures
            r@ == self@,
    {
        let mut attributes: Vec<Attribute> = Vec::new();
        let n = self.attributes.len();
        let mut i: usize = 0;
        while i < n
            invariant
                i <= n,
                n == self.attributes@.len(),
                attributes@.len() == i,
                forall|k: int|
                    0 <= k < i ==> (#[trigger] attributes@[k])@ == self.attributes@[k]@,
            decreases n - i,
        {
            let a = &self.attributes[i];
            attributes.push(Attribute { name: a.name.clone(), dtype: a.dtype });
            i += 1;
        }
        let s = TableSchema { attributes };
        proof {
            assert(s@ =~= self@);
        }
        s
    }

    /// The columns in order.
    pub fn attributes(&self) -> (r: &Vec<Attribute>)
        ensures
            r@.map_values(|a: Attribute| a@) == self@,
    {
        &self.attributes
    }
}

/// The aggregation operators.
#[derive(Debug, Clone, Copy, PartialEq, Eq)]
pub enum AggOp {
    Count,
    Sum,
    Min,
    Max,
    Avg,
}

/// The comparison operators a join predicate can apply.
#[derive(Debug, Clone, Copy, PartialEq, Eq)]
pub enum SimplePredicateOp {
    Equals,
    NotEq,
    GreaterThan,
    LessThan,
    GreaterThanOrEq,
    LessThanOrEq,
}

/// What a comparison operator means on field values.
pub open spec fn spec_compare(op: SimplePredicateOp, a: FieldV, b: FieldV) -> bool {
    match op {
        SimplePredicateOp::Equals => a == b,
        SimplePredicateOp::NotEq => a != b,
        SimplePredicateOp::GreaterThan => field_lt(b, a),
        SimplePredicateOp::LessThan => field_lt(a, b),
        SimplePredicateOp::GreaterThanOrEq => !field_lt(a, b),
        SimplePredicateOp::LessThanOrEq => !field_lt(b, a),
    }
}

impl SimplePredicateOp {
    /// Evaluate the comparison on two fields.
    pub fn compare(&self, a: &Field, b: &Field) -> (r: bool)
        ensures
            r == spec_compare(*self, a@, b@),
    {
        match self {
            SimplePredicateOp::Equals => field_eq(a, b),
            SimplePredicateOp::NotEq => !field_eq(a, b),
            SimplePredicateOp::GreaterThan => field_less(b, a),
            SimplePredicateOp::LessThan => field_less(a, b),
            SimplePredicateOp::GreaterThanOrEq => !field_less(a, b),
            SimplePredicateOp::LessThanOrEq => !field_less(b, a),
        }
    }
}

} // verus!
