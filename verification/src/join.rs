//! Joins: the nested-loop join, streaming over an outer and an inner child
//! under any comparison predicate, and the equi-join, which materializes the
//! right child once and probes it per left tuple. Both yield, for each left
//! tuple in order, its concatenation with every matching right tuple in
//! right-stream order.

use vstd::prelude::*;
use crate::ids::CrustyError;
use crate::tuple::{Field, FieldV, Tuple, Attribute, TableSchema, DataType, SimplePredicateOp,
    spec_compare, field_eq, clone_field};
use crate::opiterator::OpIterator;
use crate::seq_util::{lemma_take_push, lemma_filter_push, lemma_filter_take_index,
    lemma_filter_take_all};

verus! {

/// The joined rows one left tuple contributes: its concatenation with every
/// right tuple satisfying the predicate, in right-stream order.
pub open spec fn row_matches(
    l: Seq<FieldV>,
    rs: Seq<Seq<FieldV>>,
    op: SimplePredicateOp,
    li: usize,
    ri: usize,
) -> Seq<Seq<FieldV>> {
    rs.filter(|r: Seq<FieldV>| spec_compare(op, l[li as int], r[ri as int])).map_values(
        |r: Seq<FieldV>| l + r,
    )
}

/// The whole join: every left tuple's matches, in left-stream order.
pub open spec fn nl_join(
    ls: Seq<Seq<FieldV>>,
    rs: Seq<Seq<FieldV>>,
    op: SimplePredicateOp,
    li: usize,
    ri: usize,
) -> Seq<Seq<FieldV>>
    decreases ls.len(),
{
    if ls.len() == 0 {
        Seq::empty()
    } else {
        nl_join(ls.drop_last(), rs, op, li, ri) + row_matches(ls.last(), rs, op, li, ri)
    }
}

/// The join over one more left tuple appends that tuple's matches.
proof fn lemma_nl_join_take_step(
    ls: Seq<Seq<FieldV>>,
    rs: Seq<Seq<FieldV>>,
    op: SimplePredicateOp,
    li: usize,
    ri: usize,
    p: int,
)
    requires
        0 <= p < ls.len(),
    ensures
        nl_join(ls.take(p + 1), rs, op, li, ri)
            == nl_join(ls.take(p), rs, op, li, ri) + row_matches(ls[p], rs, op, li, ri),
{
    lemma_take_push(ls, p);
    assert(ls.take(p + 1).drop_last() =~= ls.take(p));
}

/// A longer left prefix only appends joined rows.
proof fn lemma_nl_join_prefix(
    ls: Seq<Seq<FieldV>>,
    rs: Seq<Seq<FieldV>>,
    op: SimplePredicateOp,
    li: usize,
    ri: usize,
    p: int,
    q: int,
)
    requires
        0 <= p <= q <= ls.len(),
    ensures
        nl_join(ls.take(p), rs, op, li, ri).len() <= nl_join(ls.take(q), rs, op, li, ri).len(),
        forall|m: int|
            0 <= m < nl_join(ls.take(p), rs, op, li, ri).len()
                ==> #[trigger] nl_join(ls.take(q), rs, op, li, ri)[m]
                    == nl_join(ls.take(p), rs, op, li, ri)[m],
    decreases q - p,
{
    if p < q {
        lemma_nl_join_take_step(ls, rs, op, li, ri, q - 1);
        lemma_nl_join_prefix(ls, rs, op, li, ri, p, q - 1);
    }
}

/// Position of a joined row in the whole join: row `k` of left tuple `p`'s
/// matches stands `k` past the rows of the earlier left tuples.
proof fn lemma_nl_join_index(
    ls: Seq<Seq<FieldV>>,
    rs: Seq<Seq<FieldV>>,
    op: SimplePredicateOp,
    li: usize,
    ri: usize,
    p: int,
    k: int,
)
    requires
        0 <= p < ls.len(),
        0 <= k < row_matches(ls[p], rs, op, li, ri).len(),
    ensures
        nl_join(ls.take(p), rs, op, li, ri).len() + k < nl_join(ls, rs, op, li, ri).len(),
        nl_join(ls, rs, op, li, ri)[nl_join(ls.take(p), rs, op, li, ri).len() + k]
            == row_matches(ls[p], rs, op, li, ri)[k],
{
    lemma_nl_join_take_step(ls, rs, op, li, ri, p);
    lemma_nl_join_prefix(ls, rs, op, li, ri, p + 1, ls.len() as int);
    assert(ls.take(ls.len() as int) =~= ls);
}

/// The full join is the join over the full left prefix.
proof fn lemma_nl_join_take_all(
    ls: Seq<Seq<FieldV>>,
    rs: Seq<Seq<FieldV>>,
    op: SimplePredicateOp,
    li: usize,
    ri: usize,
)
    ensures
        nl_join(ls.take(ls.len() as int), rs, op, li, ri) == nl_join(ls, rs, op, li, ri),
{
    assert(ls.take(ls.len() as int) =~= ls);
}

/// Every column index the predicate reads lies within every tuple of the
/// stream.
pub open spec fn index_ok(ts: Seq<Seq<FieldV>>, i: usize) -> bool {
    forall|k: int| 0 <= k < ts.len() ==> i < (#[trigger] ts[k]).len()
}

/// The concatenation of two tuples' fields.
fn concat_tuples(a: &Tuple, b: &Tuple) -> (r: Tuple)
    ensures
        r@ == a@ + b@,
{
    let mut fields: Vec<Field> = Vec::new();
    let an = a.field_vals.len();
    let mut i: usize = 0;
    while i < an
        invariant
            i <= an,
            an == a@.len(),
            fields@.len() == i,
            forall|k: int| 0 <= k < i ==> (#[trigger] fields@[k])@ == a@[k],
        decreases an - i,
    {
        let f = clone_field(&a.field_vals[i]);
        proof {
            assert(a@[i as int] == a.field_vals@[i as int]@);
        }
        fields.push(f);
        i += 1;
    }
    let bn = b.field_vals.len();
    let mut j: usize = 0;
    while j < bn
        invariant
            j <= bn,
            an == a@.len(),
            bn == b@.len(),
            fields@.len() == an + j,
            forall|k: int| 0 <= k < an ==> (#[trigger] fields@[k])@ == a@[k],
            forall|k: int| 0 <= k < j ==> (#[trigger] fields@[an + k])@ == b@[k],
        decreases bn - j,
    {
        let f = clone_field(&b.field_vals[j]);
        proof {
            assert(b@[j as int] == b.field_vals@[j as int]@);
        }
        fields.push(f);
        j += 1;
    }
    let r = Tuple::new(fields);
    proof {
        assert forall|k: int| 0 <= k < an + bn implies r@[k] == (a@ + b@)[k] by {
            assert(r@[k] == fields@[k]@);
            if k >= an {
                assert(fields@[an + (k - an)]@ == b@[k - an]);
            }
        }
        assert(r@ =~= a@ + b@);
    }
    r
}

/// The concatenation of two schemas' columns.
fn concat_schema(a: &TableSchema, b: &TableSchema) -> (r: TableSchema)
    ensures
        r@ == a@ + b@,
{
    let mut attributes: Vec<Attribute> = Vec::new();
    let an = a.attributes.len();
    let mut i: usize = 0;
    while i < an
        invariant
            i <= an,
            an == a@.len(),
            attributes@.len() == i,
            forall|k: int| 0 <= k < i ==> (#[trigger] attributes@[k])@ == a@[k],
        decreases an - i,
    {
        let at = &a.attributes[i];
        proof {
            assert(a@[i as int] == a.attributes@[i as int]@);
        }
        attributes.push(Attribute { name: at.name.clone(), dtype: at.dtype });
        i += 1;
    }
    let bn = b.attributes.len();
    let mut j: usize = 0;
    while j < bn
        invariant
            j <= bn,
            an == a@.len(),
            bn == b@.len(),
            attributes@.len() == an + j,
            forall|k: int| 0 <= k < an ==> (#[trigger] attributes@[k])@ == a@[k],
            forall|k: int| 0 <= k < j ==> (#[trigger] attributes@[an + k])@ == b@[k],
        decreases bn - j,
    {
        let at = &b.attributes[j];
        proof {
            assert(b@[j as int] == b.attributes@[j as int]@);
        }
        attributes.push(Attribute { name: at.name.clone(), dtype: at.dtype });
        j += 1;
    }
    let r = TableSchema { attributes };
    proof {
        assert forall|k: int| 0 <= k < an + bn implies r@[k] == (a@ + b@)[k] by {
            assert(r@[k] == attributes@[k]@);
            if k >= an {
                assert(attributes@[an + (k - an)]@ == b@[k - an]);
            }
        }
        assert(r@ =~= a@ + b@);
    }
    r
}

/// A join condition: a comparison between one field of each side.
pub struct JoinPredicate {
    pub op: SimplePredicateOp,
    pub left_index: usize,
    pub right_index: usize,
}

impl JoinPredicate {
    fn new(op: SimplePredicateOp, left_index: usize, right_index: usize) -> (r: JoinPredicate)
        ensures
            r.op == op,
            r.left_index == left_index,
            r.right_index == right_index,
    {
        JoinPredicate { op, left_index, right_index }
    }
}

/// The nested-loop join: holds a current outer tuple and advances the inner
/// child until a pair satisfies the predicate, rewinding the inner child
/// when it is exhausted and moving to the next outer tuple.
pub struct Join<L: OpIterator, R: OpIterator> {
    pub predicate: JoinPredicate,
    pub left_child: L,
    pub right_child: R,
    pub schema: TableSchema,
    pub open: bool,
    pub out_tup: Option<Tuple>,
    pub emitted: Ghost<int>,
}

impl<L: OpIterator, R: OpIterator> Join<L, R> {
    /// A nested-loop join of two children under a comparison of one field
    /// from each side. The output schema is the children's schemas
    /// concatenated.
    pub fn new(
        op: SimplePredicateOp,
        left_index: usize,
        right_index: usize,
        left_child: L,
        right_child: R,
    ) -> (r: Join<L, R>)
        requires
            left_child.wf(),
            right_child.wf(),
            !left_child.is_open(),
            !right_child.is_open(),
            index_ok(left_child.stream(), left_index),
            index_ok(right_child.stream(), right_index),
        ensures
            r.wf(),
            !r.is_open(),
            r.stream() == nl_join(left_child.stream(), right_child.stream(), op, left_index,
                right_index),
            r.schema_of() == left_child.schema_of() + right_child.schema_of(),
    {
        let schema = concat_schema(left_child.get_schema(), right_child.get_schema());
        Join {
            predicate: JoinPredicate::new(op, left_index, right_index),
            left_child,
            right_child,
            schema,
            open: false,
            out_tup: None,
            emitted: Ghost(0),
        }
    }
}

impl<L: OpIterator, R: OpIterator> OpIterator for Join<L, R> {
    open spec fn wf(&self) -> bool {
        let ls = self.left_child.stream();
        let rs = self.right_child.stream();
        let op = self.predicate.op;
        let li = self.predicate.left_index;
        let ri = self.predicate.right_index;
        &&& self.left_child.wf()
        &&& self.right_child.wf()
        &&& self.schema@ == self.left_child.schema_of() + self.right_child.schema_of()
        &&& index_ok(ls, li)
        &&& index_ok(rs, ri)
        &&& self.open ==> self.left_child.is_open() && self.right_child.is_open()
        &&& !self.open ==> !self.left_child.is_open() && !self.right_child.is_open()
            && self.out_tup is None && self.emitted@ == 0
        &&& self.open ==> match self.out_tup {
            None => (self.left_child.pos() == 0 && self.right_child.pos() == 0
                && self.emitted@ == 0) || (self.left_child.pos() == ls.len()
                && self.emitted@ == nl_join(ls, rs, op, li, ri).len()),
            Some(l) => {
                &&& 1 <= self.left_child.pos() <= ls.len()
                &&& 0 <= self.right_child.pos() <= rs.len()
                &&& l@ == ls[self.left_child.pos() - 1]
                &&& self.emitted@ == nl_join(ls.take(self.left_child.pos() - 1), rs, op, li,
                    ri).len() + rs.take(self.right_child.pos()).filter(
                    |r: Seq<FieldV>| spec_compare(op, l@[li as int], r[ri as int])).len()
            },
        }
    }

    open spec fn is_open(&self) -> bool {
        self.open
    }

    open spec fn pos(&self) -> int {
        self.emitted@
    }

    open spec fn stream(&self) -> Seq<Seq<FieldV>> {
        nl_join(self.left_child.stream(), self.right_child.stream(), self.predicate.op,
            self.predicate.left_index, self.predicate.right_index)
    }

    open spec fn schema_of(&self) -> Seq<(Seq<char>, DataType)> {
        self.schema@
    }

    fn open(&mut self) -> (r: Result<(), CrustyError>) {
        if !self.open {
            let _ = self.left_child.open();
            let _ = self.right_child.open();
            self.open = true;
        }
        Ok(())
    }

    fn next(&mut self) -> (r: Result<Option<Tuple>, CrustyError>) {
        let ghost ls = self.left_child.stream();
        let ghost rs = self.right_child.stream();
        let ghost op = self.predicate.op;
        let ghost li = self.predicate.left_index;
        let ghost ri = self.predicate.right_index;
        loop
            invariant
                self.wf(),
                self.open,
                ls == self.left_child.stream(),
                rs == self.right_child.stream(),
                ls == old(self).left_child.stream(),
                rs == old(self).right_child.stream(),
                op == self.predicate.op,
                li == self.predicate.left_index,
                ri == self.predicate.right_index,
                self.predicate == old(self).predicate,
                self.schema == old(self).schema,
                self.emitted@ == old(self).emitted@,
            decreases ls.len() - self.left_child.pos(),
                rs.len() + 1 - self.right_child.pos(),
        {
            if self.out_tup.is_none() {
                match self.left_child.next() {
                    Ok(Some(l)) => {
                        proof {
                            assert(rs.take(0) =~= Seq::<Seq<FieldV>>::empty());
                            reveal(Seq::filter);
                        }
                        self.out_tup = Some(l);
                    },
                    Ok(None) => {
                        proof {
                            lemma_nl_join_take_all(ls, rs, op, li, ri);
                            if self.left_child.pos() == 0 {
                                assert(ls.len() == 0);
                                assert(self.emitted@ == nl_join(ls, rs, op, li, ri).len());
                            }
                        }
                        return Ok(None);
                    },
                    Err(_) => {
                        proof {
                            assert(false);
                        }
                        return Ok(None);
                    },
                }
            } else {
                let ghost lp = self.left_child.pos();
                let ghost rp = self.right_child.pos();
                let ghost lv = self.out_tup->0@;
                let ghost pred = |r2: Seq<FieldV>| spec_compare(op, lv[li as int],
                    r2[ri as int]);
                match self.right_child.next() {
                    Ok(Some(rt)) => {
                        let lt = match &self.out_tup {
                            Some(lt) => lt,
                            None => {
                                proof {
                                    assert(false);
                                }
                                return Ok(None);
                            },
                        };
                        proof {
                            assert(lt@ == ls[lp - 1]);
                            assert(li < ls[lp - 1].len());
                            assert(rt@ == rs[rp]);
                            assert(ri < rs[rp].len());
                        }
                        let lf = lt.get_field(self.predicate.left_index).unwrap();
                        let rf = rt.get_field(self.predicate.right_index).unwrap();
                        proof {
                            lemma_take_push(rs, rp);
                            lemma_filter_push(rs.take(rp), pred, rs[rp]);
                        }
                        if self.predicate.op.compare(lf, rf) {
                            let joined = concat_tuples(lt, &rt);
                            proof {
                                lemma_filter_take_index(rs, pred, rp);
                                lemma_nl_join_index(ls, rs, op, li, ri, lp - 1,
                                    rs.take(rp).filter(pred).len() as int);
                            }
                            self.emitted = Ghost(self.emitted@ + 1);
                            return Ok(Some(joined));
                        }
                    },
                    Ok(None) => {
                        proof {
                            lemma_filter_take_all(rs, pred);
                            lemma_nl_join_take_step(ls, rs, op, li, ri, lp - 1);
                        }
                        let _ = self.right_child.rewind();
                        match self.left_child.next() {
                            Ok(Some(l2)) => {
                                proof {
                                    assert(rs.take(0) =~= Seq::<Seq<FieldV>>::empty());
                                    reveal(Seq::filter);
                                }
                                self.out_tup = Some(l2);
                            },
                            Ok(None) => {
                                self.out_tup = None;
                                proof {
                                    assert(ls.take(lp) =~= ls);
                                }
                                return Ok(None);
                            },
                            Err(_) => {
                                proof {
                                    assert(false);
                                }
                                return Ok(None);
                            },
                        }
                    },
                    Err(_) => {
                        proof {
                            assert(false);
                        }
                        return Ok(None);
                    },
                }
            }
        }
    }

    fn close(&mut self) -> (r: Result<(), CrustyError>) {
        self.open = false;
        self.out_tup = None;
        self.emitted = Ghost(0);
        let _ = self.left_child.close();
        let _ = self.right_child.close();
        Ok(())
    }

    fn rewind(&mut self) -> (r: Result<(), CrustyError>) {
        let _ = self.left_child.rewind();
        let _ = self.right_child.rewind();
        self.out_tup = None;
        self.emitted = Ghost(0);
        Ok(())
    }

    fn get_schema(&self) -> (r: &TableSchema) {
        &self.schema
    }
}

/// The equi-join: construction drains the right child once, keeping its
/// tuples in stream order; iteration probes them per left tuple and emits
/// one joined row for every right tuple with an equal key, in right-stream
/// order.
pub struct HashEqJoin<L: OpIterator, R: OpIterator> {
    pub predicate: JoinPredicate,
    pub left_child: L,
    pub right_child: R,
    pub schema: TableSchema,
    pub rights: Vec<Tuple>,
    pub open: bool,
    pub out_tup: Option<Tuple>,
    pub matched: Vec<Tuple>,
    pub match_idx: usize,
    pub emitted: Ghost<int>,
}

impl<L: OpIterator, R: OpIterator> HashEqJoin<L, R> {
    /// An equi-join of two children on one field from each side. The right
    /// child is drained and closed during construction.
    pub fn new(
        op: SimplePredicateOp,
        left_index: usize,
        right_index: usize,
        left_child: L,
        right_child: R,
    ) -> (r: HashEqJoin<L, R>)
        requires
            op == SimplePredicateOp::Equals,
            left_child.wf(),
            right_child.wf(),
            !left_child.is_open(),
            !right_child.is_open(),
            index_ok(left_child.stream(), left_index),
            index_ok(right_child.stream(), right_index),
        ensures
            r.wf(),
            !r.is_open(),
            r.stream() == nl_join(left_child.stream(), right_child.stream(),
                SimplePredicateOp::Equals, left_index, right_index),
            r.schema_of() == left_child.schema_of() + right_child.schema_of(),
    {
        let ghost rs = right_child.stream();
        let ghost rschema = right_child.schema_of();
        let schema = concat_schema(left_child.get_schema(), right_child.get_schema());
        let mut right_child = right_child;
        let mut rights: Vec<Tuple> = Vec::new();
        let _ = right_child.open();
        loop
            invariant
                right_child.wf(),
                right_child.is_open(),
                right_child.stream() == rs,
                right_child.schema_of() == rschema,
                0 <= right_child.pos() <= rs.len(),
                rights@.len() == right_child.pos(),
                forall|k: int|
                    0 <= k < rights@.len() ==> (#[trigger] rights@[k])@ == rs[k],
            ensures
                right_child.wf(),
                right_child.is_open(),
                right_child.stream() == rs,
                right_child.schema_of() == rschema,
                rights@.len() == rs.len(),
                forall|k: int|
                    0 <= k < rights@.len() ==> (#[trigger] rights@[k])@ == rs[k],
            decreases rs.len() - right_child.pos(),
        {
            match right_child.next() {
                Ok(Some(t)) => {
                    rights.push(t);
                },
                Ok(None) => {
                    break;
                },
                Err(_) => {
                    proof {
                        assert(false);
                    }
                    break;
                },
            }
        }
        let _ = right_child.rewind();
        let _ = right_child.close();
        HashEqJoin {
            predicate: JoinPredicate::new(op, left_index, right_index),
            left_child,
            right_child,
            schema,
            rights,
            open: false,
            out_tup: None,
            matched: Vec::new(),
            match_idx: 0,
            emitted: Ghost(0),
        }
    }
}

/// The right tuples whose key field equals the left tuple's key field, in
/// stream order.
fn probe(
    rights: &Vec<Tuple>,
    lt: &Tuple,
    li: usize,
    ri: usize,
    Ghost(rs): Ghost<Seq<Seq<FieldV>>>,
) -> (m: Vec<Tuple>)
    requires
        rights@.len() == rs.len(),
        forall|k: int| 0 <= k < rights@.len() ==> (#[trigger] rights@[k])@ == rs[k],
        li < lt@.len(),
        index_ok(rs, ri),
    ensures
        m@.map_values(|t: Tuple| t@) == rs.filter(
            |r: Seq<FieldV>| spec_compare(SimplePredicateOp::Equals, lt@[li as int],
                r[ri as int]),
        ),
{
    let ghost pred = |r: Seq<FieldV>|
        spec_compare(SimplePredicateOp::Equals, lt@[li as int], r[ri as int]);
    let lf = lt.get_field(li).unwrap();
    let mut m: Vec<Tuple> = Vec::new();
    let n = rights.len();
    let mut j: usize = 0;
    while j < n
        invariant
            j <= n,
            n == rights@.len(),
            n == rs.len(),
            forall|k: int| 0 <= k < rights@.len() ==> (#[trigger] rights@[k])@ == rs[k],
            li < lt@.len(),
            index_ok(rs, ri),
            lf@ == lt@[li as int],
            pred == (|r: Seq<FieldV>|
                spec_compare(SimplePredicateOp::Equals, lt@[li as int], r[ri as int])),
            m@.map_values(|t: Tuple| t@) =~= rs.take(j as int).filter(pred),
        decreases n - j,
    {
        proof {
            assert(rights@[j as int]@ == rs[j as int]);
            assert(ri < rs[j as int].len());
            lemma_take_push(rs, j as int);
            lemma_filter_push(rs.take(j as int), pred, rs[j as int]);
        }
        let rf = rights[j].get_field(ri).unwrap();
        if field_eq(lf, rf) {
            m.push(rights[j].duplicate());
            proof {
                assert(m@.map_values(|t: Tuple| t@) =~= rs.take(j as int + 1).filter(pred));
            }
        } else {
            proof {
                assert(m@.map_values(|t: Tuple| t@) =~= rs.take(j as int + 1).filter(pred));
            }
        }
        j += 1;
    }
    proof {
        assert(rs.take(n as int) =~= rs);
    }
    m
}

impl<L: OpIterator, R: OpIterator> OpIterator for HashEqJoin<L, R> {
    open spec fn wf(&self) -> bool {
        let ls = self.left_child.stream();
        let rs = self.right_child.stream();
        let op = self.predicate.op;
        let li = self.predicate.left_index;
        let ri = self.predicate.right_index;
        &&& self.left_child.wf()
        &&& self.right_child.wf()
        &&& op == SimplePredicateOp::Equals
        &&& self.schema@ == self.left_child.schema_of() + self.right_child.schema_of()
        &&& index_ok(ls, li)
        &&& index_ok(rs, ri)
        &&& self.rights@.len() == rs.len()
        &&& forall|k: int| 0 <= k < rs.len() ==> (#[trigger] self.rights@[k])@ == rs[k]
        &&& self.open ==> self.left_child.is_open() && self.right_child.is_open()
        &&& !self.open ==> !self.left_child.is_open() && !self.right_child.is_open()
            && self.out_tup is None && self.emitted@ == 0
        &&& self.open ==> match self.out_tup {
            None => (self.left_child.pos() == 0 && self.emitted@ == 0) || (
            self.left_child.pos() == ls.len() && self.emitted@ == nl_join(ls, rs, op, li,
                ri).len()),
            Some(l) => {
                &&& 1 <= self.left_child.pos() <= ls.len()
                &&& l@ == ls[self.left_child.pos() - 1]
                &&& self.matched@.map_values(|t: Tuple| t@) == rs.filter(
                    |r: Seq<FieldV>| spec_compare(op, l@[li as int], r[ri as int]))
                &&& self.match_idx <= self.matched@.len()
                &&& self.emitted@ == nl_join(ls.take(self.left_child.pos() - 1), rs, op, li,
                    ri).len() + self.match_idx
            },
        }
    }

    open spec fn is_open(&self) -> bool {
        self.open
    }

    open spec fn pos(&self) -> int {
        self.emitted@
    }

    open spec fn stream(&self) -> Seq<Seq<FieldV>> {
        nl_join(self.left_child.stream(), self.right_child.stream(), self.predicate.op,
            self.predicate.left_index, self.predicate.right_index)
    }

    open spec fn schema_of(&self) -> Seq<(Seq<char>, DataType)> {
        self.schema@
    }

    fn open(&mut self) -> (r: Result<(), CrustyError>) {
        if !self.open {
            let _ = self.left_child.open();
            let _ = self.right_child.open();
            self.open = true;
        }
        Ok(())
    }

    fn next(&mut self) -> (r: Result<Option<Tuple>, CrustyError>) {
        let ghost ls = self.left_child.stream();
        let ghost rs = self.right_child.stream();
        let ghost op = self.predicate.op;
        let ghost li = self.predicate.left_index;
        let ghost ri = self.predicate.right_index;
        loop
            invariant
                self.wf(),
                self.open,
                ls == self.left_child.stream(),
                rs == self.right_child.stream(),
                ls == old(self).left_child.stream(),
                rs == old(self).right_child.stream(),
                op == self.predicate.op,
                li == self.predicate.left_index,
                ri == self.predicate.right_index,
                self.predicate == old(self).predicate,
                self.schema == old(self).schema,
                self.emitted@ == old(self).emitted@,
            decreases ls.len() + 1 - self.left_child.pos(),
                if self.out_tup is Some { 0int } else { 1int },
        {
            match &self.out_tup {
                None => {
                    match self.left_child.next() {
                        Ok(Some(l)) => {
                            let m = probe(&self.rights, &l, self.predicate.left_index,
                                self.predicate.right_index, Ghost(rs));
                            proof {
                                assert(ls.take(0) =~= Seq::<Seq<FieldV>>::empty());
                            }
                            self.matched = m;
                            self.match_idx = 0;
                            self.out_tup = Some(l);
                        },
                        Ok(None) => {
                            proof {
                                lemma_nl_join_take_all(ls, rs, op, li, ri);
                            }
                            return Ok(None);
                        },
                        Err(_) => {
                            proof {
                                assert(false);
                            }
                            return Ok(None);
                        },
                    }
                },
                Some(lt) => {
                    let ghost lp = self.left_child.pos();
                    let ghost lv = lt@;
                    let ghost pred = |r2: Seq<FieldV>| spec_compare(op, lv[li as int],
                        r2[ri as int]);
                    if self.match_idx < self.matched.len() {
                        let joined = concat_tuples(lt, &self.matched[self.match_idx]);
                        proof {
                            assert(self.matched@[self.match_idx as int]@
                                == rs.filter(pred)[self.match_idx as int]);
                            lemma_nl_join_index(ls, rs, op, li, ri, lp - 1,
                                self.match_idx as int);
                        }
                        self.match_idx = self.match_idx + 1;
                        self.emitted = Ghost(self.emitted@ + 1);
                        return Ok(Some(joined));
                    }
                    proof {
                        lemma_nl_join_take_step(ls, rs, op, li, ri, lp - 1);
                    }
                    match self.left_child.next() {
                        Ok(Some(l2)) => {
                            let m = probe(&self.rights, &l2, self.predicate.left_index,
                                self.predicate.right_index, Ghost(rs));
                            self.matched = m;
                            self.match_idx = 0;
                            self.out_tup = Some(l2);
                        },
                        Ok(None) => {
                            self.out_tup = None;
                            proof {
                                assert(ls.take(lp) =~= ls);
                            }
                            return Ok(None);
                        },
                        Err(_) => {
                            proof {
                                assert(false);
                            }
                            return Ok(None);
                        },
                    }
                },
            }
        }
    }

    fn close(&mut self) -> (r: Result<(), CrustyError>) {
        self.open = false;
        self.out_tup = None;
        self.matched = Vec::new();
        self.match_idx = 0;
        self.emitted = Ghost(0);
        let _ = self.left_child.close();
        let _ = self.right_child.close();
        Ok(())
    }

    fn rewind(&mut self) -> (r: Result<(), CrustyError>) {
        let _ = self.left_child.rewind();
        let _ = self.right_child.rewind();
        self.out_tup = None;
        self.matched = Vec::new();
        self.match_idx = 0;
        self.emitted = Ghost(0);
        Ok(())
    }

    fn get_schema(&self) -> (r: &TableSchema) {
        &self.schema
    }
}

} // verus!
