//! Grouped aggregation: group an input stream by a tuple of key columns and
//! fold Count, Sum, Min, Max or Avg over chosen columns of each group.
//! Groups appear in the order their keys first appear in the input; each
//! output row is the group key followed by the aggregate values.

use vstd::prelude::*;
use crate::ids::CrustyError;
use crate::tuple::{Field, FieldV, Tuple, Attribute, TableSchema, DataType, AggOp, field_eq,
    field_less, field_lt, clone_field};
use crate::opiterator::{OpIterator, TupleIterator};
use crate::seq_util::{lemma_take_push, lemma_filter_push};

verus! {

/// The column an aggregate folds over, and the operator it applies.
#[derive(Clone, Copy)]
pub struct AggregateField {
    pub field: usize,
    pub op: AggOp,
}

/// The group key of a tuple: its fields at the group-by indices, in order.
pub open spec fn key_of(t: Seq<FieldV>, gb: Seq<usize>) -> Seq<FieldV> {
    gb.map_values(|j: usize| t[j as int])
}

/// The distinct group keys of a stream, in order of first appearance.
pub open spec fn group_keys(ts: Seq<Seq<FieldV>>, gb: Seq<usize>) -> Seq<Seq<FieldV>>
    decreases ts.len(),
{
    if ts.len() == 0 {
        Seq::empty()
    } else {
        let prev = group_keys(ts.drop_last(), gb);
        if prev.contains(key_of(ts.last(), gb)) {
            prev
        } else {
            prev.push(key_of(ts.last(), gb))
        }
    }
}

/// The tuples of the group with key `k`, in input order.
pub open spec fn group_members(ts: Seq<Seq<FieldV>>, gb: Seq<usize>, k: Seq<FieldV>)
    -> Seq<Seq<FieldV>> {
    ts.filter(|t: Seq<FieldV>| key_of(t, gb) == k)
}

/// The integer value of a tuple's column; zero on a non-integer field, which
/// the sum and average contracts exclude.
pub open spec fn col_int(t: Seq<FieldV>, col: usize) -> int {
    match t[col as int] {
        FieldV::IntV(x) => x,
        FieldV::StrV(_) => 0,
    }
}

/// The sum of a column over a group.
pub open spec fn sum_col(ms: Seq<Seq<FieldV>>, col: usize) -> int
    decreases ms.len(),
{
    if ms.len() == 0 {
        0
    } else {
        sum_col(ms.drop_last(), col) + col_int(ms.last(), col)
    }
}

/// The minimum of a column over a nonempty group; the first value wins ties.
pub open spec fn min_col(ms: Seq<Seq<FieldV>>, col: usize) -> FieldV
    decreases ms.len(),
{
    if ms.len() <= 1 {
        ms[0][col as int]
    } else {
        let p = min_col(ms.drop_last(), col);
        if field_lt(ms.last()[col as int], p) {
            ms.last()[col as int]
        } else {
            p
        }
    }
}

/// The maximum of a column over a nonempty group; the first value wins ties.
pub open spec fn max_col(ms: Seq<Seq<FieldV>>, col: usize) -> FieldV
    decreases ms.len(),
{
    if ms.len() <= 1 {
        ms[0][col as int]
    } else {
        let p = max_col(ms.drop_last(), col);
        if field_lt(p, ms.last()[col as int]) {
            ms.last()[col as int]
        } else {
            p
        }
    }
}

/// Integer division truncating toward zero, as machine division does.
pub open spec fn div_trunc(a: int, b: int) -> int {
    if a >= 0 {
        a / b
    } else {
        -((-a) / b)
    }
}

/// The value one aggregate produces over one group.
pub open spec fn agg_result(op: AggOp, ms: Seq<Seq<FieldV>>, col: usize) -> FieldV {
    match op {
        AggOp::Count => FieldV::IntV(ms.len() as int),
        AggOp::Sum => FieldV::IntV(sum_col(ms, col)),
        AggOp::Min => min_col(ms, col),
        AggOp::Max => max_col(ms, col),
        AggOp::Avg => FieldV::IntV(div_trunc(sum_col(ms, col), ms.len() as int)),
    }
}

/// The whole aggregation: one output row per group, in first-appearance
/// order, each the group key followed by the aggregate values.
pub open spec fn spec_aggregate(ts: Seq<Seq<FieldV>>, gb: Seq<usize>, aggs: Seq<AggregateField>)
    -> Seq<Seq<FieldV>> {
    group_keys(ts, gb).map_values(
        |k: Seq<FieldV>| k + aggs.map_values(
            |a: AggregateField| agg_result(a.op, group_members(ts, gb, k), a.field),
        ),
    )
}

/// Every group-by and aggregate column index lies within every input tuple.
pub open spec fn agg_indices_ok(ts: Seq<Seq<FieldV>>, gb: Seq<usize>, aggs: Seq<AggregateField>)
    -> bool {
    &&& forall|i: int, g: int|
        0 <= i < ts.len() && 0 <= g < gb.len()
            ==> (#[trigger] gb[g]) < (#[trigger] ts[i]).len()
    &&& forall|i: int, a: int|
        0 <= i < ts.len() && 0 <= a < aggs.len()
            ==> (#[trigger] aggs[a]).field < (#[trigger] ts[i]).len()
}

/// What the machine asks of the values: sums and averages fold integer
/// fields only, sums and counts fit in 32 bits.
pub open spec fn agg_values_ok(ts: Seq<Seq<FieldV>>, gb: Seq<usize>, aggs: Seq<AggregateField>)
    -> bool {
    &&& ts.len() <= i32::MAX
    &&& forall|i: int, a: int|
        0 <= i < ts.len() && 0 <= a < aggs.len()
            && ((#[trigger] aggs[a]).op == AggOp::Sum || aggs[a].op == AggOp::Avg)
            ==> (#[trigger] ts[i])[aggs[a].field as int] is IntV
    &&& forall|k: int, a: int|
        0 <= k < group_keys(ts, gb).len() && 0 <= a < aggs.len()
            && (#[trigger] aggs[a]).op == AggOp::Sum
            ==> i32::MIN <= sum_col(group_members(ts, gb, #[trigger] group_keys(ts, gb)[k]),
                aggs[a].field) <= i32::MAX
}

/// Every key in `group_keys` is the key of some input tuple.
proof fn lemma_group_keys_sound(ts: Seq<Seq<FieldV>>, gb: Seq<usize>, k: Seq<FieldV>)
    requires
        group_keys(ts, gb).contains(k),
    ensures
        exists|i: int| 0 <= i < ts.len() && key_of(#[trigger] ts[i], gb) == k,
    decreases ts.len(),
{
    if ts.len() > 0 {
        let prev = group_keys(ts.drop_last(), gb);
        if prev.contains(k) {
            lemma_group_keys_sound(ts.drop_last(), gb, k);
            let i = choose|i: int|
                0 <= i < ts.drop_last().len() && key_of(#[trigger] ts.drop_last()[i], gb) == k;
            assert(key_of(ts[i], gb) == k);
        } else {
            assert(key_of(ts[ts.len() - 1], gb) == k);
        }
    }
}

/// A group named by a key of the stream is nonempty.
proof fn lemma_group_nonempty(ts: Seq<Seq<FieldV>>, gb: Seq<usize>, k: Seq<FieldV>)
    requires
        group_keys(ts, gb).contains(k),
    ensures
        group_members(ts, gb, k).len() > 0,
{
    lemma_group_keys_sound(ts, gb, k);
    let i = choose|i: int| 0 <= i < ts.len() && key_of(#[trigger] ts[i], gb) == k;
    Seq::lemma_filter_contains(ts, |t: Seq<FieldV>| key_of(t, gb) == k, i);
    let f = group_members(ts, gb, k);
    assert(f.contains(ts[i]));
}

/// Computes an aggregation over a stream of tuples, grouped by key columns:
/// tuples are merged in one by one and the grouped results read out at the
/// end.
pub struct Aggregator {
    pub agg_fields: Vec<AggregateField>,
    pub groupby_fields: Vec<usize>,
    pub schema: TableSchema,
    pub merged: Vec<Tuple>,
}

impl Aggregator {
    /// The tuples merged in so far.
    pub open spec fn seen(self) -> Seq<Seq<FieldV>> {
        self.merged@.map_values(|t: Tuple| t@)
    }

    /// An aggregator over the given aggregates and group-by columns,
    /// producing tuples of the given schema.
    pub fn new(
        agg_fields: Vec<AggregateField>,
        groupby_fields: Vec<usize>,
        schema: &TableSchema,
    ) -> (r: Aggregator)
        ensures
            r.agg_fields == agg_fields,
            r.groupby_fields == groupby_fields,
            r.schema@ == schema@,
            r.seen() == Seq::<Seq<FieldV>>::empty(),
    {
        let r = Aggregator {
            agg_fields,
            groupby_fields,
            schema: schema.duplicate(),
            merged: Vec::new(),
        };
        proof {
            assert(r.seen() =~= Seq::<Seq<FieldV>>::empty());
        }
        r
    }

    /// Merge one tuple into its group.
    pub fn merge_tuple_into_group(&mut self, tuple: &Tuple)
        ensures
            final(self).seen() == old(self).seen().push(tuple@),
            final(self).agg_fields == old(self).agg_fields,
            final(self).groupby_fields == old(self).groupby_fields,
            final(self).schema == old(self).schema,
    {
        self.merged.push(tuple.duplicate());
        proof {
            assert(self.seen() =~= old(self).seen().push(tuple@));
        }
    }

    /// The grouped aggregation results, one tuple per group in
    /// first-appearance order, as a materialized operator.
    pub fn iterator(&self) -> (r: TupleIterator)
        requires
            agg_indices_ok(self.seen(), self.groupby_fields@, self.agg_fields@),
            agg_values_ok(self.seen(), self.groupby_fields@, self.agg_fields@),
        ensures
            r.wf(),
            !r.is_open(),
            r.stream() == spec_aggregate(self.seen(), self.groupby_fields@, self.agg_fields@),
            r.schema_of() == self.schema@,
    {
        let ghost ts = self.seen();
        let ghost gb = self.groupby_fields@;
        let ghost aggs = self.agg_fields@;
        let n = self.merged.len();

        // Collect the distinct group keys in first-appearance order.
        let mut keys: Vec<Tuple> = Vec::new();
        let mut i: usize = 0;
        while i < n
            invariant
                i <= n,
                n == self.merged@.len(),
                ts == self.seen(),
                gb == self.groupby_fields@,
                agg_indices_ok(ts, gb, aggs),
                aggs == self.agg_fields@,
                keys@.map_values(|t: Tuple| t@) =~= group_keys(ts.take(i as int), gb),
            decreases n - i,
        {
            proof {
                assert(ts[i as int] == self.merged@[i as int]@);
            }
            let k = key_tuple(&self.merged[i], &self.groupby_fields);
            proof {
                lemma_take_push(ts, i as int);
                assert(ts.take(i as int + 1).drop_last() =~= ts.take(i as int));
            }
            if !contains_tuple(&keys, &k) {
                keys.push(k);
                proof {
                    assert(keys@.map_values(|t: Tuple| t@)
                        =~= group_keys(ts.take(i as int + 1), gb));
                }
            } else {
                proof {
                    assert(keys@.map_values(|t: Tuple| t@)
                        =~= group_keys(ts.take(i as int + 1), gb));
                }
            }
            i += 1;
        }
        proof {
            assert(ts.take(n as int) =~= ts);
        }

        // One result row per group: the key, then each aggregate folded
        // over the group's members.
        let mut results: Vec<Tuple> = Vec::new();
        let gn = keys.len();
        let mut g: usize = 0;
        while g < gn
            invariant
                g <= gn,
                gn == keys@.len(),
                n == self.merged@.len(),
                ts == self.seen(),
                gb == self.groupby_fields@,
                aggs == self.agg_fields@,
                agg_indices_ok(ts, gb, aggs),
                agg_values_ok(ts, gb, aggs),
                keys@.map_values(|t: Tuple| t@) == group_keys(ts, gb),
                results@.map_values(|t: Tuple| t@)
                    =~= spec_aggregate(ts, gb, aggs).take(g as int),
            decreases gn - g,
        {
            let ghost kv = keys@[g as int]@;
            proof {
                assert(group_keys(ts, gb)[g as int] == kv);
                assert(group_keys(ts, gb).contains(kv));
                lemma_group_nonempty(ts, gb, kv);
            }

            // The members of this group, in input order.
            let mut members: Vec<Tuple> = Vec::new();
            let mut j: usize = 0;
            while j < n
                invariant
                    j <= n,
                    n == self.merged@.len(),
                    ts == self.seen(),
                    gb == self.groupby_fields@,
                    agg_indices_ok(ts, gb, aggs),
                    aggs == self.agg_fields@,
                    gn == keys@.len(),
                    g < gn,
                    kv == keys@[g as int]@,
                    members@.map_values(|t: Tuple| t@)
                        =~= group_members(ts.take(j as int), gb, kv),
                decreases n - j,
            {
                proof {
                    assert(ts[j as int] == self.merged@[j as int]@);
                }
                let k2 = key_tuple(&self.merged[j], &self.groupby_fields);
                proof {
                    lemma_take_push(ts, j as int);
                    lemma_filter_push(ts.take(j as int),
                        |t: Seq<FieldV>| key_of(t, gb) == kv, ts[j as int]);
                }
                if tuple_eq(&k2, &keys[g]) {
                    members.push(self.merged[j].duplicate());
                    proof {
                        assert(members@.map_values(|t: Tuple| t@)
                            =~= group_members(ts.take(j as int + 1), gb, kv));
                    }
                } else {
                    proof {
                        assert(members@.map_values(|t: Tuple| t@)
                            =~= group_members(ts.take(j as int + 1), gb, kv));
                    }
                }
                j += 1;
            }
            proof {
                assert(ts.take(n as int) =~= ts);
                assert(members@.map_values(|t: Tuple| t@) =~= group_members(ts, gb, kv));
            }

            let row = build_row(&keys[g], &members, &self.agg_fields, Ghost(ts), Ghost(gb));
            results.push(row);
            proof {
                lemma_take_push(spec_aggregate(ts, gb, aggs), g as int);
                assert(results@.map_values(|t: Tuple| t@)
                    =~= spec_aggregate(ts, gb, aggs).take(g as int + 1));
            }
            g += 1;
        }
        proof {
            assert(spec_aggregate(ts, gb, aggs).take(gn as int) =~= spec_aggregate(ts, gb, aggs));
            assert(results@.map_values(|t: Tuple| t@) =~= spec_aggregate(ts, gb, aggs));
        }
        TupleIterator::new(results, self.schema.duplicate())
    }
}

/// The group key of a tuple, as a tuple of its key-column fields.
fn key_tuple(t: &Tuple, gb: &Vec<usize>) -> (r: Tuple)
    requires
        forall|g: int| 0 <= g < gb@.len() ==> (#[trigger] gb@[g]) < t@.len(),
    ensures
        r@ == key_of(t@, gb@),
{
    let mut fields: Vec<Field> = Vec::new();
    let n = gb.len();
    let mut i: usize = 0;
    while i < n
        invariant
            i <= n,
            n == gb@.len(),
            forall|g: int| 0 <= g < gb@.len() ==> (#[trigger] gb@[g]) < t@.len(),
            fields@.len() == i,
            forall|k: int| 0 <= k < i ==> (#[trigger] fields@[k])@ == key_of(t@, gb@)[k],
        decreases n - i,
    {
        let f = t.get_field(gb[i]).unwrap();
        fields.push(clone_field(f));
        i += 1;
    }
    let r = Tuple::new(fields);
    proof {
        assert(r@ =~= key_of(t@, gb@));
    }
    r
}

/// Whether two tuples hold equal fields.
fn tuple_eq(a: &Tuple, b: &Tuple) -> (r: bool)
    ensures
        r == (a@ == b@),
{
    let n = a.size();
    if n != b.size() {
        proof {
            assert(a@.len() != b@.len());
        }
        return false;
    }
    let mut i: usize = 0;
    while i < n
        invariant
            i <= n,
            n == a@.len(),
            n == b@.len(),
            forall|k: int| 0 <= k < i ==> a@[k] == b@[k],
        decreases n - i,
    {
        if !field_eq(&a.field_vals[i], &b.field_vals[i]) {
            proof {
                assert(a@[i as int] == a.field_vals@[i as int]@);
                assert(b@[i as int] == b.field_vals@[i as int]@);
            }
            return false;
        }
        proof {
            assert(a@[i as int] == a.field_vals@[i as int]@);
            assert(b@[i as int] == b.field_vals@[i as int]@);
        }
        i += 1;
    }
    proof {
        assert(a@ =~= b@);
    }
    true
}

/// Whether a tuple with the same fields is in the vector.
fn contains_tuple(v: &Vec<Tuple>, t: &Tuple) -> (r: bool)
    ensures
        r == v@.map_values(|x: Tuple| x@).contains(t@),
{
    let n = v.len();
    let mut i: usize = 0;
    while i < n
        invariant
            i <= n,
            n == v@.len(),
            forall|k: int| 0 <= k < i ==> (#[trigger] v@[k])@ != t@,
        decreases n - i,
    {
        if tuple_eq(&v[i], t) {
            proof {
                assert(v@.map_values(|x: Tuple| x@)[i as int] == t@);
            }
            return true;
        }
        i += 1;
    }
    proof {
        if v@.map_values(|x: Tuple| x@).contains(t@) {
            let mv = v@.map_values(|x: Tuple| x@);
            let k = choose|k: int| #![auto] 0 <= k < mv.len() && mv[k] == t@;
            assert(v@[k]@ == t@);
        }
    }
    false
}

/// One output row: the group key's fields followed by each aggregate folded
/// over the group's members.
fn build_row(
    key: &Tuple,
    members: &Vec<Tuple>,
    aggs: &Vec<AggregateField>,
    Ghost(ts): Ghost<Seq<Seq<FieldV>>>,
    Ghost(gb): Ghost<Seq<usize>>,
) -> (r: Tuple)
    requires
        group_keys(ts, gb).contains(key@),
        members@.map_values(|t: Tuple| t@) == group_members(ts, gb, key@),
        agg_indices_ok(ts, gb, aggs@),
        agg_values_ok(ts, gb, aggs@),
    ensures
        r@ == key@ + aggs@.map_values(
            |a: AggregateField| agg_result(a.op, group_members(ts, gb, key@), a.field),
        ),
{
    let ghost ms = members@.map_values(|t: Tuple| t@);
    proof {
        lemma_group_nonempty(ts, gb, key@);
        Seq::lemma_filter_len(ts, |t: Seq<FieldV>| key_of(t, gb) == key@);
    }
    let mut fields: Vec<Field> = Vec::new();
    let kn = key.field_vals.len();
    let mut i: usize = 0;
    while i < kn
        invariant
            i <= kn,
            kn == key@.len(),
            fields@.len() == i,
            forall|k: int| 0 <= k < i ==> (#[trigger] fields@[k])@ == key@[k],
        decreases kn - i,
    {
        let f = clone_field(&key.field_vals[i]);
        proof {
            assert(key@[i as int] == key.field_vals@[i as int]@);
        }
        fields.push(f);
        i += 1;
    }

    let an = aggs.len();
    let mut a: usize = 0;
    while a < an
        invariant
            a <= an,
            an == aggs@.len(),
            ms == members@.map_values(|t: Tuple| t@),
            ms == group_members(ts, gb, key@),
            ms.len() > 0,
            ms.len() <= ts.len(),
            ts.len() <= i32::MAX,
            group_keys(ts, gb).contains(key@),
            agg_indices_ok(ts, gb, aggs@),
            agg_values_ok(ts, gb, aggs@),
            fields@.len() == key@.len() + a,
            forall|k: int| 0 <= k < key@.len() ==> (#[trigger] fields@[k])@ == key@[k],
            forall|k: int|
                0 <= k < a ==> (#[trigger] fields@[key@.len() + k])@
                    == agg_result(aggs@[k].op, group_members(ts, gb, key@), aggs@[k].field),
        decreases an - a,
    {
        let af = aggs[a];
        let f = fold_agg(af, members, Ghost(ts), Ghost(gb), Ghost(key@));
        fields.push(f);
        a += 1;
    }
    let r = Tuple::new(fields);
    proof {
        let whole = aggs@.map_values(
            |x: AggregateField| agg_result(x.op, group_members(ts, gb, key@), x.field),
        );
        assert(r@.len() == key@.len() + an);
        assert forall|k: int| 0 <= k < key@.len() + an
            implies r@[k] == (key@ + whole)[k] by {
            assert(r@[k] == fields@[k]@);
            if k >= key@.len() {
                assert(fields@[key@.len() + (k - key@.len())]@
                    == agg_result(aggs@[k - key@.len()].op, group_members(ts, gb, key@),
                        aggs@[k - key@.len()].field));
            }
        }
        assert(r@ =~= key@ + whole);
    }
    r
}

/// Fold one aggregate over a nonempty group.
fn fold_agg(
    af: AggregateField,
    members: &Vec<Tuple>,
    Ghost(ts): Ghost<Seq<Seq<FieldV>>>,
    Ghost(gb): Ghost<Seq<usize>>,
    Ghost(kv): Ghost<Seq<FieldV>>,
) -> (r: Field)
    requires
        members@.map_values(|t: Tuple| t@) == group_members(ts, gb, kv),
        group_keys(ts, gb).contains(kv),
        members@.len() > 0,
        members@.len() <= ts.len(),
        ts.len() <= i32::MAX,
        agg_indices_ok(ts, gb, Seq::empty().push(af)),
        agg_values_ok(ts, gb, Seq::empty().push(af)),
    ensures
        r@ == agg_result(af.op, group_members(ts, gb, kv), af.field),
{
    let ghost ms = members@.map_values(|t: Tuple| t@);
    let ghost aggs1 = Seq::empty().push(af);
    proof {
        assert(aggs1[0] == af);
        assert forall|j: int| 0 <= j < ms.len()
            implies af.field < (#[trigger] ms[j]).len() by {
            crate::seq_util::lemma_filter_element_of(ts,
                |t: Seq<FieldV>| key_of(t, gb) == kv, j);
            let i2 = choose|i2: int| 0 <= i2 < ts.len() && #[trigger] ts[i2] == ms[j];
            assert(aggs1[0].field < ts[i2].len());
        }
        assert forall|j: int| 0 <= j < members@.len()
            implies af.field < (#[trigger] members@[j])@.len() by {
            assert(ms[j] == members@[j]@);
        }
    }
    let n = members.len();
    let col = af.field;
    match af.op {
        AggOp::Count => {
            proof {
                Seq::lemma_filter_len(ts, |t: Seq<FieldV>| key_of(t, gb) == kv);
            }
            Field::IntField(n as i32)
        },
        AggOp::Sum | AggOp::Avg => {
            proof {
                assert forall|j: int| 0 <= j < ms.len()
                    implies (#[trigger] ms[j])[col as int] is IntV by {
                    crate::seq_util::lemma_filter_element_of(ts,
                        |t: Seq<FieldV>| key_of(t, gb) == kv, j);
                    let i2 = choose|i2: int|
                        0 <= i2 < ts.len() && #[trigger] ts[i2] == ms[j];
                    assert(ts[i2][aggs1[0].field as int] is IntV);
                }
            }
            let mut acc: i128 = 0;
            let mut j: usize = 0;
            while j < n
                invariant
                    j <= n,
                    n == members@.len(),
                    ms == members@.map_values(|t: Tuple| t@),
                    col == af.field,
                    forall|jj: int|
                        0 <= jj < ms.len() ==> (#[trigger] ms[jj])[col as int] is IntV,
                    forall|jj: int| 0 <= jj < ms.len() ==> col < (#[trigger] ms[jj]).len(),
                    acc == sum_col(ms.take(j as int), col),
                    -0x8000_0000 * (j as int) <= acc <= 0x7fff_ffff * (j as int),
                decreases n - j,
            {
                proof {
                    assert(ms[j as int] == members@[j as int]@);
                }
                let x = match members[j].get_field(col).unwrap() {
                    Field::IntField(v) => *v,
                    Field::StringField(_) => {
                        proof {
                            assert(ms[j as int][col as int] is IntV);
                            assert(false);
                        }
                        0
                    },
                };
                proof {
                    lemma_take_push(ms, j as int);
                    assert(ms.take(j as int + 1).drop_last() =~= ms.take(j as int));
                }
                acc = acc + x as i128;
                j += 1;
            }
            proof {
                assert(ms.take(n as int) =~= ms);
            }
            if matches!(af.op, AggOp::Sum) {
                proof {
                    assert(group_keys(ts, gb)[choose|k: int|
                        0 <= k < group_keys(ts, gb).len() && group_keys(ts, gb)[k] == kv]
                        == kv);
                }
                Field::IntField(acc as i32)
            } else {
                // Average, truncating toward zero as machine division does.
                let cnt = n as i128;
                let q: i128 = if acc >= 0 {
                    acc / cnt
                } else {
                    -((-acc) / cnt)
                };
                proof {
                    lemma_avg_fits(acc as int, n as int);
                }
                Field::IntField(q as i32)
            }
        },
        AggOp::Min => {
            proof {
                assert(ms[0] == members@[0]@);
            }
            let mut m = clone_field(members[0].get_field(col).unwrap());
            let mut j: usize = 1;
            while j < n
                invariant
                    1 <= j <= n,
                    n == members@.len(),
                    n >= 1,
                    ms == members@.map_values(|t: Tuple| t@),
                    col == af.field,
                    forall|jj: int| 0 <= jj < ms.len() ==> col < (#[trigger] ms[jj]).len(),
                    m@ == min_col(ms.take(j as int), col),
                decreases n - j,
            {
                proof {
                    assert(ms[j as int] == members@[j as int]@);
                }
                let f = members[j].get_field(col).unwrap();
                proof {
                    lemma_take_push(ms, j as int);
                    assert(ms.take(j as int + 1).drop_last() =~= ms.take(j as int));
                }
                if field_less(f, &m) {
                    m = clone_field(f);
                }
                j += 1;
            }
            proof {
                assert(ms.take(n as int) =~= ms);
            }
            m
        },
        AggOp::Max => {
            proof {
                assert(ms[0] == members@[0]@);
            }
            let mut m = clone_field(members[0].get_field(col).unwrap());
            let mut j: usize = 1;
            while j < n
                invariant
                    1 <= j <= n,
                    n == members@.len(),
                    n >= 1,
                    ms == members@.map_values(|t: Tuple| t@),
                    col == af.field,
                    forall|jj: int| 0 <= jj < ms.len() ==> col < (#[trigger] ms[jj]).len(),
                    m@ == max_col(ms.take(j as int), col),
                decreases n - j,
            {
                proof {
                    assert(ms[j as int] == members@[j as int]@);
                }
                let f = members[j].get_field(col).unwrap();
                proof {
                    lemma_take_push(ms, j as int);
                    assert(ms.take(j as int + 1).drop_last() =~= ms.take(j as int));
                }
                if field_less(&m, f) {
                    m = clone_field(f);
                }
                j += 1;
            }
            proof {
                assert(ms.take(n as int) =~= ms);
            }
            m
        },
    }
}

/// The aggregate fields built from parallel index and operator vectors.
pub open spec fn mk_aggs(idx: Seq<usize>, ops: Seq<AggOp>) -> Seq<AggregateField> {
    Seq::new(idx.len(), |i: int| AggregateField { field: idx[i], op: ops[i] })
}

/// The aggregate's output schema: the group-by columns then the aggregate
/// columns, under the given names, all typed as integers.
pub open spec fn agg_schema(gnames: Seq<Seq<char>>, anames: Seq<Seq<char>>)
    -> Seq<(Seq<char>, DataType)> {
    gnames.map_values(|n: Seq<char>| (n, DataType::Int))
        + anames.map_values(|n: Seq<char>| (n, DataType::Int))
}

/// The grouped-aggregation operator. It is eager: construction drains the
/// child into the aggregator, closes it, and caches the result rows;
/// iteration then yields the cached rows, one group per row in
/// first-appearance order. Opening the operator reopens the child, and
/// closing it releases the child again.
pub struct Aggregate<C: OpIterator> {
    pub schema: TableSchema,
    pub open: bool,
    pub child: C,
    pub agg: Aggregator,
    pub tuples: Vec<Tuple>,
    pub tuple_idx: usize,
}

impl<C: OpIterator> Aggregate<C> {
    /// Build the operator: open the child, drain it into per-group state,
    /// cache one result row per group, and close the child.
    pub fn new(
        groupby_indices: Vec<usize>,
        groupby_names: Vec<&str>,
        agg_indices: Vec<usize>,
        agg_names: Vec<&str>,
        ops: Vec<AggOp>,
        child: C,
    ) -> (r: Aggregate<C>)
        requires
            child.wf(),
            !child.is_open(),
            ops@.len() == agg_indices@.len(),
            agg_indices_ok(child.stream(), groupby_indices@, mk_aggs(agg_indices@, ops@)),
            agg_values_ok(child.stream(), groupby_indices@, mk_aggs(agg_indices@, ops@)),
        ensures
            r.wf(),
            !r.is_open(),
            r.stream() == spec_aggregate(child.stream(), groupby_indices@,
                mk_aggs(agg_indices@, ops@)),
            r.schema_of() == agg_schema(
                groupby_names@.map_values(|n: &str| n@),
                agg_names@.map_values(|n: &str| n@),
            ),
    {
        let ghost ts = child.stream();
        let ghost gb = groupby_indices@;
        let ghost aggsv = mk_aggs(agg_indices@, ops@);

        let mut agg_fields: Vec<AggregateField> = Vec::new();
        let an = agg_indices.len();
        let mut i: usize = 0;
        while i < an
            invariant
                i <= an,
                an == agg_indices@.len(),
                ops@.len() == an,
                aggsv == mk_aggs(agg_indices@, ops@),
                agg_fields@.len() == i,
                forall|k: int| 0 <= k < i ==> #[trigger] agg_fields@[k] == aggsv[k],
            decreases an - i,
        {
            agg_fields.push(AggregateField { field: agg_indices[i], op: ops[i] });
            i += 1;
        }
        proof {
            assert(agg_fields@ =~= aggsv);
        }

        let mut attributes: Vec<Attribute> = Vec::new();
        let gn = groupby_names.len();
        let mut g: usize = 0;
        while g < gn
            invariant
                g <= gn,
                gn == groupby_names@.len(),
                attributes@.len() == g,
                forall|k: int|
                    0 <= k < g ==> (#[trigger] attributes@[k])@
                        == (groupby_names@[k]@, DataType::Int),
            decreases gn - g,
        {
            attributes.push(Attribute::new(groupby_names[g].to_owned(), DataType::Int));
            g += 1;
        }
        let nn = agg_names.len();
        let mut a: usize = 0;
        while a < nn
            invariant
                a <= nn,
                nn == agg_names@.len(),
                gn == groupby_names@.len(),
                attributes@.len() == gn + a,
                forall|k: int|
                    0 <= k < gn ==> (#[trigger] attributes@[k])@
                        == (groupby_names@[k]@, DataType::Int),
                forall|k: int|
                    0 <= k < a ==> (#[trigger] attributes@[gn + k])@
                        == (agg_names@[k]@, DataType::Int),
            decreases nn - a,
        {
            attributes.push(Attribute::new(agg_names[a].to_owned(), DataType::Int));
            a += 1;
        }
        let schema = TableSchema::new(attributes);
        proof {
            let target = agg_schema(
                groupby_names@.map_values(|n: &str| n@),
                agg_names@.map_values(|n: &str| n@),
            );
            assert(schema@.len() == gn + nn);
            assert forall|k: int| 0 <= k < gn + nn implies schema@[k] == target[k] by {
                assert(schema@[k] == attributes@[k]@);
                if k < gn {
                    assert(groupby_names@.map_values(|n: &str| n@)[k] == groupby_names@[k]@);
                } else {
                    assert(attributes@[gn + (k - gn)]@ == (agg_names@[k - gn]@, DataType::Int));
                    assert(agg_names@.map_values(|n: &str| n@)[k - gn] == agg_names@[k - gn]@);
                }
            }
            assert(schema@ =~= target);
        }

        let mut agg = Aggregator::new(agg_fields, groupby_indices, &schema);
        let mut child = child;
        let _ = child.open();
        loop
            invariant
                child.wf(),
                child.is_open(),
                child.stream() == ts,
                agg.seen() == ts.take(child.pos()),
                agg.groupby_fields@ == gb,
                agg.agg_fields@ == aggsv,
                agg.schema@ == schema@,
                0 <= child.pos() <= ts.len(),
            ensures
                child.wf(),
                child.is_open(),
                child.stream() == ts,
                agg.seen() == ts,
                agg.groupby_fields@ == gb,
                agg.agg_fields@ == aggsv,
                agg.schema@ == schema@,
            decreases ts.len() - child.pos(),
        {
            match child.next() {
                Ok(Some(t)) => {
                    proof {
                        lemma_take_push(ts, child.pos() - 1);
                    }
                    agg.merge_tuple_into_group(&t);
                },
                Ok(None) => {
                    proof {
                        assert(ts.take(child.pos()) =~= ts);
                    }
                    break;
                },
                Err(_) => {
                    proof {
                        assert(false);
                    }
                    break;
                },
            }
        }
        let ti = agg.iterator();
        let tuples = ti.tuples;
        let _ = child.close();
        Aggregate { schema, open: false, child, agg, tuples, tuple_idx: 0 }
    }
}

impl<C: OpIterator> OpIterator for Aggregate<C> {
    open spec fn wf(&self) -> bool {
        &&& self.child.wf()
        &&& self.tuple_idx <= self.tuples@.len()
        &&& (!self.open ==> self.tuple_idx == 0)
        &&& (self.open ==> self.child.is_open())
        &&& (!self.open ==> !self.child.is_open())
    }

    open spec fn is_open(&self) -> bool {
        self.open
    }

    open spec fn pos(&self) -> int {
        self.tuple_idx as int
    }

    open spec fn stream(&self) -> Seq<Seq<FieldV>> {
        self.tuples@.map_values(|t: Tuple| t@)
    }

    open spec fn schema_of(&self) -> Seq<(Seq<char>, DataType)> {
        self.schema@
    }

    fn open(&mut self) -> (r: Result<(), CrustyError>) {
        if !self.open {
            let _ = self.child.open();
            self.open = true;
        }
        Ok(())
    }

    fn next(&mut self) -> (r: Result<Option<Tuple>, CrustyError>) {
        if self.tuple_idx < self.tuples.len() {
            let t = self.tuples[self.tuple_idx].duplicate();
            self.tuple_idx = self.tuple_idx + 1;
            Ok(Some(t))
        } else {
            Ok(None)
        }
    }

    fn close(&mut self) -> (r: Result<(), CrustyError>) {
        self.tuple_idx = 0;
        let _ = self.child.close();
        self.open = false;
        Ok(())
    }

    fn rewind(&mut self) -> (r: Result<(), CrustyError>) {
        let _ = self.child.rewind();
        self.tuple_idx = 0;
        Ok(())
    }

    fn get_schema(&self) -> (r: &TableSchema) {
        &self.schema
    }
}

/// A truncated average of 32-bit values fits in 32 bits.
proof fn lemma_avg_fits(sum: int, cnt: int)
    requires
        cnt > 0,
        -0x8000_0000 * cnt <= sum <= 0x7fff_ffff * cnt,
    ensures
        -0x8000_0000 <= div_trunc(sum, cnt) <= 0x7fff_ffff,
{
    if sum >= 0 {
        vstd::arithmetic::div_mod::lemma_div_is_ordered(sum, 0x7fff_ffff * cnt, cnt);
        vstd::arithmetic::div_mod::lemma_div_multiples_vanish(0x7fff_ffff, cnt);
    } else {
        vstd::arithmetic::div_mod::lemma_div_is_ordered(-sum, 0x8000_0000 * cnt, cnt);
        vstd::arithmetic::div_mod::lemma_div_multiples_vanish(0x8000_0000, cnt);
        vstd::arithmetic::div_mod::lemma_div_pos_is_pos(-sum, cnt);
    }
}

} // verus!
