use heapstore::ids::CrustyError;
use heapstore::join::{HashEqJoin, Join};
use heapstore::opiterator::{OpIterator, TupleIterator};
use heapstore::tuple::{Attribute, DataType, Field, SimplePredicateOp, TableSchema, Tuple};

const WIDTH1: usize = 2;
const WIDTH2: usize = 3;

fn create_tuple_list(vals: Vec<Vec<i32>>) -> Vec<Tuple> {
    vals.into_iter()
        .map(|row| Tuple::new(row.into_iter().map(Field::IntField).collect()))
        .collect()
}

fn get_int_table_schema(n: usize) -> TableSchema {
    let attrs = (0..n)
        .map(|_| Attribute::new(String::new(), DataType::Int))
        .collect();
    TableSchema::new(attrs)
}

fn scan1() -> TupleIterator {
    let tuples = create_tuple_list(vec![vec![1, 2], vec![3, 4], vec![5, 6], vec![7, 8]]);
    let ts = get_int_table_schema(WIDTH1);
    TupleIterator::new(tuples, ts)
}

fn scan2() -> TupleIterator {
    let tuples = create_tuple_list(vec![
        vec![1, 2, 3],
        vec![2, 3, 4],
        vec![3, 4, 5],
        vec![4, 5, 6],
        vec![5, 6, 7],
    ]);
    let ts = get_int_table_schema(WIDTH2);
    TupleIterator::new(tuples, ts)
}

fn eq_join_expected() -> TupleIterator {
    let tuples = create_tuple_list(vec![
        vec![1, 2, 1, 2, 3],
        vec![3, 4, 3, 4, 5],
        vec![5, 6, 5, 6, 7],
    ]);
    let ts = get_int_table_schema(WIDTH1 + WIDTH2);
    TupleIterator::new(tuples, ts)
}

fn gt_join_expected() -> TupleIterator {
    let tuples = create_tuple_list(vec![
        vec![3, 4, 1, 2, 3], // 1, 2 < 3
        vec![3, 4, 2, 3, 4],
        vec![5, 6, 1, 2, 3], // 1, 2, 3, 4 < 5
        vec![5, 6, 2, 3, 4],
        vec![5, 6, 3, 4, 5],
        vec![5, 6, 4, 5, 6],
        vec![7, 8, 1, 2, 3], // 1, 2, 3, 4, 5 < 7
        vec![7, 8, 2, 3, 4],
        vec![7, 8, 3, 4, 5],
        vec![7, 8, 4, 5, 6],
        vec![7, 8, 5, 6, 7],
    ]);
    let ts = get_int_table_schema(WIDTH1 + WIDTH2);
    TupleIterator::new(tuples, ts)
}

fn lt_join_expected() -> TupleIterator {
    let tuples = create_tuple_list(vec![
        vec![1, 2, 2, 3, 4], // 1 < 2, 3, 4, 5
        vec![1, 2, 3, 4, 5],
        vec![1, 2, 4, 5, 6],
        vec![1, 2, 5, 6, 7],
        vec![3, 4, 4, 5, 6], // 3 < 4, 5
        vec![3, 4, 5, 6, 7],
    ]);
    let ts = get_int_table_schema(WIDTH1 + WIDTH2);
    TupleIterator::new(tuples, ts)
}

fn lt_or_eq_join_expected() -> TupleIterator {
    let tuples = create_tuple_list(vec![
        vec![1, 2, 1, 2, 3], // 1 <= 1, 2, 3, 4, 5
        vec![1, 2, 2, 3, 4],
        vec![1, 2, 3, 4, 5],
        vec![1, 2, 4, 5, 6],
        vec![1, 2, 5, 6, 7],
        vec![3, 4, 3, 4, 5], // 3 <= 3, 4, 5
        vec![3, 4, 4, 5, 6],
        vec![3, 4, 5, 6, 7],
        vec![5, 6, 5, 6, 7], // 5 <= 5
    ]);
    let ts = get_int_table_schema(WIDTH1 + WIDTH2);
    TupleIterator::new(tuples, ts)
}

fn match_all_tuples<A: OpIterator, B: OpIterator>(
    mut op: A,
    mut expected: B,
) -> Result<(), CrustyError> {
    loop {
        let a = op.next()?;
        let e = expected.next()?;
        assert_eq!(e, a);
        if a.is_none() {
            break;
        }
    }
    Ok(())
}

#[test]
fn join_get_schema() {
    let op = Join::new(SimplePredicateOp::Equals, 0, 0, scan1(), scan2());
    let expected = get_int_table_schema(WIDTH1 + WIDTH2);
    let actual = op.get_schema();
    assert_eq!(&expected, actual);
}

#[test]
fn join_rewind() -> Result<(), CrustyError> {
    let mut op = Join::new(SimplePredicateOp::Equals, 0, 0, scan1(), scan2());
    op.open()?;
    while op.next()?.is_some() {}
    op.rewind()?;

    let mut eq_join = eq_join_expected();
    eq_join.open()?;

    let acutal = op.next()?;
    let expected = eq_join.next()?;
    assert_eq!(acutal, expected);
    Ok(())
}

#[test]
fn join_eq_join() -> Result<(), CrustyError> {
    let mut op = Join::new(SimplePredicateOp::Equals, 0, 0, scan1(), scan2());
    let mut eq_join = eq_join_expected();
    op.open()?;
    eq_join.open()?;
    match_all_tuples(op, eq_join)
}

#[test]
fn gt_join() -> Result<(), CrustyError> {
    let mut op = Join::new(SimplePredicateOp::GreaterThan, 0, 0, scan1(), scan2());
    let mut gt_join = gt_join_expected();
    op.open()?;
    gt_join.open()?;
    match_all_tuples(op, gt_join)
}

#[test]
fn lt_join() -> Result<(), CrustyError> {
    let mut op = Join::new(SimplePredicateOp::LessThan, 0, 0, scan1(), scan2());
    let mut lt_join = lt_join_expected();
    op.open()?;
    lt_join.open()?;
    match_all_tuples(op, lt_join)
}

#[test]
fn lt_or_eq_join() -> Result<(), CrustyError> {
    let mut op = Join::new(SimplePredicateOp::LessThanOrEq, 0, 0, scan1(), scan2());
    let mut lt_or_eq_join = lt_or_eq_join_expected();
    op.open()?;
    lt_or_eq_join.open()?;
    match_all_tuples(op, lt_or_eq_join)
}

#[test]
fn hash_join_get_schema() {
    let op = HashEqJoin::new(SimplePredicateOp::Equals, 0, 0, scan1(), scan2());
    let expected = get_int_table_schema(WIDTH1 + WIDTH2);
    let actual = op.get_schema();
    assert_eq!(&expected, actual);
}

#[test]
fn hash_join_rewind() -> Result<(), CrustyError> {
    let mut op = HashEqJoin::new(SimplePredicateOp::Equals, 0, 0, scan1(), scan2());
    op.open()?;
    while op.next()?.is_some() {}
    op.rewind()?;

    let mut eq_join = eq_join_expected();
    eq_join.open()?;

    let acutal = op.next()?;
    let expected = eq_join.next()?;
    assert_eq!(acutal, expected);
    Ok(())
}

#[test]
fn hash_join_eq_join() -> Result<(), CrustyError> {
    let mut op = HashEqJoin::new(SimplePredicateOp::Equals, 0, 0, scan1(), scan2());
    let mut eq_join = eq_join_expected();
    op.open()?;
    eq_join.open()?;
    match_all_tuples(op, eq_join)
}

#[test]
fn hash_join_multi_match() -> Result<(), CrustyError> {
    // Every right tuple with an equal key joins, in right-stream order.
    let left = TupleIterator::new(
        create_tuple_list(vec![vec![1, 10], vec![2, 20]]),
        get_int_table_schema(2),
    );
    let right = TupleIterator::new(
        create_tuple_list(vec![vec![1, 100], vec![2, 200], vec![1, 101]]),
        get_int_table_schema(2),
    );
    let mut op = HashEqJoin::new(SimplePredicateOp::Equals, 0, 0, left, right);
    op.open()?;
    let expected = create_tuple_list(vec![
        vec![1, 10, 1, 100],
        vec![1, 10, 1, 101],
        vec![2, 20, 2, 200],
    ]);
    for e in expected {
        assert_eq!(Some(e), op.next()?);
    }
    assert_eq!(None, op.next()?);
    Ok(())
}

#[test]
fn join_string_fields() -> Result<(), CrustyError> {
    // Predicates compare strings lexicographically.
    let left = TupleIterator::new(
        vec![Tuple::new(vec![Field::StringField("b".to_string())])],
        TableSchema::new(vec![Attribute::new(String::new(), DataType::String)]),
    );
    let right = TupleIterator::new(
        vec![
            Tuple::new(vec![Field::StringField("a".to_string())]),
            Tuple::new(vec![Field::StringField("c".to_string())]),
        ],
        TableSchema::new(vec![Attribute::new(String::new(), DataType::String)]),
    );
    let mut op = Join::new(SimplePredicateOp::LessThan, 0, 0, left, right);
    op.open()?;
    let t = op.next()?.unwrap();
    assert_eq!(Field::StringField("b".to_string()), *t.get_field(0).unwrap());
    assert_eq!(Field::StringField("c".to_string()), *t.get_field(1).unwrap());
    assert_eq!(None, op.next()?);
    Ok(())
}
