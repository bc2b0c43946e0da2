use heapstore::aggregate::{Aggregate, AggregateField, Aggregator};
use heapstore::ids::CrustyError;
use heapstore::opiterator::{OpIterator, TupleIterator};
use heapstore::tuple::{AggOp, Attribute, DataType, Field, TableSchema, Tuple};

/// Creates a vector of tuples to create the following table:
///
/// 1 1 3 E
/// 2 1 3 G
/// 3 1 4 A
/// 4 2 4 G
/// 5 2 5 G
/// 6 2 5 G
fn tuples() -> Vec<Tuple> {
    let tuples = vec![
        Tuple::new(vec![
            Field::IntField(1),
            Field::IntField(1),
            Field::IntField(3),
            Field::StringField("E".to_string()),
        ]),
        Tuple::new(vec![
            Field::IntField(2),
            Field::IntField(1),
            Field::IntField(3),
            Field::StringField("G".to_string()),
        ]),
        Tuple::new(vec![
            Field::IntField(3),
            Field::IntField(1),
            Field::IntField(4),
            Field::StringField("A".to_string()),
        ]),
        Tuple::new(vec![
            Field::IntField(4),
            Field::IntField(2),
            Field::IntField(4),
            Field::StringField("G".to_string()),
        ]),
        Tuple::new(vec![
            Field::IntField(5),
            Field::IntField(2),
            Field::IntField(5),
            Field::StringField("G".to_string()),
        ]),
        Tuple::new(vec![
            Field::IntField(6),
            Field::IntField(2),
            Field::IntField(5),
            Field::StringField("G".to_string()),
        ]),
    ];
    tuples
}

/// Set up testing aggregations without grouping.
fn test_no_group(op: AggOp, field: usize, expected: i32) -> Result<(), CrustyError> {
    let schema = TableSchema::new(vec![Attribute::new("agg".to_string(), DataType::Int)]);
    let mut agg = Aggregator::new(vec![AggregateField { field, op }], Vec::new(), &schema);
    let ti = tuples();
    for t in &ti {
        agg.merge_tuple_into_group(t);
    }

    let mut ai = agg.iterator();
    ai.open()?;
    assert_eq!(
        Field::IntField(expected),
        *ai.next()?.unwrap().get_field(0).unwrap()
    );
    assert_eq!(None, ai.next()?);
    Ok(())
}

#[test]
fn test_merge_tuples_count() -> Result<(), CrustyError> {
    test_no_group(AggOp::Count, 0, 6)
}

#[test]
fn test_merge_tuples_sum() -> Result<(), CrustyError> {
    test_no_group(AggOp::Sum, 1, 9)
}

#[test]
fn test_merge_tuples_max() -> Result<(), CrustyError> {
    test_no_group(AggOp::Max, 0, 6)
}

#[test]
fn test_merge_tuples_min() -> Result<(), CrustyError> {
    test_no_group(AggOp::Min, 0, 1)
}

#[test]
fn test_merge_tuples_avg() -> Result<(), CrustyError> {
    test_no_group(AggOp::Avg, 0, 3)
}

#[test]
fn test_merge_multiple_ops() -> Result<(), CrustyError> {
    let schema = TableSchema::new(vec![
        Attribute::new("agg1".to_string(), DataType::Int),
        Attribute::new("agg2".to_string(), DataType::Int),
    ]);

    let mut agg = Aggregator::new(
        vec![
            AggregateField {
                field: 0,
                op: AggOp::Max,
            },
            AggregateField {
                field: 3,
                op: AggOp::Count,
            },
        ],
        Vec::new(),
        &schema,
    );

    let ti = tuples();
    for t in &ti {
        agg.merge_tuple_into_group(t);
    }

    let expected = vec![Field::IntField(6), Field::IntField(6)];
    let mut ai = agg.iterator();
    ai.open()?;
    assert_eq!(Tuple::new(expected), ai.next()?.unwrap());
    Ok(())
}

/// Returns the count of the number of tuples in an OpIterator.
fn num_tuples<T: OpIterator>(iter: &mut T) -> Result<u32, CrustyError> {
    let mut counter = 0;
    while iter.next()?.is_some() {
        counter += 1;
    }
    Ok(counter)
}

#[test]
fn test_merge_tuples_one_group() -> Result<(), CrustyError> {
    let schema = TableSchema::new(vec![
        Attribute::new("group".to_string(), DataType::Int),
        Attribute::new("agg".to_string(), DataType::Int),
    ]);
    let mut agg = Aggregator::new(
        vec![AggregateField {
            field: 0,
            op: AggOp::Sum,
        }],
        vec![2],
        &schema,
    );

    let ti = tuples();
    for t in &ti {
        agg.merge_tuple_into_group(t);
    }

    let mut ai = agg.iterator();
    ai.open()?;
    let rows = num_tuples(&mut ai)?;
    assert_eq!(3, rows);
    Ok(())
}

#[test]
fn test_merge_tuples_multiple_groups() -> Result<(), CrustyError> {
    let schema = TableSchema::new(vec![
        Attribute::new("group1".to_string(), DataType::Int),
        Attribute::new("group2".to_string(), DataType::Int),
        Attribute::new("agg".to_string(), DataType::Int),
    ]);

    let mut agg = Aggregator::new(
        vec![AggregateField {
            field: 0,
            op: AggOp::Sum,
        }],
        vec![1, 2],
        &schema,
    );

    let ti = tuples();
    for t in &ti {
        agg.merge_tuple_into_group(t);
    }

    let mut ai = agg.iterator();
    ai.open()?;
    let rows = num_tuples(&mut ai)?;
    assert_eq!(4, rows);
    Ok(())
}

fn tuple_iterator() -> TupleIterator {
    let names = vec!["1", "2", "3", "4"];
    let dtypes = vec![
        DataType::Int,
        DataType::Int,
        DataType::Int,
        DataType::String,
    ];
    let schema = TableSchema::from_vecs(names, dtypes);
    let tuples = tuples();
    TupleIterator::new(tuples, schema)
}

#[test]
fn test_open() -> Result<(), CrustyError> {
    let ti = tuple_iterator();
    let mut ai = Aggregate::new(
        Vec::new(),
        Vec::new(),
        vec![0],
        vec!["count"],
        vec![AggOp::Count],
        ti,
    );
    assert!(!ai.open);
    ai.open()?;
    assert!(ai.open);
    Ok(())
}

fn test_single_agg_no_group(
    op: AggOp,
    op_name: &str,
    col: usize,
    expected: Field,
) -> Result<(), CrustyError> {
    let ti = tuple_iterator();
    let mut ai = Aggregate::new(
        Vec::new(),
        Vec::new(),
        vec![col],
        vec![op_name],
        vec![op],
        ti,
    );
    ai.open()?;
    assert_eq!(expected, *ai.next()?.unwrap().get_field(0).unwrap());
    assert_eq!(None, ai.next()?);
    Ok(())
}

#[test]
fn test_single_agg() -> Result<(), CrustyError> {
    test_single_agg_no_group(AggOp::Count, "count", 0, Field::IntField(6))?;
    test_single_agg_no_group(AggOp::Sum, "sum", 0, Field::IntField(21))?;
    test_single_agg_no_group(AggOp::Max, "max", 0, Field::IntField(6))?;
    test_single_agg_no_group(AggOp::Min, "min", 0, Field::IntField(1))?;
    test_single_agg_no_group(AggOp::Avg, "avg", 0, Field::IntField(3))?;
    test_single_agg_no_group(AggOp::Count, "count", 3, Field::IntField(6))?;
    test_single_agg_no_group(AggOp::Max, "max", 3, Field::StringField("G".to_string()))?;
    test_single_agg_no_group(AggOp::Min, "min", 3, Field::StringField("A".to_string()))
}

#[test]
fn test_multiple_aggs() -> Result<(), CrustyError> {
    let ti = tuple_iterator();
    let mut ai = Aggregate::new(
        Vec::new(),
        Vec::new(),
        vec![3, 0, 0],
        vec!["count", "avg", "max"],
        vec![AggOp::Count, AggOp::Avg, AggOp::Max],
        ti,
    );
    ai.open()?;
    let first_row: Vec<Field> = ai.next()?.unwrap().field_vals().to_vec();
    assert_eq!(
        vec![Field::IntField(6), Field::IntField(3), Field::IntField(6)],
        first_row
    );
    ai.close()
}

/// Consumes an OpIterator and returns a corresponding 2D Vec of fields
fn iter_to_vec<T: OpIterator>(iter: &mut T) -> Result<Vec<Vec<Field>>, CrustyError> {
    let mut rows = Vec::new();
    iter.open()?;
    while let Some(t) = iter.next()? {
        rows.push(t.field_vals().to_vec());
    }
    iter.close()?;
    Ok(rows)
}

#[test]
fn test_multiple_aggs_groups() -> Result<(), CrustyError> {
    let ti = tuple_iterator();
    let mut ai = Aggregate::new(
        vec![1, 2],
        vec!["group1", "group2"],
        vec![3, 0],
        vec!["count", "max"],
        vec![AggOp::Count, AggOp::Max],
        ti,
    );
    let mut result = iter_to_vec(&mut ai)?;
    result.sort();
    let expected = vec![
        vec![
            Field::IntField(1),
            Field::IntField(3),
            Field::IntField(2),
            Field::IntField(2),
        ],
        vec![
            Field::IntField(1),
            Field::IntField(4),
            Field::IntField(1),
            Field::IntField(3),
        ],
        vec![
            Field::IntField(2),
            Field::IntField(4),
            Field::IntField(1),
            Field::IntField(4),
        ],
        vec![
            Field::IntField(2),
            Field::IntField(5),
            Field::IntField(2),
            Field::IntField(6),
        ],
    ];
    assert_eq!(expected, result);
    ai.open()?;
    let num_rows = num_tuples(&mut ai)?;
    ai.close()?;
    assert_eq!(4, num_rows);
    Ok(())
}

#[test]
fn test_close() -> Result<(), CrustyError> {
    let ti = tuple_iterator();
    let mut ai = Aggregate::new(
        Vec::new(),
        Vec::new(),
        vec![0],
        vec!["count"],
        vec![AggOp::Count],
        ti,
    );
    ai.open()?;
    assert!(ai.open);
    ai.close()?;
    assert!(!ai.open);
    Ok(())
}

#[test]
fn test_rewind() -> Result<(), CrustyError> {
    let ti = tuple_iterator();
    let mut ai = Aggregate::new(
        vec![2],
        vec!["group"],
        vec![3],
        vec!["count"],
        vec![AggOp::Count],
        ti,
    );
    ai.open()?;
    let count_before = num_tuples(&mut ai);
    ai.rewind()?;
    let count_after = num_tuples(&mut ai);
    ai.close()?;
    assert_eq!(count_before, count_after);
    Ok(())
}

#[test]
fn test_get_schema() {
    let mut agg_names = vec!["count", "max"];
    let mut groupby_names = vec!["group1", "group2"];
    let ti = tuple_iterator();
    let ai = Aggregate::new(
        vec![1, 2],
        groupby_names.clone(),
        vec![3, 0],
        agg_names.clone(),
        vec![AggOp::Count, AggOp::Max],
        ti,
    );
    groupby_names.append(&mut agg_names);
    let expected_names = groupby_names;
    let schema = ai.get_schema();
    for (i, attr) in schema.attributes().iter().enumerate() {
        assert_eq!(expected_names[i], attr.name());
        assert_eq!(DataType::Int, *attr.dtype());
    }
}

#[test]
fn agg_min_ties_and_strings() -> Result<(), CrustyError> {
    // Min and Max over a string column; mixed groups by string key.
    let ts = vec![
        Tuple::new(vec![Field::StringField("b".to_string()), Field::IntField(2)]),
        Tuple::new(vec![Field::StringField("a".to_string()), Field::IntField(5)]),
        Tuple::new(vec![Field::StringField("b".to_string()), Field::IntField(1)]),
    ];
    let schema = TableSchema::from_vecs(vec!["k", "v"], vec![DataType::String, DataType::Int]);
    let ti = TupleIterator::new(ts, schema);
    let mut ai = Aggregate::new(
        vec![0],
        vec!["k"],
        vec![1, 1],
        vec!["min", "sum"],
        vec![AggOp::Min, AggOp::Sum],
        ti,
    );
    ai.open()?;
    let r1 = ai.next()?.unwrap();
    assert_eq!(Field::StringField("b".to_string()), *r1.get_field(0).unwrap());
    assert_eq!(Field::IntField(1), *r1.get_field(1).unwrap());
    assert_eq!(Field::IntField(3), *r1.get_field(2).unwrap());
    let r2 = ai.next()?.unwrap();
    assert_eq!(Field::StringField("a".to_string()), *r2.get_field(0).unwrap());
    assert_eq!(Field::IntField(5), *r2.get_field(1).unwrap());
    assert_eq!(None, ai.next()?);
    Ok(())
}
