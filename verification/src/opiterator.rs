//! The streaming operator protocol: every operator exposes open, next,
//! close, rewind and its output schema, and models as a fixed output stream
//! of tuples with a cursor. Calling next, close or rewind on an operator
//! that is not open is a protocol error and is excluded by contract.

use vstd::prelude::*;
use crate::ids::CrustyError;
use crate::tuple::{Tuple, FieldV, TableSchema, DataType};

verus! {

/// A node in a query tree: a stream of tuples with open/next/close/rewind.
pub trait OpIterator: Sized {
    /// Operator invariant.
    spec fn wf(&self) -> bool;

    /// Whether the operator is open.
    spec fn is_open(&self) -> bool;

    /// How many tuples have been yielded since the last open or rewind.
    spec fn pos(&self) -> int;

    /// The operator's whole output stream.
    spec fn stream(&self) -> Seq<Seq<FieldV>>;

    /// The operator's output schema.
    spec fn schema_of(&self) -> Seq<(Seq<char>, DataType)>;

    /// Open the operator; on an already-open operator this is a no-op.
    fn open(&mut self) -> (r: Result<(), CrustyError>)
        requires
            old(self).wf(),
        ensures
            final(self).wf(),
            r is Ok,
            final(self).is_open(),
            final(self).stream() == old(self).stream(),
            final(self).schema_of() == old(self).schema_of(),
            final(self).pos() == if old(self).is_open() { old(self).pos() } else { 0int },
    ;

    /// Yield the next output tuple, or nothing once the stream is
    /// exhausted.
    fn next(&mut self) -> (r: Result<Option<Tuple>, CrustyError>)
        requires
            old(self).wf(),
            old(self).is_open(),
        ensures
            final(self).wf(),
            final(self).is_open(),
            final(self).stream() == old(self).stream(),
            final(self).schema_of() == old(self).schema_of(),
            match r {
                Ok(Some(t)) => {
                    &&& old(self).pos() < old(self).stream().len()
                    &&& t@ == old(self).stream()[old(self).pos()]
                    &&& final(self).pos() == old(self).pos() + 1
                },
                Ok(None) => {
                    &&& old(self).pos() == old(self).stream().len()
                    &&& final(self).pos() == old(self).pos()
                },
                Err(_) => false,
            },
    ;

    /// Close the operator, releasing child resources.
    fn close(&mut self) -> (r: Result<(), CrustyError>)
        requires
            old(self).wf(),
            old(self).is_open(),
        ensures
            final(self).wf(),
            r is Ok,
            !final(self).is_open(),
            final(self).stream() == old(self).stream(),
            final(self).schema_of() == old(self).schema_of(),
            final(self).pos() == 0,
    ;

    /// Reset iteration to the first tuple, without closing children.
    fn rewind(&mut self) -> (r: Result<(), CrustyError>)
        requires
            old(self).wf(),
            old(self).is_open(),
        ensures
            final(self).wf(),
            r is Ok,
            final(self).is_open(),
            final(self).stream() == old(self).stream(),
            final(self).schema_of() == old(self).schema_of(),
            final(self).pos() == 0,
    ;

    /// The operator's output schema.
    fn get_schema(&self) -> (r: &TableSchema)
        requires
            self.wf(),
        ensures
            r@ == self.schema_of(),
    ;
}

/// A materialized operator: it owns a vector of tuples and a schema and
/// yields the tuples in order.
pub struct TupleIterator {
    pub tuples: Vec<Tuple>,
    pub schema: TableSchema,
    pub open: bool,
    pub index: usize,
}

impl TupleIterator {
    /// An operator over the given tuples and schema.
    pub fn new(tuples: Vec<Tuple>, schema: TableSchema) -> (it: TupleIterator)
        ensures
            it.wf(),
            !it.is_open(),
            it.stream() == tuples@.map_values(|t: Tuple| t@),
            it.schema_of() == schema@,
    {
        TupleIterator { tuples, schema, open: false, index: 0 }
    }
}

impl OpIterator for TupleIterator {
    open spec fn wf(&self) -> bool {
        &&& self.index <= self.tuples@.len()
        &&& (!self.open ==> self.index == 0)
    }

    open spec fn is_open(&self) -> bool {
        self.open
    }

    open spec fn pos(&self) -> int {
        self.index as int
    }

    open spec fn stream(&self) -> Seq<Seq<FieldV>> {
        self.tuples@.map_values(|t: Tuple| t@)
    }

    open spec fn schema_of(&self) -> Seq<(Seq<char>, DataType)> {
        self.schema@
    }

    fn open(&mut self) -> (r: Result<(), CrustyError>) {
        self.open = true;
        Ok(())
    }

    fn next(&mut self) -> (r: Result<Option<Tuple>, CrustyError>) {
        if self.index < self.tuples.len() {
            let t = self.tuples[self.index].duplicate();
            self.index = self.index + 1;
            Ok(Some(t))
        } else {
            Ok(None)
        }
    }

    fn close(&mut self) -> (r: Result<(), CrustyError>) {
        self.open = false;
        self.index = 0;
        Ok(())
    }

    fn rewind(&mut self) -> (r: Result<(), CrustyError>) {
        self.index = 0;
        Ok(())
    }

    fn get_schema(&self) -> (r: &TableSchema) {
        &self.schema
    }
}

} // verus!
