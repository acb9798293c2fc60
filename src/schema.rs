//! The schema rule: columns are read with permissive types, so that a column
//! that mixes integral and fractional values past the sampled rows still
//! parses.
use vstd::prelude::*;

verus! {

/// A field's type as the schema rule reads it.
#[derive(Clone, Copy, Debug, PartialEq, Eq, Structural)]
pub enum FieldType {
    Integer,
    Float64,
    Other,
}

/// An integer type widens to `Float64`; any other type is kept.
pub open spec fn widened(t: FieldType) -> FieldType {
    if t is Integer {
        FieldType::Float64
    } else {
        t
    }
}

/// Every integer field becomes `Float64`; every other field is kept, in order.
pub fn permissive_types(types: &Vec<FieldType>) -> (r: Vec<FieldType>)
    ensures
        r@.len() == types@.len(),
        forall|i: int| 0 <= i < types@.len() ==> r@[i] == widened(types@[i]),
{
    let mut r: Vec<FieldType> = Vec::new();
    let mut i: usize = 0;
    while i < types.len()
        invariant
            i <= types@.len(),
            r@.len() == i,
            forall|j: int| 0 <= j < i ==> r@[j] == widened(types@[j]),
        decreases types@.len() - i,
    {
        let t = match types[i] {
            FieldType::Integer => FieldType::Float64,
            FieldType::Float64 => FieldType::Float64,
            FieldType::Other => FieldType::Other,
        };
        r.push(t);
        i += 1;
    }
    r
}

} // verus!
