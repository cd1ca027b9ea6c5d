use vstd::prelude::*;

verus! {

/// The validation failures that the store reports to its caller.
///
/// `EmptyField` is returned when a required text field is empty,
/// `InvalidQuantity` when a quantity does not parse to a positive integer,
/// `InvalidPrice` when a unit price does not parse to a positive amount,
/// and `OutOfRange` when a delete position does not denote a record.
#[derive(Clone, Copy, Debug, PartialEq, Eq, Structural)]
pub enum ValidationError {
    EmptyField,
    InvalidQuantity,
    InvalidPrice,
    OutOfRange,
}

} // verus!
