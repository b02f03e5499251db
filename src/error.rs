use vstd::prelude::*;

verus! {

/// The failure reported by `csv` when it cannot read a record.
#[verifier::external_type_specification]
#[verifier::external_body]
pub struct ExCsvError(csv::Error);

/// Why a roster could not be built or a matching could not be produced.
#[derive(Debug)]
pub enum BuddyError {
    /// The input could not be read as comma-separated records.
    CsvError(csv::Error),
    /// A record is not of the form `id,name`.
    CsvFormatError,
    /// An identifier is not a non-negative integer.
    IdNotANumber,
    /// Two records share an identifier.
    IdsNotUnique,
    /// The search handed back something that is not an ordering of the roster.
    SearchInvariantViolation,
}

} // verus!
