/// The transaction entity.
pub mod transaction;
/// The closed enumeration of transaction statuses.
pub mod transaction_status;
/// The closed enumeration of transaction types.
pub mod transaction_type;
