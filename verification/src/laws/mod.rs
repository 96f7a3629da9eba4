//! What holds of the library as a whole, proved of what its functions promise.

pub mod addresses;
pub mod evidence;
pub mod order;
pub mod precedence;
pub mod queries;
pub mod requests;
pub mod rows;
pub mod runs;
pub mod sources;
pub mod tokens;
pub mod values;
pub mod versions;
