//! Client-side logic of the AUR interface: input validation, URL encoding and a scripted
//! stand-in for the service.
pub mod comments;
pub mod mock;
pub mod official;
pub mod page;
pub mod records;
pub mod requests;
pub mod traits;
pub mod utils;
pub mod validation;

pub use mock::MockAurApi;
pub use traits::AurApi;
pub use utils::percent_encode;
pub use validation::{validate_package_name, validate_package_names, validate_search_query, ValidationConfig};
