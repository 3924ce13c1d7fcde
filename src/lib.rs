pub mod order;
pub mod rotation;
pub mod strand;
pub mod canonicalize;
pub mod monomerize;
pub mod orfs;

pub use crate::canonicalize::canonicalize;
pub use crate::monomerize::Monomerizer;
pub use crate::rotation::{lmsr, lmsr_index};
