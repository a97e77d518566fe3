//! dstd: a lightweight standard-library replacement whose data structures and
//! decision logic carry machine-checked contracts.

pub mod ahash;
pub mod key;
pub mod random_state;
mod table;
pub mod map;
pub mod map_iter;
pub mod os_str;
pub mod path;
pub mod fs;
pub mod io;
mod sealed;
pub mod init;
pub mod net;
pub mod sync;
pub mod panic;
pub mod env;
pub mod rand;
