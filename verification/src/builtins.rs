pub mod transforms;
pub mod util;
