pub mod cmd;
pub mod size;
pub mod util;
