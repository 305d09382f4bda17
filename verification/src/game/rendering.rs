pub mod appearance;
pub mod utils;
