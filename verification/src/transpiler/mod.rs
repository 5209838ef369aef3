pub mod bf2c;
pub mod bf2js;
