pub mod state;
pub mod plan;
pub mod image;
pub mod x64_jit;
pub mod aarch64_jit;
pub mod jit;
pub mod engine;
pub mod labels;
