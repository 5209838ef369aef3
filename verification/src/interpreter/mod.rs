pub mod vm;
pub mod interp;
pub mod interp_1;
pub mod interp_2;
pub mod interp_3;
pub mod interp_4;
pub mod interp_5;
pub mod interp_6;
