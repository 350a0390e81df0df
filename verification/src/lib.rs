pub mod color;
pub mod palette;
pub mod framedef;
pub mod frame_bank;
pub mod frame_laws;
