pub mod ds;
pub mod math;
pub mod usc;
