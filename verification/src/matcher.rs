pub mod state;
pub mod vf2;
