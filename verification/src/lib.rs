pub mod algebra;
pub mod keccak;
pub mod fri;
pub mod ip;
pub mod merkle;
pub mod univariate;
