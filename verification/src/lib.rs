pub mod interpolation;
pub mod lagrange;
pub mod polynomial;
pub mod secret_service;
pub mod shamir;
pub mod wallet;
