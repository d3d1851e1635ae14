pub mod alphabet;
pub mod bits;
pub mod decoder;
pub mod encoder;
pub mod errors;
pub mod validator;
