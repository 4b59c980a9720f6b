pub mod evolution;
pub mod field;
pub mod sensor;

pub use evolution::FieldEvolution;
pub use field::GravityField;
pub use sensor::GravitySensor;
