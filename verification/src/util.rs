pub mod chaininghash;
pub mod checksumpair;
pub mod configuration;
pub mod copy;
pub mod generator;
pub mod rsum;
