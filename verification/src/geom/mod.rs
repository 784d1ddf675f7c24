pub mod alignment;
pub mod boundary;
pub mod bridge;
pub mod cleanup;
pub mod guided_fill;
pub mod hole_detect;
pub mod hole_fill;
pub mod orient;
pub mod repair;
pub mod retopo;
pub mod segment;
pub mod shells;
pub mod solid;
pub mod topology;
