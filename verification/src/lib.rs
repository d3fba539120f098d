pub mod bo_trap;
pub mod event;
pub mod geometry;
pub mod intersect;
pub mod operators;
pub mod progress;
pub mod queue;
pub mod scan_line;
pub mod trapezoid;
