pub mod breadth_first;
pub mod depth_first;
pub mod single;
