pub mod coords;
pub mod fixed;
pub mod histogram;
pub mod luminance;
pub mod mandel;
pub mod screen;
