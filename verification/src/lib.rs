pub mod classification;
pub mod detection;
pub mod imaging;
pub mod migrations;
pub mod paths;
pub mod project;
pub mod recents;
pub mod segmentation;
pub mod text;
pub mod workspace;
