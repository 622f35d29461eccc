pub mod laws;
pub mod model;
pub mod season;
pub mod worldview;
