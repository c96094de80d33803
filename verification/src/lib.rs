pub mod decimal;
pub mod model;
pub mod split;
pub mod wire;
