pub mod text;
pub mod key;
pub mod model;
pub mod export;
pub mod languages;
pub mod import;
pub mod round_trip;
pub mod paths;
pub mod json;
