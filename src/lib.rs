pub mod availability;
pub mod json;
pub mod ranking;
pub mod search;
pub mod text;
