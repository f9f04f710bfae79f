pub mod codec;
pub mod counting;
pub mod errors;
pub mod handlers;
pub mod models;
pub mod numfmt;
pub mod scan;
pub mod tally;
pub mod text;
pub mod utils;
pub mod variants;
