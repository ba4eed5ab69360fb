pub mod cache;
pub mod compare;
pub mod events;
pub mod export;
pub mod ignore;
pub mod keys;
pub mod level;
pub mod model;
pub mod resolve;
pub mod scan;
pub mod security;
pub mod sort;
pub mod text;
