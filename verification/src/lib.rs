//! Verified core of a clipboard history manager.
pub mod text;
pub mod paths;
pub mod history;
pub mod mime;
pub mod preview;
pub mod ignore;
pub mod store;
pub mod retry;
