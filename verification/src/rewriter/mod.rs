pub mod handlers_dispatcher;
pub mod error;
pub mod builder;
pub mod charset;
pub mod settings;
