pub mod text;
pub mod fields;
pub mod http_client;
pub mod response;
pub mod php_executor;
pub mod dynamic_threading;
pub mod config;
