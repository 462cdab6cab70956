pub mod cache;
pub mod cache_laws;
pub mod chat_laws;
pub mod headers;
pub mod headers_laws;
pub mod history_laws;
pub mod json;
pub mod log;
pub mod messages;
pub mod messages_laws;
pub mod proxy;
pub mod proxy_laws;
pub mod route;
pub mod route_laws;
pub mod status;
pub mod text;
pub mod wire;
