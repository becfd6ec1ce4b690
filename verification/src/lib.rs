pub mod text;
pub mod http;
pub mod curl_law;
pub mod num;
pub mod json;
pub mod highlight;
pub mod settings;
pub mod theme;
pub mod browser;
pub mod session;
