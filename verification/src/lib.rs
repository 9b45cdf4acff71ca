pub mod clash;
pub mod dns;
pub mod error;
pub mod install;
pub mod networksetup;
pub mod route;
pub mod text;
pub mod version;
