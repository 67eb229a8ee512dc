pub mod can;
pub mod config;
pub mod compare;
pub mod generator;
pub mod inspect;
pub mod jsonc_writer;
pub mod loader;
pub mod maps;
pub mod models;
pub mod order;
pub mod reporter;
pub mod sot_generator;
pub mod resolver;
pub mod template_dag;
pub mod text;
pub mod validator;
