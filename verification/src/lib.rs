//! The strings by which a Laravel project names its parts, and what they name: configuration keys,
//! environment variables, routes, translations, views, and Eloquent relationships.
pub mod completion;
pub mod completion_laws;
pub mod config_keys;
pub mod config_laws;
pub mod config_references;
pub mod declaration_laws;
pub mod eloquent;
pub mod env_laws;
pub mod env_vars;
pub mod lexer;
pub mod lexer_laws;
pub mod lines;
pub mod location;
pub mod location_laws;
pub mod naming;
pub mod order;
pub mod php;
pub mod php_calls;
pub mod php_laws;
pub mod reference_laws;
pub mod route_names;
pub mod search;
pub mod text;
pub mod trans_keys;
pub mod trans_laws;
pub mod urls;
pub mod usage_laws;
pub mod view_laws;
pub mod view_names;
