pub mod text;
pub mod aes128;
pub mod encryption;
pub mod encrypt_trails;
pub mod json;
pub mod user_system;
pub mod validation_json;
pub mod http_parser;
pub mod radix_tree;
pub mod http_server;
pub mod bloom_filter;
pub mod overwatch;
pub mod logger;
pub mod node;
pub mod error;
pub mod key_value_store;
pub mod skip_list;
pub mod btree;
pub mod collection;
pub mod bytes;
pub mod page;
pub mod database_api;
