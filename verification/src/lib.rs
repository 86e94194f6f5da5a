//! Local-first environment variable management: key validation, `.env`
//! parsing, secret locators, payload framing, scope resolution and the
//! metadata model behind the command-line tool.

pub mod cli;
pub mod clock;
pub mod crypto;
pub mod domain;
pub mod dotenv;
pub mod error;
pub mod keychain;
pub mod lite;
pub mod metadata;
pub mod order;
pub mod paths;
pub mod service;
pub mod share;
pub mod store;
pub mod text;
