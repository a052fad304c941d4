//! Minara: the rules of a web panel for Minecraft Bedrock servers.
//!
//! The panel looks after instances of the server, their settings and files, and
//! their backups. This crate holds what it decides: it reads and writes no file and
//! starts no process. A request is handled in steps: a handler is a function of the
//! request and of the replies to what it has asked for so far, and either asks for
//! one more effect or gives its answer. Contracts say which step comes next for
//! every request and every history of replies.
//!
//! - [`text`], [`numbers`], [`order`]: texts, numbers and sorting.
//! - [`outside`]: what is taken for granted of other crates.
//! - [`names`], [`paths`], [`properties`]: what may be named, and the settings file.
//! - [`effects`]: what handlers ask for, hear and answer.
//! - [`identity`], [`backups`], [`trees`]: identities, backups and copies.
//! - [`processes`], [`registry`]: the processes of a server, and the panel's lists.
//! - [`backup_api`], [`file_api`], [`instance_api`], [`server_api`]: the requests.
//! - [`system_stats`], [`startup`]: the machine, and the start of the panel.
pub mod text;
pub mod numbers;
pub mod order;
pub mod outside;
pub mod names;
pub mod paths;
pub mod properties;
pub mod effects;
pub mod identity;
pub mod backups;
pub mod trees;
pub mod processes;
pub mod registry;
pub mod backup_api;
pub mod file_api;
pub mod instance_api;
pub mod server_api;
pub mod system_stats;
pub mod startup;
