//! Session bootstrap for a remote storage shell: where the shell is in the
//! remote filesystem, how long secrets are kept in a size-limited keyring,
//! and which way of signing in wins.
pub mod auth;
pub mod path;
pub mod shell;
pub mod store;
