//! Verified core of `envrbw`: the KEY=VALUE note encoding used to keep
//! secrets inside a password-manager note entry, together with the
//! namespace resolution (note body vs. legacy custom fields) and the
//! pure decision logic behind each user-facing command.

pub mod text;
pub mod store;
pub mod rbw;
pub mod ops;
