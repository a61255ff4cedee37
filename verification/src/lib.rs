//! Verified logic of a password generator and disposable-mail client.
pub mod commands;
pub mod mailtm;
pub mod password;
pub mod random;
pub mod text;
pub mod wordlist;
