//! Verified core of a software manager: the `.lnk` shortcut parser, the
//! installed-software merge and ordering rules, the install-directory file tree,
//! the shortcut matching, and the decisions of the browsing window.
pub mod app;
pub mod files;
pub mod lnk;
pub mod registry;
pub mod shortcuts;
pub mod text;
