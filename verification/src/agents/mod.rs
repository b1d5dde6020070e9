//! Agent integrations: hook scripts and hook registrations.
pub mod openclaw;
