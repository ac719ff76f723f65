//! Link-state tracking for files detached from an immutable package store.
//!
//! A managed link is a symlink whose target lies in the read-only store.
//! Unlinking replaces it with a symlink to a private, writable copy held
//! in a per-link state directory under a scratch root, together with a
//! manifest recording the original target; restoring re-points the link
//! at the recorded target and discards the state directory.
//!
//! The engines are verified against an explicit model of the filesystem
//! (`fs_model`): every transition, its rollback on failure, and the sweep
//! of orphaned state directories are specified and proved over that model.

pub mod bytes;
pub mod fs_model;
pub mod manifest;
pub mod restore;
pub mod selection;
pub mod tmp;
pub mod unlink;
