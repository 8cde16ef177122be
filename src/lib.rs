//! A note-synchronisation engine: an ordered item store with upsert-by-uuid,
//! opaque encrypted sync tokens, per-account locks and the sync session that
//! ties them together.

pub mod decimal;
pub mod sync_tokens;
pub mod item;
pub mod lock;
pub mod api;
