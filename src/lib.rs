//! Entity identity and a hierarchical transform store.
//!
//! `entity` hands out generation-tagged handles and recycles freed slots;
//! `scene` keeps a forest of transform nodes in dense parallel arrays and
//! works out, for every mutation, which rows need their world pose
//! recomputed and which rows are reported as changed; `backend` names the
//! graphics APIs a platform can drive.
pub mod backend;
pub mod entity;
pub mod scene;
