//! A reliable, ordered-delivery message reassembly layer.
//!
//! Messages may arrive duplicated, out of order, or with gaps; a [`channels::Channel`]
//! releases them to the consumer only once delivery order can be guaranteed
//! relative to a cyclic sequence space. The building blocks are the cyclic
//! sequence-number algebra ([`cyclic::MajorId`]), per-group tracking of minors
//! that have not yet arrived ([`missing::MissingSet`]), and the reordering
//! buffer and state machine of [`channels::Channel`].

pub mod channels;
pub mod clock_times;
pub mod cyclic;
pub mod missing;
