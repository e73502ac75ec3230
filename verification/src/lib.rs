//! Verifiable information dispersal after Alhaddad, Duan, Varia and Zhang,
//! over the scalar field of BLS12-381 with SHA-256 as the hash.
//!
//! A payload is packed into field elements, cut into polynomials, evaluated
//! on a Reed-Solomon code word and handed out as shares. Each share carries a
//! Merkle path and KZG openings of one aggregate polynomial, so that a node can
//! check its share against a short commitment, and any `recovery_threshold`
//! shares give the payload back.
//!
//! The scheme stands in `advz`, `dispersal`, `verification` and `recovery`;
//! what it is built from in `field`, `domain`, `curve`, `hash`,
//! `bytes_to_field`, `merkle_tree`, `pcs` and `reed_solomon`; the wire form
//! of its data in `wire`. What holds of the operations taken together is
//! proved in `laws`, `binding` and `round_trip`, on the algebra of
//! `polynomial`, `uniqueness` and `roots`.

pub mod advz;
pub mod binding;
pub mod bytes_to_field;
pub mod curve;
pub mod dispersal;
pub mod domain;
pub mod error;
pub mod field;
pub mod hash;
pub mod laws;
pub mod merkle_tree;
pub mod pcs;
pub mod polynomial;
pub mod recovery;
pub mod reed_solomon;
pub mod roots;
pub mod round_trip;
pub mod uniqueness;
pub mod verification;
pub mod wire;
