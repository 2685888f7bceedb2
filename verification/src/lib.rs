//! A city-layout library: named, sized leaf entities are grouped into a
//! hierarchy by their path-like names, and every node of the hierarchy is
//! assigned a non-overlapping rectangular footprint inside its parent by a
//! deterministic shelf-packing heuristic.

pub mod classfile;
pub mod codecity;
pub mod freeminer;
pub mod melo;
pub mod midi;
pub mod supercollider;
