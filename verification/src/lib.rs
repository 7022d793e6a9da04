//! Clustering on disjoint sets.
//!
//! Two clusterings share one union-find structure. [`cluster`] unites the
//! vertices of a weighted graph along its lightest edges until a given
//! number of groups is left, and reports the spacing of the groups.
//! [`hammingcluster`] unites groups of fixed-width binary codes that differ
//! in one or two bits, where no two of their vertices are as far apart as a
//! threshold.
//!
//! Underneath, [`forest`] holds the parent links and ranks over the slots of
//! an array, [`directory`] finds the slot of a key, and [`partition`] puts
//! the two together. [`bitmask`] lists the masks that lead from a code to
//! its neighbours, [`popcount`] counts differing bits, [`sorting`] sorts
//! edges by weight, and [`records`] and [`cmd_line`] read what a program
//! is given. [`hamming_model`] says what a clustering of codes is,
//! [`hamming_proofs`] proves what its steps keep, and [`laws`] states what
//! holds of all of it.

pub mod bitmask;
pub mod cluster;
pub mod cmd_line;
pub mod directory;
pub mod forest;
pub mod hamming_model;
pub mod hamming_proofs;
pub mod hammingcluster;
pub mod laws;
pub mod partition;
pub mod popcount;
pub mod records;
pub mod sorting;
