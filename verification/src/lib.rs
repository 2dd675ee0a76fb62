//! Round-based DAG consensus: the primary's message rules and the commit rules.
//!
//! A primary exchanges headers, votes and certificates with the other members of its committee
//! (`messages`, `aggregators`, `primary`), proposes headers of its own (`proposer`), and commits the
//! certificates of the DAG in an order that it derives from the DAG alone (`dag`, `traversal`,
//! `ordering`, `consensus`). What holds of every run stands in `voting`, `handover`, `proposals`,
//! `reachability` and `safety`. What the single operations do, told by the messages, the rounds and the
//! stake of the authorities alone, stands in `stakes`, `contents`, `admission`, `quorums`, `proposing`,
//! `paths`, `decisions`, `leaders`, `walks` and `drawing`.
pub mod keys;
pub mod collections;
pub mod crypto;
pub mod committee;
pub mod error;
pub mod messages;
pub mod aggregators;
pub mod primary;
pub mod voting;
pub mod admission;
pub mod contents;
pub mod handover;
pub mod proposer;
pub mod proposals;
pub mod proposing;
pub mod dag;
pub mod traversal;
pub mod reachability;
pub mod ordering;
pub mod consensus;
pub mod safety;
pub mod stakes;
pub mod quorums;
pub mod paths;
pub mod decisions;
pub mod leaders;
pub mod walks;
pub mod text;
pub mod render;
pub mod drawing;
