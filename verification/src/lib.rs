//! A terminal minesweeper engine: a rectangular mine field with
//! adjacency-count bookkeeping, flood-fill reveal, flagging, and a
//! decoder for raw terminal pointer reports.

pub mod board;
pub mod decoder;
pub mod tile;
