//! Puzzle solutions around a verified grid shortest-path engine.
pub mod hill_climb;
pub mod words;
pub mod rock_paper_scissors;
pub mod rucksack;
pub mod sensor;
pub mod numbers;
pub mod cleanup;
pub mod trees;
pub mod marker;
pub mod crt;
pub mod rope;
pub mod monkeys;
pub mod calories;
pub mod supply;
pub mod monkey_notes;
pub mod filesystem;
pub mod cave;
pub mod packets;
