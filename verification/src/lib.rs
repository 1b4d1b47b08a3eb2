//! Playing-card utilities: a five-card poker hand evaluator with canonical
//! ordering, a small flashcard deck, and an ordering of employees by
//! seniority.

pub mod arrange;
pub mod card;
pub mod category;
pub mod employee;
pub mod error;
pub mod flashcards;
pub mod hand;
pub mod histogram;
pub mod laws;
pub mod loading;
pub mod ranks;
pub mod review;
