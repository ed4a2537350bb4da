//! Core of the Mastermind code-breaking game.
//!
//! A secret code is a sequence of exactly four digits, each drawn from
//! `'1'..='6'`. The library validates untrusted text into codes, draws
//! random codes, and scores a guess against a secret: the hint counts the
//! digits that are correct in value and position, and the digits that occur
//! in both codes but in the wrong position, matched as a multiset so that
//! duplicates are never credited twice.

pub mod code;
pub mod codemaker;
