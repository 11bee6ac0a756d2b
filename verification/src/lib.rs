//! Search in the commit messages of `main`.
//!
//! The library decides and computes; it touches no file, no terminal and no
//! repository. [`search`] leads a search from the query to what is shown, [`sync`]
//! says how the index is brought up to date, [`revision`] which commits are walked
//! and [`index`] what is stored of them. [`hits`], [`rank`] and [`history`] choose
//! and order what was found. [`browser`] is the state of the terminal interface,
//! [`screen`] and [`layout`] what it draws.

pub mod browser;
pub mod error;
pub mod history;
pub mod hits;
pub mod index;
pub mod layout;
pub mod query;
pub mod rank;
pub mod revision;
pub mod score;
pub mod screen;
pub mod search;
pub mod sync;
pub mod text;
