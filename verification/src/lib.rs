//! Verified core of the person2vec authorship toolkit.

pub mod calendar;
pub mod loocv;
pub mod model;
pub mod randinit;
pub mod text;
pub mod lex;
pub mod identity;
pub mod labels;
pub mod copy;
pub mod display;
pub mod positions;
pub mod folds;
pub mod attributes;
pub mod codefilter;
pub mod numparse;
pub mod pattern;
pub mod scrub;
pub mod commits;
pub mod scan;
pub mod windows;
pub mod dedup;
pub mod gutenberg;
pub mod cli;
pub mod ranking;
pub mod views;
pub mod discover;
pub mod corpus;
pub mod experiments;
pub mod audit;
