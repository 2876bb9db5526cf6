//! A reader for the column chunks of a columnar file format: the pages of one
//! column are decoded into definition levels, repetition levels and values.
pub mod basic;
pub mod bit_util;
pub mod data_type;
pub mod memory;
pub mod rle;
pub mod levels;
pub mod decoding;
pub mod delta;
pub mod page;
pub mod reader;
