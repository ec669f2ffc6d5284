// A word-search library: a rectangular grid of characters is validated and
// then scanned, cell by cell and in all eight directions, for each word of a
// list, reporting where a word starts and ends or that it is absent.
pub mod alpha;
pub mod grid;
pub mod search;
pub mod validate;
pub mod report;
