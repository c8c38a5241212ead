//! Definition records in XML, their inheritance, and the record with all
//! that it inherits.
//!
//! A corpus is a set of XML documents. Inside the wrapper element `Defs` of a
//! document stand the records, elements whose tag ends in `Def`. A record
//! may name another record as its parent, from which it inherits every field
//! that it does not set itself.
//!
//! The way from a document to the text of a resolved record:
//!
//! - [`event`] reads a document into events, with `quick_xml` as its reader;
//! - [`extract`] makes records of the events, each with its tree of
//!   [`node`]s;
//! - [`index`] holds the records of a scan by name;
//! - [`inheritance`] walks from a record up to its last ancestor, and shows
//!   the record with all that it inherits;
//! - [`merge`] folds the nodes of the records of a chain into one tree;
//! - [`render`] writes the tree as indented XML.
//!
//! Beside it stand [`xml_parser`], which collects the values that a document
//! gives for one tag, and the states of the pages of the tools: [`browser`],
//! [`finder`], [`inheritance`] and [`settings`]. [`scan`] decides which of
//! several scans a page hears, [`layout`] lays the text of a record out for
//! reading, and [`text`] compares, trims and escapes strings.
//!
//! Every function has a contract over the mathematical values of its
//! arguments, and the laws that relate the functions are stated as proof
//! functions beside them.

pub mod browser;
pub mod event;
pub mod extract;
pub mod finder;
pub mod index;
pub mod inheritance;
pub mod layout;
pub mod merge;
pub mod node;
pub mod render;
pub mod scan;
pub mod settings;
pub mod text;
pub mod xml_parser;
