//! Loading, manipulating and saving translation catalogs in the GNU gettext
//! `.po` text format, and compiling them to the binary `.mo` format.
//!
//! A _Message_ maps a string (or a singular/plural pair) of the original
//! language to its translation (or to one translation per plural form).
//! A _Catalog_ holds the messages of one `.po` or `.mo` file together with
//! its _Metadata_, the header block that declares the catalog's language,
//! encoding, plural rules and so on. Only UTF-8 is supported.

pub mod catalog;
pub mod message;
pub mod metadata;
pub mod mo_file;
pub mod plural;
pub mod po_file;
pub mod text;
