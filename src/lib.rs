//! A small markup parser: it scans text holding `<name attr="value">`
//! elements and free text into a forest of nodes, renders that forest back to
//! indented markup, and selects nodes by tag name or by class.
pub mod laws;
pub mod node;
pub mod scan;
pub mod text;
pub mod xml;
