//! Imports vendor component packages (symbols, footprints, 3D models) into a KiCad
//! project: a lossless S-expression parser and canonical printer, the symbol and
//! symbol-library model built on them, the footprint association rules, and the
//! project's library tables.
pub mod text;
pub mod node;
pub mod kicad_sym;
pub mod paths;
pub mod importer;
pub mod kicad_table;
pub mod cli;
pub mod round_trip;
pub mod table_law;
