//! Bitmaps turned into vector drawings: the rules of the window, of what is
//! drawn and edited in it, and of the files it writes.
pub mod auto;
pub mod cards;
pub mod chrome;
pub mod colour;
pub mod desktop;
pub mod dialog;
pub mod dither;
pub mod dragout;
pub mod dxf;
pub mod edits;
pub mod field;
pub mod format;
pub mod found;
pub mod geometry;
pub mod grid;
pub mod hand;
pub mod history;
pub mod lattice;
pub mod left;
pub mod licence;
pub mod look;
pub mod markup;
pub mod measure;
pub mod nearest;
pub mod offer;
pub mod path_data;
pub mod pattern;
pub mod patterns;
pub mod picture;
pub mod platform;
pub mod prefs;
pub mod preview;
pub mod process;
pub mod reach;
pub mod readings;
pub mod recolor;
pub mod replaced;
pub mod settings;
pub mod shown;
pub mod steps;
pub mod text;
pub mod tiling;
pub mod values;
pub mod window;
pub mod written;
