//! Verified core of the manga translation workflow: language tables, text
//! layout rules, prompt building and parsing, pipeline configuration,
//! project bookkeeping and the model registry.

pub mod text;
pub mod sorted_map;
pub mod graph;
pub mod hardware;
pub mod registry;
pub mod ocr;
pub mod translate;
pub mod render;
pub mod project;
pub mod versions;
pub mod inpaint;
pub mod download;
pub mod host;
pub mod import;
pub mod components;
pub mod layout;
pub mod raster;
