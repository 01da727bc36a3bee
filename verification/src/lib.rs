//! Receipt markup library.
pub mod ast;
pub mod directive;
pub mod escpos_cmd;
pub mod inline;
pub mod lexical;
pub mod numbers;
pub mod parser;
pub mod strs;
pub mod image_data;
pub mod raster;
pub mod dither;
pub mod text_util;
pub mod columns;
pub mod groups;
pub mod text_render;
pub mod resources;
pub mod escpos;
pub mod encode;
pub mod numfmt;
pub mod html;
pub mod collect;
pub mod canvas;
pub mod layout;
pub mod fonts;
pub mod api;
