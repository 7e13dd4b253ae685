//! A minimal document-rendering core: style cascade, box-model layout,
//! and display-list building over integer pixel geometry.
pub mod css;
pub mod dom;
pub mod html;
pub mod laws;
pub mod layout;
pub mod painter;
pub mod strutil;
pub mod style;
