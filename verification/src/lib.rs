//! The flash map of a firmware image: finding it in the image, decoding
//! it, and laying out its areas as a tree.
//!
//! - [`fmap`] holds the flash map and decodes it; [`search`] says where in
//!   an image it is looked for, [`wire`] how its fields lie in the image,
//!   and [`encoding`] which bytes give which flash map.
//! - [`tree`] builds the region tree; [`layout`] says what the tree of
//!   given regions is, and [`tree_laws`] what always holds of it.
//! - [`dump_fmap`] writes a flash map down as text, [`text`] the numbers in
//!   it.
//! - [`transfer`] and [`common`] decide what the commands around the
//!   library may copy and how their arguments read.
pub mod common;
pub mod dump_fmap;
pub mod encoding;
pub mod flags;
pub mod fmap;
pub mod layout;
pub mod region;
pub mod search;
pub mod text;
pub mod transfer;
pub mod tree;
pub mod tree_laws;
pub mod wire;
