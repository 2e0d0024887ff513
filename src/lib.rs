//! Packs an HTML document into a self-contained one by embedding the images
//! that its `img` elements reference as `data:` URIs.

pub mod dom;
pub mod resource;
pub mod packer;
