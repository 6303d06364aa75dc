//! Verified core of the Cove image viewer: file browsing and natural
//! ordering, the decoded-image cache, image format parsers and decoder
//! dispatch, animation frames, EXIF lines and file sizes, auto-crop bounds
//! detection, view orientation, key handling and the updater's decisions.

pub mod text;
pub mod natord;
pub mod paths;
pub mod sorting;
pub mod browser;
pub mod updater;
pub mod pixels;
pub mod sgi;
pub mod xbm;
pub mod xpm;
pub mod decoder;
pub mod filesize;
pub mod metadata;
pub mod autocrop;
pub mod cache;
pub mod viewer;
pub mod keys;
pub mod animation;
pub mod pcx_image;
