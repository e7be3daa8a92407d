//! Codecs for the files that Pioneer DJ equipment keeps on removable media:
//! the paged `export.pdb` database with its playlist tree, the
//! `ANLZXXXX.DAT` analysis files and the `*SETTING.DAT` preference files.
//!
//! Every reader takes the bytes of a file and says exactly on which bytes it
//! fails and with which error; every writer gives the bytes back that the
//! reader took. Reading and writing files is left to the caller.

pub mod anlz;
pub mod bytes;
pub mod pdb;
pub mod playlist;
pub mod setting;
pub mod util;
