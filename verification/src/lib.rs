//! # Bathtub DB

pub mod base;
pub mod text;
pub mod strmap;
pub mod namemap;
pub mod util;
pub mod dbase32;
pub mod protocol;
pub mod chaos;
pub mod leaf_io;
pub mod dvcs;
pub mod unchained;
pub mod store;
pub mod helpers;
pub mod inception;
pub mod blockchain;
pub mod importer;
pub mod ignore;
pub mod tree;
