pub mod bytes;
pub mod errors;
pub mod keycodec;
pub mod writeref;
pub mod tidbtypes;
pub mod datum;
pub mod tabledataiterator;
pub mod csvwriter;
pub mod storagenode;
pub mod buf;
pub mod export;
