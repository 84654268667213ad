pub mod bytes;
pub mod central_directory;
pub mod errors;
pub mod inflate;
pub mod ocf;
pub mod text;
pub mod xml;
pub mod opf;
pub mod nav;
pub mod book;
