pub mod arena;
pub mod bytes;
pub mod conn;
pub mod error;
pub mod freetype;
pub mod fs;
pub mod protocol;
pub mod syscall;
pub mod text;
pub mod time;
pub mod uring;
pub mod wire;
pub mod xkb;
