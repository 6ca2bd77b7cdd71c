//! The requests of the Wayland interfaces the launcher uses, one function each:
//! every one builds its message and puts it on its way.
pub mod compositor;
pub mod data_device;
pub mod display;
pub mod layer_shell;
pub mod seat;
pub mod shm;
