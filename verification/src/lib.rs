//! Resumable decoding of UTF-8 byte streams into 32-bit code points, one code
//! point per call, with the progress of a split sequence kept in a four-byte
//! conversion state.

pub mod decoder;
pub mod expectations;
pub mod laws;
pub mod state;

pub use decoder::{mbrtoc32, mbrtoc32_impl, mbsinit, mbstate_is_initial};
pub use expectations::{ErrorStatus, MultiByteError, MultiByteExpectations};
pub use state::MbState;
