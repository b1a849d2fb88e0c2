//! Typed parameter records of C3D motion-capture files: the numeric layouts of
//! the three processor families, single parameters and their binary records,
//! the store of groups that a parameter section decodes to, and the typed
//! view of the `SEG` group.

pub mod error;
pub mod grids;
pub mod names;
pub mod parameter;
pub mod parameters;
pub mod processor;
pub mod record;
pub mod round_trip;
pub mod seg;

pub use error::{C3dParseError, C3dWriteError, ConversionError};
pub use parameter::{Parameter, ParameterData};
pub use parameters::Parameters;
pub use processor::Processor;
pub use seg::Seg;
