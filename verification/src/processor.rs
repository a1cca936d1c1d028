pub mod move_file_processor;
pub mod rename_file_processor;

pub use crate::event_handler::Processor;
pub use crate::event_handler::ProcessorFailure;
pub use crate::event_handler::RenameOp;
