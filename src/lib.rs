//! Planning and bookkeeping for batches of quantized model files: output
//! layout and file names, grouping of produced files, and the text of the
//! model card that describes them.

pub mod text;
pub mod layout;
pub mod grouping;
pub mod card;
pub mod batch;
