//! Writing the graph out in the text formats of diagram tools.
pub mod diagram;
