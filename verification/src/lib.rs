//! A timed, interactive quiz session core.
//!
//! The library owns the logic of a quiz session: the ordered question set,
//! answer matching under normalization, and the signal protocol through
//! which a question runner and a timer race to end the session. The
//! surrounding program supplies the collaborators (a data source, an input
//! provider, an output sink) and the threads themselves.

pub mod matcher;
pub mod quiz;
pub mod session;

pub use quiz::QAPair;
pub use quiz::Quiz;
pub use session::Msg;
pub use session::SessionResult;
pub use session::InputEvent;
pub use session::SessionState;
