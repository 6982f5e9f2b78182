mod probe;
pub mod codec;
pub mod dispatch;
pub mod task;
pub mod text;

pub use codec::load_from_text;
pub use codec::parse_tasks;
pub use codec::serialize_tasks;
pub use dispatch::Outcome;
pub use dispatch::run;
pub use task::Todo;
pub use task::add_task;
pub use task::complete_task;
pub use task::pairs;
pub use task::render_lines;
pub use text::parse_index;
