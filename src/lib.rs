pub mod captures;
pub mod lemmas;
pub mod matcher;
pub mod span;

pub use captures::Captures;
pub use matcher::Matcher;
pub use span::Match;
