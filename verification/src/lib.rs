mod events;
mod grammar;
mod parser;
mod sink;

pub use events::Event;
pub use events::InputIndex;
pub use events::LogIndex;
pub use grammar::Factor;
pub use grammar::Factor1;
pub use grammar::Factor2;
pub use grammar::Primitive;
pub use grammar::Term;
pub use grammar::Term1;
pub use grammar::Term2;
pub use parser::ParseLet;
pub use parser::Parser;
pub use sink::Sink;
