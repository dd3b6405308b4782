//! Collections whose contents change while the program runs.
pub mod batch_atomic;
pub mod boundedness;
pub mod keyed_singleton;
pub mod keyed_stream;
pub mod optional;
pub mod plans;
pub mod quoted;
pub mod singleton;
pub mod stream;

pub use boundedness::{Bounded, Boundedness, Unbounded};
pub use keyed_singleton::KeyedSingleton;
pub use keyed_stream::KeyedStream;
pub use optional::Optional;
pub use quoted::Quoted;
pub use singleton::Singleton;
pub use stream::Stream;
