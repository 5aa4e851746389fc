//! Epoch-based memory reclamation.
//!
//! Many threads read shared, pointer-based structures without locks; an
//! object that has been unlinked from such a structure may still be read by
//! an in-flight reader, so its memory cannot be released at once.  This
//! library defers the release: a reader *pins* itself at the current global
//! epoch before touching shared cells, retired objects are stamped with the
//! epoch at which they were handed in, and a retired object is only disposed
//! of once the global epoch has moved a full generation past its stamp --
//! by which time no pinned reader can still observe it.
//!
//! The protocol state (the global epoch, the registry of participating
//! threads, and the queue of retired bags) lives in [`Global`]; each thread
//! keeps its own [`Harness`].  Every operation carries an exact contract
//! over the mathematical model in [`model`], and the safety arguments --
//! no false epoch advance, no premature disposal, registry liveness --
//! are proved in [`laws`] over arbitrary sequences of protocol steps.

pub mod atomic;
pub mod epoch;
pub mod garbage;
pub mod laws;
pub mod model;
pub mod tagged;
pub mod thread;

pub use atomic::{Atomic, Ptr};
pub use epoch::{EPOCH_STEP, COLLECT_DISTANCE, PINS_BETWEEN_COLLECT};
pub use garbage::{Bag, GarbageQueue, SealedBag, BAG_CAPACITY};
pub use tagged::{TaggedAtomic, TaggedPtr};
pub use thread::{
    collect, defer_free, pin, register, thread_exit, try_advance, unpin, Global, Harness, Pin,
};
