//! A safety layer between an ownership-checked host language and a foreign
//! dynamic runtime whose objects are reference counted and whose heap is
//! guarded by a single global exclusivity lock.
//!
//! The [`runtime::Python`] value stands for possession of that lock: every
//! operation that reads or mutates the foreign heap takes it by reference,
//! so exclusive access is enforced structurally by the borrow checker.
//! [`object::PyObjectPtr`] is the owned, reference-counted handle to one
//! foreign object; [`boolobject::PyBool`], [`dict::PyDict`],
//! [`list::PyList`] and [`list::PyTuple`] narrow a handle to one object
//! kind after a runtime type check; the traits in [`conversion`] move
//! values across the boundary in both directions; and [`err`] translates
//! foreign failure state into host-native error values.

pub mod boolobject;
pub mod conversion;
pub mod dict;
pub mod err;
pub mod list;
pub mod object;
pub mod runtime;
