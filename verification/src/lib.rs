//! An embedded, schemaless document collection with secondary indexes.
//!
//! A [`collection::Collection`] keeps documents under auto-assigned,
//! increasing primary identifiers, maintains every secondary index together
//! with the primary map, answers filtered and ordered queries, and keeps
//! track of what a backing store has to write to stay in step with it.
//! Every operation carries a contract over the collection's mathematical
//! view ([`view::CollectionView`]), and every contract is proved.
//!
//! - [`types`]: identifiers, index descriptions, orderings, errors.
//! - [`key`]: the scalar values of fields and their total order.
//! - [`document`]: documents as records of fields; changes to them.
//! - [`primary`]: the ordered primary map and its cursor.
//! - [`index`]: a secondary index.
//! - [`filter`]: filters and selections.
//! - [`order`]: the numeric order of identifiers.
//! - [`collection`]: the collection itself, with its index management
//!   ([`collection::indexes`]), its queries ([`collection::query`]) and
//!   its operations on many documents ([`collection::bulk`]).
//! - [`view`]: its mathematical view; [`laws`]: what holds across
//!   operations.
//! - [`naming`]: the name of the primary map in the persisted layout.

pub mod collection;
pub mod document;
pub mod filter;
pub mod index;
pub mod key;
pub mod laws;
pub mod naming;
pub mod order;
pub mod primary;
pub mod types;
pub mod view;
