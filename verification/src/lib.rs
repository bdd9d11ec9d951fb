//! Physical memory management for a unikernel: boot-time discovery of usable
//! RAM and page-granular, first-fit allocation of physical frames.
//!
//! - [`paging`]: the base page size and address alignment.
//! - [`address`]: physical addresses.
//! - [`freelist`]: the pool of free regions, with its mathematical model.
//! - [`boot`]: detection of the usable memory under the two boot protocols.
//! - [`physicalmem`]: the manager that the rest of the kernel calls.
//! - [`coalescing`]: what holds of the number of free regions.
//! - [`accounting`]: what holds of free memory and memory in use together.

pub mod accounting;
pub mod address;
pub mod boot;
pub mod coalescing;
pub mod freelist;
pub mod paging;
pub mod physicalmem;
