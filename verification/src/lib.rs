//! Verified core of an x86_64 kernel's memory subsystem and early bring-up:
//! page-table entries and the four-level walk, the physical-page bitmap
//! allocator and its chain over memory regions, the buddy and first-fit heap
//! allocators, the ACPI table walk, descriptor tables and interrupt
//! controller programming. Hardware and raw memory stay outside: every
//! function here works on plain values and states exactly what it computes.

pub mod acpi;
pub mod allocators;
pub mod arch;
pub mod bits;
pub mod bytes;
pub mod console;
pub mod layout;
pub mod memory;
pub mod mp;
pub mod paging;
pub mod psf2;
pub mod screen;
