//! Verified building blocks of a small freestanding operating system: the
//! first-fit heap allocator that turns firmware memory regions into heap
//! blocks, the page-table entry layout of x86-64, and drawing into a frame
//! of pixels.
//!
//! The allocator keeps its headers in a chain of plain values and hands out
//! addresses; it never touches the memory behind them. Contracts are stated
//! over [`header::Block`] and sequences of blocks; [`chain`] says what each
//! operation does to such a sequence, and [`laws`] proves what follows.

pub mod allocator;
pub mod chain;
pub mod graphics;
pub mod header;
pub mod laws;
pub mod pow2;
pub mod uefi;
pub mod x86;
