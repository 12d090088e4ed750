//! A microkernel's work domain: tasks, the room in which they run and wait, and the mail
//! between them.
pub mod bits;
pub mod envcall;
pub mod lifecycle;
pub mod loader;
pub mod mail;
pub mod room;
pub mod scheduler;
pub mod table;
pub mod task;
pub mod team;
pub mod tie;
pub mod unit;
