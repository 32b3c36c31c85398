//! A verified core for a flat-file todo manager: the task entity, the
//! record codec, the blocking resolver, and the query filters. Loading,
//! saving and rendering live with the surrounding application; the core
//! works on plain records and proves what each operation returns.

pub mod date;
pub mod status;
pub mod strutil;
pub mod task;
pub mod tasklist;
