//! A small incremental event logger: sessions ("logs") are append-only text
//! files named by their creation timestamp; appends close the current open
//! entry and open a new one; a replay turns absolute timestamps into a
//! relative, optionally shifted, `H:MM:SS message` timeline.


pub mod num;
pub mod shift;
pub mod store;
pub mod text;
pub mod timeline;

pub use num::parse_i64;
pub use shift::Stamp;
pub use store::{
    append_content, append_record, find_active, initial_content, log_file_name, log_stamp,
    now_timestamp, start_log,
};
pub use timeline::{format_duration, lines_of, replay_lines};
