//! Finding a frame in a stream of bytes that need not start on a byte
//! boundary.
pub mod search_arr;
pub mod search_task;
pub mod frame_capture;
