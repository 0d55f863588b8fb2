//! System call numbers, passed by the caller in RAX.
use vstd::prelude::*;

verus! {

/// `exit(status)`, which never returns.
pub const EXIT: u64 = 0;

/// `yield_now()`: give up the rest of this time slice.
pub const YIELD: u64 = 1;

/// `getpid() -> pid`
pub const GETPID: u64 = 2;

/// `spawn(path_ptr, path_len) -> pid`
pub const SPAWN: u64 = 3;

/// `wait(pid) -> status`
pub const WAIT: u64 = 4;

/// `sleep_ticks(n)`: block for at least `n` timer ticks.
pub const SLEEP_TICKS: u64 = 5;

/// `write(fd, ptr, len) -> written`
pub const WRITE: u64 = 16;

/// `read(fd, ptr, len) -> read`
pub const READ: u64 = 17;

/// `open(path_ptr, path_len, flags) -> fd`
pub const OPEN: u64 = 18;

/// `close(fd)`
pub const CLOSE: u64 = 19;

/// `seek(fd, offset, whence) -> new_offset`
pub const SEEK: u64 = 20;

/// `readdir(fd, buf_ptr, buf_len) -> bytes_written`: NUL-separated names.
pub const READDIR: u64 = 21;

/// `stat(path_ptr, path_len, out_ptr) -> 0`
pub const STAT: u64 = 22;

/// `write_cstr(ptr)`: write a NUL-terminated string to the console.
pub const WRITE_CSTR: u64 = 23;

/// `map(len, flags) -> addr`: anonymous memory, page-granular.
pub const MAP: u64 = 32;

/// `unmap(addr, len)`
pub const UNMAP: u64 = 33;

/// `port_create(name_ptr, name_len) -> handle`
pub const PORT_CREATE: u64 = 48;

/// `port_connect(name_ptr, name_len) -> handle`
pub const PORT_CONNECT: u64 = 49;

/// `port_send(handle, ptr, len) -> sent`
pub const PORT_SEND: u64 = 50;

/// `port_recv(handle, ptr, len) -> received`
pub const PORT_RECV: u64 = 51;

/// `port_close(handle)`
pub const PORT_CLOSE: u64 = 52;

/// `realm_info(out_ptr) -> 0`
pub const REALM_INFO: u64 = 64;

/// `ticks() -> tick_count`
pub const TICKS: u64 = 65;

/// `uptime_ms() -> milliseconds`
pub const UPTIME_MS: u64 = 66;

/// `surface_create(width, height) -> surface_id`
pub const SURFACE_CREATE: u64 = 80;

/// `surface_commit(surface_id, pixels_ptr, len)`
pub const SURFACE_COMMIT: u64 = 81;

/// `surface_info(surface_id, out_ptr) -> 0`
pub const SURFACE_INFO: u64 = 82;

/// `input_poll(out_ptr) -> count`
pub const INPUT_POLL: u64 = 83;

} // verus!
