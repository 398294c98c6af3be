use vstd::prelude::*;

verus! {

/// Turns the raw result of a C library call into an `Option`: `None` when it
/// is the call's failure sentinel, the value itself otherwise.
pub trait LibcResult<T> {
    fn to_option(&self) -> (r: Option<T>);
}

impl LibcResult<i32> for i32 {
    /// A negative `c_int` signals failure.
    fn to_option(&self) -> (r: Option<i32>)
        ensures
            r == (if *self < 0 {
                None
            } else {
                Some(*self)
            }),
    {
        if *self < 0 {
            None
        } else {
            Some(*self)
        }
    }
}

impl LibcResult<i64> for i64 {
    /// A negative 64-bit result signals failure.
    fn to_option(&self) -> (r: Option<i64>)
        ensures
            r == (if *self < 0 {
                None
            } else {
                Some(*self)
            }),
    {
        if *self < 0 {
            None
        } else {
            Some(*self)
        }
    }
}

impl LibcResult<isize> for isize {
    /// A byte count of zero or less (end of input, or an error) gives `None`.
    fn to_option(&self) -> (r: Option<isize>)
        ensures
            r == (if *self <= 0 {
                None
            } else {
                Some(*self)
            }),
    {
        if *self <= 0 {
            None
        } else {
            Some(*self)
        }
    }
}

/// Relies on libc::SIG_ERR, the handler value that `signal` returns on
/// failure: all bits set.
#[verifier::external_body]
fn sig_err() -> (r: usize)
    ensures
        r == usize::MAX,
{
    libc::SIG_ERR
}

impl LibcResult<usize> for usize {
    /// A signal handler value equal to `SIG_ERR` signals failure.
    fn to_option(&self) -> (r: Option<usize>)
        ensures
            r == (if *self == usize::MAX {
                None
            } else {
                Some(*self)
            }),
    {
        if *self == sig_err() {
            None
        } else {
            Some(*self)
        }
    }
}

/// Which processes `waitid` waits for.
#[allow(non_camel_case_types)]
#[derive(Clone, Copy, Debug, PartialEq, Eq, Structural)]
pub enum idtype_t {
    P_ALL,
    P_PID,
    P_PGID,
}

/// The major number of a device number.
pub fn major(x: u64) -> (r: u64)
    ensures
        r == (x >> 24u64) & 0xffu64,
{
    (x >> 24u64) & 0xffu64
}

/// The minor number of a device number.
pub fn minor(x: u64) -> (r: u64)
    ensures
        r == x & 0xffffffu64,
{
    x & 0xffffffu64
}

/// How a child process ended or changed state, decoded from the status word
/// that `wait` and `waitpid` report.
#[derive(Clone, Copy, Debug, PartialEq, Eq, Structural)]
pub enum ProcessStatus {
    /// Normal termination with this exit status.
    Exited { code: i32 },
    /// Terminated by a signal, possibly leaving a core file.
    Signaled { signal: i32, core_dumped: bool },
    /// Stopped by a signal.
    Stopped { signal: i32 },
    /// None of the above (for instance, continued).
    Other,
}

/// The low seven bits hold no signal: the child exited normally.
pub open spec fn exited_spec(status: i32) -> bool {
    status & 0x7f == 0
}

/// Bits 8 to 15: the exit status, or the stopping signal.
pub open spec fn high_byte_spec(status: i32) -> i32 {
    (status >> 8) & 0xff
}

/// The low seven bits name a signal other than the "stopped" marker.
pub open spec fn signaled_spec(status: i32) -> bool {
    1 <= status & 0x7f <= 126
}

/// The terminating signal.
pub open spec fn term_sig_spec(status: i32) -> i32 {
    status & 0x7f
}

/// Bit 7: a core file was written.
pub open spec fn core_dump_spec(status: i32) -> bool {
    status & 0x80 != 0
}

/// The low byte is the "stopped" marker 0x7f.
pub open spec fn stopped_spec(status: i32) -> bool {
    status & 0xff == 0x7f
}

/// The decoded form of `status`, tested in the order exited, signalled,
/// stopped.
pub open spec fn process_status_spec(status: i32) -> ProcessStatus {
    if exited_spec(status) {
        ProcessStatus::Exited { code: high_byte_spec(status) }
    } else if signaled_spec(status) {
        ProcessStatus::Signaled {
            signal: term_sig_spec(status),
            core_dumped: core_dump_spec(status),
        }
    } else if stopped_spec(status) {
        ProcessStatus::Stopped { signal: high_byte_spec(status) }
    } else {
        ProcessStatus::Other
    }
}

/// Relies on libc::WIFEXITED: true when the low seven bits are zero.
#[verifier::external_body]
fn wifexited(status: i32) -> (r: bool)
    ensures
        r == exited_spec(status),
{
    libc::WIFEXITED(status)
}

/// Relies on libc::WEXITSTATUS: bits 8 to 15 of the status.
#[verifier::external_body]
fn wexitstatus(status: i32) -> (r: i32)
    ensures
        r == high_byte_spec(status),
{
    libc::WEXITSTATUS(status)
}

/// Relies on libc::WIFSIGNALED: true when the low seven bits are neither 0
/// nor 0x7f.
#[verifier::external_body]
fn wifsignaled(status: i32) -> (r: bool)
    ensures
        r == signaled_spec(status),
{
    libc::WIFSIGNALED(status)
}

/// Relies on libc::WTERMSIG: the low seven bits of the status.
#[verifier::external_body]
fn wtermsig(status: i32) -> (r: i32)
    ensures
        r == term_sig_spec(status),
{
    libc::WTERMSIG(status)
}

/// Relies on libc::WCOREDUMP: bit 7 of the status.
#[verifier::external_body]
fn wcoredump(status: i32) -> (r: bool)
    ensures
        r == core_dump_spec(status),
{
    libc::WCOREDUMP(status)
}

/// Relies on libc::WIFSTOPPED: true when the low byte is 0x7f.
#[verifier::external_body]
fn wifstopped(status: i32) -> (r: bool)
    ensures
        r == stopped_spec(status),
{
    libc::WIFSTOPPED(status)
}

/// Relies on libc::WSTOPSIG: bits 8 to 15 of the status.
#[verifier::external_body]
fn wstopsig(status: i32) -> (r: i32)
    ensures
        r == high_byte_spec(status),
{
    libc::WSTOPSIG(status)
}

/// Decodes a process status word: normal exit with its code, termination by
/// a signal (with the core-file flag), stop by a signal, or none of these.
pub fn decode_status(status: i32) -> (r: ProcessStatus)
    ensures
        r == process_status_spec(status),
{
    if wifexited(status) {
        ProcessStatus::Exited { code: wexitstatus(status) }
    } else if wifsignaled(status) {
        let signal = wtermsig(status);
        let core_dumped = wcoredump(status);
        ProcessStatus::Signaled { signal, core_dumped }
    } else if wifstopped(status) {
        ProcessStatus::Stopped { signal: wstopsig(status) }
    } else {
        ProcessStatus::Other
    }
}

} // verus!
