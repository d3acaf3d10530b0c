//! The run/stop token that makes every blocking wait of a script cancellable.
//!
//! The token is one futex word shared between the script's thread and the
//! host's threads: `0` while stopped, `1` while a script runs. Every sleep is a
//! futex wait on the "running" value, so a stop request wakes it at once.

use vstd::prelude::*;
use linux_futex::{Futex, Private, TimedWaitError, WaitError};

verus! {

#[verifier::external_type_specification]
#[verifier::external_body]
#[verifier::reject_recursive_types(S)]
pub struct ExFutex<S>(Futex<S>);

#[verifier::external_type_specification]
#[verifier::external_body]
pub struct ExPrivate(Private);

#[verifier::external_type_specification]
#[verifier::external_body]
pub struct ExTimedWaitError(TimedWaitError);

#[verifier::external_type_specification]
#[verifier::external_body]
pub struct ExWaitError(WaitError);

/// Whether a script is running.
#[derive(Clone, Copy, Debug, PartialEq, Eq, Structural)]
pub enum Status {
    Stopped,
    Running,
}

/// A wait ended because the script was asked to stop.
#[derive(Clone, Copy, Debug, PartialEq, Eq, Structural)]
pub struct Cancelled;

/// A script was started while another one was still running.
#[derive(Clone, Copy, Debug, PartialEq, Eq, Structural)]
pub struct AlreadyRunning;

/// The value that the futex word holds for a status.
pub open spec fn status_code_spec(s: Status) -> u32 {
    match s {
        Status::Stopped => 0,
        Status::Running => 1,
    }
}

/// The futex word's value for `status`.
pub fn status_code(status: Status) -> (r: u32)
    ensures
        r == status_code_spec(status),
{
    match status {
        Status::Stopped => 0,
        Status::Running => 1,
    }
}

/// The status that a futex word's value stands for, if any.
pub fn status_from_code(code: u32) -> (r: Option<Status>)
    ensures
        r == (if code == 0 {
            Some(Status::Stopped)
        } else if code == 1 {
            Some(Status::Running)
        } else {
            None
        }),
{
    if code == 0 {
        Some(Status::Stopped)
    } else if code == 1 {
        Some(Status::Running)
    } else {
        None
    }
}

/// The status that a futex word's value stands for; a value that names no
/// status reads as stopped, which ends a script at its next wait.
pub fn status_of_code(code: u32) -> (r: Status)
    ensures
        r == (if code == 1 {
            Status::Running
        } else {
            Status::Stopped
        }),
{
    match status_from_code(code) {
        Some(s) => s,
        None => Status::Stopped,
    }
}

/// Longest single futex wait, in milliseconds: the seconds of the timeout
/// must fit a 32-bit `time_t`.
pub const MAX_WAIT_MILLIS: u64 = 2_147_483_647_000;

/// The timeout handed to one futex wait: `millis`, capped at the longest wait.
pub fn futex_timeout(millis: u64) -> (r: u64)
    ensures
        r == (if millis <= MAX_WAIT_MILLIS {
            millis
        } else {
            MAX_WAIT_MILLIS
        }),
{
    if millis <= MAX_WAIT_MILLIS {
        millis
    } else {
        MAX_WAIT_MILLIS
    }
}

/// The check made after every wait: a script may go on only while running.
pub fn running_check(status: Status) -> (r: Result<(), Cancelled>)
    ensures
        r.is_ok() <==> status == Status::Running,
{
    match status {
        Status::Running => Ok(()),
        Status::Stopped => Err(Cancelled),
    }
}

/// Milliseconds in `secs` seconds, saturating at the largest wait.
pub fn secs_to_millis(secs: u64) -> (r: u64)
    ensures
        r == (if secs * 1000 <= u64::MAX {
            secs * 1000
        } else {
            u64::MAX as int
        }),
{
    if secs <= u64::MAX / 1000 {
        secs * 1000
    } else {
        u64::MAX
    }
}

/// Relies on `Futex::new`: a private futex whose word starts at `value`.
#[verifier::external_body]
fn new_futex(value: u32) -> Futex<Private> {
    Futex::new(value)
}

/// Relies on `AtomicU32::load` of the futex word. Other threads may change
/// the word at any time, so nothing is known of the value read.
#[verifier::external_body]
fn load_word(futex: &Futex<Private>) -> u32 {
    futex.value.load(std::sync::atomic::Ordering::SeqCst)
}

/// Relies on `AtomicU32::store` of the futex word.
#[verifier::external_body]
fn store_word(futex: &Futex<Private>, value: u32) {
    futex.value.store(value, std::sync::atomic::Ordering::SeqCst)
}

/// Relies on `AtomicU32::compare_exchange` of the futex word: `Ok` holds the
/// previous value, which equalled `current` and was replaced by `new`; `Err`
/// holds the previous value, which differed from `current`.
#[verifier::external_body]
fn exchange_word(futex: &Futex<Private>, current: u32, new: u32) -> (r: Result<u32, u32>)
    ensures
        r matches Ok(v) ==> v == current,
        r matches Err(v) ==> v != current,
{
    futex.value.compare_exchange(
        current,
        new,
        std::sync::atomic::Ordering::SeqCst,
        std::sync::atomic::Ordering::SeqCst,
    )
}

/// Relies on `Futex::wait_for`: sleeps while the word holds `expected`, until
/// woken or until `millis` milliseconds have passed. The bound keeps the
/// timeout's seconds within a 32-bit `time_t`, which the crate casts to.
#[verifier::external_body]
fn wait_word_for(futex: &Futex<Private>, expected: u32, millis: u64) -> Result<(), TimedWaitError>
    requires
        millis <= MAX_WAIT_MILLIS,
{
    futex.wait_for(expected, std::time::Duration::from_millis(millis))
}

/// Relies on `Futex::wait`: sleeps while the word holds `expected`, until woken.
#[verifier::external_body]
fn wait_word(futex: &Futex<Private>, expected: u32) -> Result<(), WaitError> {
    futex.wait(expected)
}

/// Relies on `Futex::wake`: wakes up to `n` waiters and returns how many woke.
#[verifier::external_body]
fn wake_word(futex: &Futex<Private>, n: i32) -> i32 {
    futex.wake(n)
}

/// The process-wide run/stop token, created once and shared by reference.
pub struct StatusToken {
    futex: Futex<Private>,
}

impl StatusToken {
    /// A token in the stopped state.
    pub fn new() -> (r: StatusToken) {
        StatusToken { futex: new_futex(status_code(Status::Stopped)) }
    }

    /// The current status; a word that holds no known status reads as stopped,
    /// which ends the script at its next wait.
    pub fn get_status(&self) -> (r: Status) {
        status_of_code(load_word(&self.futex))
    }

    /// Sets the status; stopping wakes every waiter so that it sees the change.
    pub fn set_status(&self, status: Status) {
        store_word(&self.futex, status_code(status));
        if status == Status::Stopped {
            self.wake(i32::MAX);
        }
    }

    pub fn set_running_status(&self) {
        self.set_status(Status::Running)
    }

    pub fn set_stopped_status(&self) {
        self.set_status(Status::Stopped)
    }

    pub fn is_running_status(&self) -> (r: bool) {
        self.get_status() == Status::Running
    }

    pub fn is_stopped_status(&self) -> (r: bool) {
        self.get_status() == Status::Stopped
    }

    /// `Err` once a stop has been requested.
    pub fn check_running_status(&self) -> (r: Result<(), Cancelled>) {
        running_check(self.get_status())
    }

    /// Moves from stopped to running; refuses when a script already runs.
    pub fn start_script(&self) -> (r: Result<(), AlreadyRunning>) {
        match exchange_word(
            &self.futex,
            status_code(Status::Stopped),
            status_code(Status::Running),
        ) {
            Ok(_) => Ok(()),
            Err(_) => Err(AlreadyRunning),
        }
    }

    /// Wakes up to `n` threads blocked in a wait; returns how many woke.
    pub fn wake(&self, n: i32) -> (r: i32) {
        wake_word(&self.futex, n)
    }

    /// Sleeps `millis` milliseconds unless a stop is requested first; `Err`
    /// when the script is to stop. A wait longer than the longest futex wait
    /// ends early at that bound.
    pub fn wait(&self, millis: u64) -> (r: Result<(), Cancelled>) {
        let _ = wait_word_for(&self.futex, status_code(Status::Running), futex_timeout(millis));
        self.check_running_status()
    }

    /// Sleeps `millis` milliseconds unless a stop is requested first.
    pub fn wait_millis(&self, millis: u64) -> (r: Result<(), Cancelled>) {
        self.wait(millis)
    }

    /// Sleeps `secs` seconds unless a stop is requested first.
    pub fn wait_secs(&self, secs: u64) -> (r: Result<(), Cancelled>) {
        self.wait_millis(secs_to_millis(secs))
    }

    /// Sleeps until a stop is requested or the token is woken.
    pub fn wait_forever(&self) -> (r: Result<(), Cancelled>) {
        let _ = wait_word(&self.futex, status_code(Status::Running));
        self.check_running_status()
    }
}

} // verus!
