//! Signal delivery, with the guardrails you want on a tool whose whole job
//! is killing things.
//!
//! The program makes the `kill(2)` call itself; this module decides whether
//! a target may be signalled at all, and what the outcome is reported as.

use vstd::prelude::*;

use crate::text::{decimal, push_decimal};

verus! {

broadcast use vstd::string::group_string_axioms;

/// The two signals portkill sends.
#[derive(Clone, Copy, Debug, PartialEq, Eq, Structural)]
pub enum Signal {
    /// Ask politely. Lets the process run its shutdown handlers.
    Term,
    /// Don't ask.
    Kill,
}

impl Signal {
    /// The signal's conventional name.
    pub open spec fn label(self) -> Seq<char> {
        match self {
            Signal::Term => "SIGTERM"@,
            Signal::Kill => "SIGKILL"@,
        }
    }

    /// The signal's conventional name: `SIGTERM` or `SIGKILL`.
    pub fn to_string(&self) -> (s: String)
        ensures
            s@ == self.label(),
    {
        match self {
            Signal::Term => "SIGTERM".to_string(),
            Signal::Kill => "SIGKILL".to_string(),
        }
    }
}

/// Why a signal was not delivered.
pub enum SendError {
    /// PID 0 (our own process group) or PID 1 (init).
    Refused { pid: u32 },
    /// The target is portkill itself.
    Itself,
    /// No such process any more.
    Gone { pid: u32 },
    /// The process belongs to someone we may not signal.
    NotPermitted { pid: u32 },
    /// Any other failure, with the operating system's description.
    Failed { pid: u32, detail: String },
}

/// A `SendError` as plain values.
pub enum SendErrorView {
    Refused { pid: u32 },
    Itself,
    Gone { pid: u32 },
    NotPermitted { pid: u32 },
    Failed { pid: u32, detail: Seq<char> },
}

impl View for SendError {
    type V = SendErrorView;

    open spec fn view(&self) -> SendErrorView {
        match self {
            SendError::Refused { pid } => SendErrorView::Refused { pid: *pid },
            SendError::Itself => SendErrorView::Itself,
            SendError::Gone { pid } => SendErrorView::Gone { pid: *pid },
            SendError::NotPermitted { pid } => SendErrorView::NotPermitted { pid: *pid },
            SendError::Failed { pid, detail } => SendErrorView::Failed { pid: *pid, detail: detail@ },
        }
    }
}

/// The message a failure is reported with.
pub open spec fn error_message(e: SendErrorView) -> Seq<char> {
    match e {
        SendErrorView::Refused { pid } => "refusing to signal PID "@ + decimal(pid as nat),
        SendErrorView::Itself => "refusing to signal vacate itself"@,
        SendErrorView::Gone { pid } => "process "@ + decimal(pid as nat) + " is already gone"@,
        SendErrorView::NotPermitted { pid } => "not permitted to signal process "@ + decimal(pid as nat)
            + " — try with sudo"@,
        SendErrorView::Failed { pid, detail } => "failed to signal process "@ + decimal(pid as nat) + ": "@
            + detail,
    }
}

impl SendError {
    /// The message this failure is reported with.
    pub fn message(&self) -> (s: String)
        ensures
            s@ == error_message(self@),
    {
        match self {
            SendError::Refused { pid } => {
                let mut s = "refusing to signal PID ".to_string();
                push_decimal(&mut s, *pid as u64);
                s
            },
            SendError::Itself => "refusing to signal vacate itself".to_string(),
            SendError::Gone { pid } => {
                let mut s = "process ".to_string();
                push_decimal(&mut s, *pid as u64);
                s.append(" is already gone");
                s
            },
            SendError::NotPermitted { pid } => {
                let mut s = "not permitted to signal process ".to_string();
                push_decimal(&mut s, *pid as u64);
                s.append(" — try with sudo");
                s
            },
            SendError::Failed { pid, detail } => {
                let mut s = "failed to signal process ".to_string();
                push_decimal(&mut s, *pid as u64);
                s.append(": ");
                s.append(detail.as_str());
                s
            },
        }
    }
}

/// Whether `pid` may be signalled by the process `own_pid`. `kill(2)` takes a
/// signed PID, and 0 or a negative one names a whole process group or every
/// process we may signal; so PID 0, PID 1 (init) and every PID above
/// `i32::MAX` are refused, as is our own.
pub fn check_target(pid: u32, own_pid: u32) -> (r: Result<(), SendError>)
    ensures
        pid <= 1 || pid > i32::MAX ==> r is Err && r->Err_0@ == (SendErrorView::Refused { pid }),
        1 < pid <= i32::MAX && pid == own_pid ==> r is Err && r->Err_0@ == SendErrorView::Itself,
        1 < pid <= i32::MAX && pid != own_pid ==> r is Ok,
{
    if pid <= 1 || pid > 2147483647u32 {
        return Err(SendError::Refused { pid });
    }
    if pid == own_pid {
        return Err(SendError::Itself);
    }
    Ok(())
}

/// What `kill(2)` reported.
pub enum Delivery {
    Delivered,
    /// `ESRCH`.
    NoSuchProcess,
    /// `EPERM`.
    NotPermitted,
    /// Any other error, with the operating system's description of it.
    Failed(String),
}

/// The result of sending a signal to `pid`, given what `kill(2)` reported.
pub fn outcome(pid: u32, delivery: Delivery) -> (r: Result<(), SendError>)
    ensures
        match delivery {
            Delivery::Delivered => r is Ok,
            Delivery::NoSuchProcess => r is Err && r->Err_0@ == (SendErrorView::Gone { pid }),
            Delivery::NotPermitted => r is Err && r->Err_0@ == (SendErrorView::NotPermitted { pid }),
            Delivery::Failed(detail) => r is Err && r->Err_0@ == (SendErrorView::Failed { pid, detail: detail@ }),
        },
{
    match delivery {
        Delivery::Delivered => Ok(()),
        Delivery::NoSuchProcess => Err(SendError::Gone { pid }),
        Delivery::NotPermitted => Err(SendError::NotPermitted { pid }),
        Delivery::Failed(detail) => Err(SendError::Failed { pid, detail }),
    }
}

} // verus!
