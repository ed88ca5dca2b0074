//! The live relay's poll-loop decisions.
//!
//! While a long-running external command streams its output, the caller
//! polls the terminal for a key and probes the process, then asks here what
//! to do. Cancellation always wins: the caller terminates the process,
//! lets both output readers drain, and returns. Without cancellation the
//! relay continues until the process exits on its own.

use vstd::prelude::*;

use crate::ui::{KeyPress, UiKey};

verus! {

/// What probing the external process reported.
#[derive(Clone, Copy, Debug, PartialEq, Eq)]
pub enum ChildProbe {
    /// Still running.
    Running,
    /// Exited on its own.
    Exited,
    /// The probe itself failed.
    ProbeError,
}

/// What the relay loop does next.
#[derive(Clone, Copy, Debug, PartialEq, Eq)]
pub enum RelayStep {
    /// Terminate the external process, drain the readers, return.
    Cancel,
    /// Drain the readers and return; the process is gone or unknowable.
    Finish,
    /// Keep streaming and poll again.
    Continue,
}

/// The cancellation request: Ctrl-C or Escape.
pub open spec fn is_cancel_key(k: Option<KeyPress>) -> bool {
    match k {
        Option::None => false,
        Option::Some(p) => (p.code == UiKey::Char('c') && p.ctrl) || p.code == UiKey::Esc,
    }
}

/// Decides one iteration of the relay loop. A cancellation key decides
/// `Cancel` whatever the process is doing — in particular for a process
/// that would never exit on its own — so a relay driven by these decisions
/// returns after at most one poll interval once cancellation is requested.
pub fn relay_decision(key: Option<KeyPress>, child: ChildProbe) -> (r: RelayStep)
    ensures
        r == RelayStep::Cancel <==> is_cancel_key(key),
        !is_cancel_key(key) ==> match child {
            ChildProbe::Running => r == RelayStep::Continue,
            ChildProbe::Exited => r == RelayStep::Finish,
            ChildProbe::ProbeError => r == RelayStep::Finish,
        },
{
    let cancel = match key {
        Option::None => false,
        Option::Some(p) => {
            let is_ctrl_c = p.ctrl && match p.code {
                UiKey::Char(c) => c == 'c',
                _ => false,
            };
            let is_esc = match p.code {
                UiKey::Esc => true,
                _ => false,
            };
            is_ctrl_c || is_esc
        },
    };
    if cancel {
        RelayStep::Cancel
    } else {
        match child {
            ChildProbe::Running => RelayStep::Continue,
            ChildProbe::Exited => RelayStep::Finish,
            ChildProbe::ProbeError => RelayStep::Finish,
        }
    }
}

} // verus!
