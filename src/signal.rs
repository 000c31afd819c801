//! What happens when the process is interrupted: the running record, if one
//! is registered, is marked finished with the signal's exit code so that it
//! can be saved once before exiting.

use vstd::prelude::*;
use crate::record::{ExecutionRecord, ExecutionStatus, RecordView};
use crate::store::ExecutionStore;

verus! {

/// The registration of the execution in progress, and whether a signal
/// arrived.
pub struct SignalState {
    received: bool,
    exit_code: i32,
    current: Option<(ExecutionRecord, ExecutionStore)>,
}

impl SignalState {
    pub closed spec fn got_signal(&self) -> bool {
        self.received
    }

    pub closed spec fn code(&self) -> i32 {
        self.exit_code
    }

    pub closed spec fn registered(&self) -> Option<RecordView> {
        match self.current {
            Some((r, _)) => Some(r@),
            None => None,
        }
    }

    /// No signal received, nothing registered.
    pub fn new() -> (r: SignalState)
        ensures
            !r.got_signal(),
            r.code() == 0,
            r.registered() is None,
    {
        SignalState { received: false, exit_code: 0, current: None }
    }

    /// Whether a signal has been received.
    pub fn was_signal_received(&self) -> (r: bool)
        ensures
            r == self.got_signal(),
    {
        self.received
    }

    /// The exit code that the received signal calls for (0 before any).
    pub fn get_signal_exit_code(&self) -> (r: i32)
        ensures
            r == self.code(),
    {
        self.exit_code
    }

    /// Registers the execution in progress, to be finished on interruption.
    pub fn set_current_execution(&mut self, record: ExecutionRecord, store: ExecutionStore)
        ensures
            final(self).registered() == Some(record@),
            final(self).got_signal() == old(self).got_signal(),
            final(self).code() == old(self).code(),
    {
        self.current = Some((record, store));
    }

    /// Forgets the registered execution, after it completed normally.
    pub fn clear_current_execution(&mut self)
        ensures
            final(self).registered() is None,
            final(self).got_signal() == old(self).got_signal(),
            final(self).code() == old(self).code(),
    {
        self.current = None;
    }

    /// Records signal `sig` (exit code 128 + `sig`) and hands back the
    /// registered execution, marked finished at `end_time` with that code,
    /// for one save; the registration is cleared so it is not saved twice.
    pub fn on_signal(&mut self, sig: i32, end_time: String) -> (r: Option<
        (ExecutionRecord, ExecutionStore),
    >)
        requires
            0 <= sig < 128,
        ensures
            final(self).got_signal(),
            final(self).code() == 128 + sig,
            final(self).registered() is None,
            match old(self).registered() {
                Some(v) => r matches Some((rec, _)) && rec@ == (RecordView {
                    status: ExecutionStatus::Executed,
                    exit_code: Some((128 + sig) as i32),
                    end_time: Some(end_time@),
                    ..v
                }),
                None => r is None,
            },
    {
        let code = 128 + sig;
        self.received = true;
        self.exit_code = code;
        let taken = self.current.take();
        match taken {
            Some((mut record, store)) => {
                record.complete(code, end_time);
                Some((record, store))
            },
            None => None,
        }
    }
}

} // verus!
