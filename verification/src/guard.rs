//! Durable terminal restoration.
//!
//! A renderer that hides the cursor or enters the alternate screen must put
//! the terminal back however the process ends. What gets emitted is decided
//! by two flags rather than assumed, so a session that only hid the cursor
//! does not also get an alternate-screen exit it never asked for; and
//! restoring clears the flags, so the signal handler, the panic hook and the
//! ordinary path can all restore without repeating themselves.

use vstd::prelude::*;

verus! {

/// `ESC`, `[`, then `tail`, as bytes.
pub open spec fn csi_bytes(tail: Seq<u8>) -> Seq<u8> {
    seq![0x1bu8, 0x5bu8] + tail
}

/// End synchronized output: `ESC [ ? 2 0 2 6 l`.
pub open spec fn sync_end_bytes() -> Seq<u8> {
    csi_bytes(seq![0x3fu8, 0x32u8, 0x30u8, 0x32u8, 0x36u8, 0x6cu8])
}

/// Reset colours and attributes: `ESC [ 0 m`.
pub open spec fn reset_sgr_bytes() -> Seq<u8> {
    csi_bytes(seq![0x30u8, 0x6du8])
}

/// Show the cursor: `ESC [ ? 2 5 h`.
pub open spec fn show_cursor_bytes() -> Seq<u8> {
    csi_bytes(seq![0x3fu8, 0x32u8, 0x35u8, 0x68u8])
}

/// Leave the alternate screen: `ESC [ ? 1 0 4 9 l`.
pub open spec fn leave_alt_bytes() -> Seq<u8> {
    csi_bytes(seq![0x3fu8, 0x31u8, 0x30u8, 0x34u8, 0x39u8, 0x6cu8])
}

/// What restoring writes: always the end of synchronized output (dying
/// inside a synchronized frame would leave a terminal buffering forever) and
/// an attribute reset; then the cursor only if it was hidden, and the normal
/// screen only if the alternate one was entered.
pub open spec fn restore_bytes(cursor_hidden: bool, alt_screen: bool) -> Seq<u8> {
    sync_end_bytes() + reset_sgr_bytes() + (if cursor_hidden {
        show_cursor_bytes()
    } else {
        Seq::empty()
    }) + (if alt_screen {
        leave_alt_bytes()
    } else {
        Seq::empty()
    })
}

fn push_all(v: &mut Vec<u8>, bytes: &[u8])
    ensures
        final(v)@ == old(v)@ + bytes@,
{
    let ghost start = v@;
    let mut i: usize = 0;
    while i < bytes.len()
        invariant
            i <= bytes.len(),
            v@ == start + bytes@.take(i as int),
        decreases bytes.len() - i,
    {
        v.push(bytes[i]);
        proof {
            assert(bytes@.take(i + 1) =~= bytes@.take(i as int).push(bytes@[i as int]));
        }
        i += 1;
    }
    proof {
        assert(bytes@.take(bytes.len() as int) =~= bytes@);
    }
}

/// The bytes that put the terminal back, given what was changed.
pub fn restore_sequence(cursor_hidden: bool, alt_screen: bool) -> (v: Vec<u8>)
    ensures
        v@ == restore_bytes(cursor_hidden, alt_screen),
{
    let mut v: Vec<u8> = Vec::new();
    let sync_end: [u8; 8] = [0x1b, 0x5b, 0x3f, 0x32, 0x30, 0x32, 0x36, 0x6c];
    let reset: [u8; 4] = [0x1b, 0x5b, 0x30, 0x6d];
    let show: [u8; 6] = [0x1b, 0x5b, 0x3f, 0x32, 0x35, 0x68];
    let leave: [u8; 8] = [0x1b, 0x5b, 0x3f, 0x31, 0x30, 0x34, 0x39, 0x6c];
    push_all(&mut v, &sync_end);
    push_all(&mut v, &reset);
    let ghost base = v@;
    if cursor_hidden {
        push_all(&mut v, &show);
    }
    let ghost mid = v@;
    if alt_screen {
        push_all(&mut v, &leave);
    }
    proof {
        assert(sync_end@ =~= sync_end_bytes());
        assert(reset@ =~= reset_sgr_bytes());
        assert(show@ =~= show_cursor_bytes());
        assert(leave@ =~= leave_alt_bytes());
        assert(v@ =~= restore_bytes(cursor_hidden, alt_screen));
    }
    v
}

/// What a session has changed about the terminal, and whether the handlers
/// that restore it have been installed.
pub struct Guard {
    cursor_hidden: bool,
    alt_screen: bool,
    armed: bool,
}

impl Guard {
    pub closed spec fn spec_cursor_hidden(&self) -> bool {
        self.cursor_hidden
    }

    pub closed spec fn spec_alt_screen(&self) -> bool {
        self.alt_screen
    }

    pub closed spec fn spec_armed(&self) -> bool {
        self.armed
    }

    /// Nothing changed yet, nothing installed.
    pub fn new() -> (g: Guard)
        ensures
            !g.spec_cursor_hidden(),
            !g.spec_alt_screen(),
            !g.spec_armed(),
    {
        Guard { cursor_hidden: false, alt_screen: false, armed: false }
    }

    /// Record whether the cursor is currently hidden.
    pub fn set_cursor_hidden(&mut self, hidden: bool)
        ensures
            final(self).spec_cursor_hidden() == hidden,
            final(self).spec_alt_screen() == old(self).spec_alt_screen(),
            final(self).spec_armed() == old(self).spec_armed(),
    {
        self.cursor_hidden = hidden;
    }

    /// Record whether the alternate screen is currently active.
    pub fn set_alt_screen(&mut self, active: bool)
        ensures
            final(self).spec_alt_screen() == active,
            final(self).spec_cursor_hidden() == old(self).spec_cursor_hidden(),
            final(self).spec_armed() == old(self).spec_armed(),
    {
        self.alt_screen = active;
    }

    /// Mark the restoring handlers installed. True only the first time, when
    /// the caller installs them; arming again does nothing.
    pub fn arm(&mut self) -> (first: bool)
        ensures
            first == !old(self).spec_armed(),
            final(self).spec_armed(),
            final(self).spec_cursor_hidden() == old(self).spec_cursor_hidden(),
            final(self).spec_alt_screen() == old(self).spec_alt_screen(),
    {
        let first = !self.armed;
        self.armed = true;
        first
    }

    /// The cursor is currently hidden.
    pub fn cursor_hidden(&self) -> (b: bool)
        ensures
            b == self.spec_cursor_hidden(),
    {
        self.cursor_hidden
    }

    /// The alternate screen is currently active.
    pub fn alt_screen(&self) -> (b: bool)
        ensures
            b == self.spec_alt_screen(),
    {
        self.alt_screen
    }

    /// The bytes that put the terminal back the way it was found; afterwards
    /// nothing is recorded as changed.
    pub fn restore(&mut self) -> (v: Vec<u8>)
        ensures
            v@ == restore_bytes(old(self).spec_cursor_hidden(), old(self).spec_alt_screen()),
            !final(self).spec_cursor_hidden(),
            !final(self).spec_alt_screen(),
            final(self).spec_armed() == old(self).spec_armed(),
    {
        let c = self.cursor_hidden;
        let a = self.alt_screen;
        self.cursor_hidden = false;
        self.alt_screen = false;
        restore_sequence(c, a)
    }
}

/// Restoration is idempotent: once the terminal has been restored, restoring
/// again changes nothing and writes only the unconditional end of
/// synchronized output and attribute reset, never a second cursor or screen
/// change.
pub proof fn lemma_restore_idempotent(cursor_hidden: bool, alt_screen: bool)
    ensures
        restore_bytes(false, false) == sync_end_bytes() + reset_sgr_bytes(),
        restore_bytes(cursor_hidden, alt_screen).subrange(0, 12) == restore_bytes(false, false),
{
    assert(restore_bytes(false, false) =~= sync_end_bytes() + reset_sgr_bytes());
    assert(restore_bytes(cursor_hidden, alt_screen).subrange(0, 12) =~= restore_bytes(false, false));
}

} // verus!
