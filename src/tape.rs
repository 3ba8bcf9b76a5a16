use vstd::prelude::*;

verus! {

/// Number of zeroed cells a fresh tape starts with.
pub const INITIAL_TAPE_SIZE: usize = 30000;

/// Cell value after one increment: wraps from 255 to 0.
pub open spec fn wrap_incr(v: u8) -> u8 {
    if v == 255 { 0 } else { (v + 1) as u8 }
}

/// Cell value after one decrement: wraps from 0 to 255.
pub open spec fn wrap_decr(v: u8) -> u8 {
    if v == 0 { 255 } else { (v - 1) as u8 }
}

/// The memory tape: a growable row of byte cells and the data pointer.
///
/// Cells wrap around on overflow and underflow. Moving right past the last
/// cell appends a zero cell; moving left of the first cell is an error.
pub struct Cells {
    pos: usize,
    tape: Vec<u8>,
}

impl Cells {
    /// The cells, in order.
    pub closed spec fn cells(&self) -> Seq<u8> {
        self.tape@
    }

    /// The data pointer.
    pub closed spec fn head(&self) -> nat {
        self.pos as nat
    }

    /// The data pointer always addresses an existing cell.
    pub open spec fn wf(&self) -> bool {
        self.head() < self.cells().len()
    }

    /// A tape of `INITIAL_TAPE_SIZE` zero cells, pointer on the first.
    pub fn new() -> (r: Cells)
        ensures
            r.wf(),
            r.head() == 0,
            r.cells() == Seq::new(INITIAL_TAPE_SIZE as nat, |i: int| 0u8),
    {
        let mut tape: Vec<u8> = Vec::new();
        let mut i: usize = 0;
        while i < INITIAL_TAPE_SIZE
            invariant
                i <= INITIAL_TAPE_SIZE,
                tape@ == Seq::new(i as nat, |k: int| 0u8),
            decreases INITIAL_TAPE_SIZE - i,
        {
            tape.push(0);
            i = i + 1;
            assert(tape@ =~= Seq::new(i as nat, |k: int| 0u8));
        }
        Cells { pos: 0, tape }
    }

    /// Adds one to the current cell, wrapping 255 to 0.
    pub fn incr(&mut self)
        requires
            old(self).wf(),
        ensures
            final(self).wf(),
            final(self).head() == old(self).head(),
            final(self).cells() == old(self).cells().update(
                old(self).head() as int,
                wrap_incr(old(self).cells()[old(self).head() as int]),
            ),
    {
        let v = self.tape[self.pos];
        let w: u8 = if v == 255 { 0 } else { v + 1 };
        self.tape.set(self.pos, w);
    }

    /// Subtracts one from the current cell, wrapping 0 to 255.
    pub fn decr(&mut self)
        requires
            old(self).wf(),
        ensures
            final(self).wf(),
            final(self).head() == old(self).head(),
            final(self).cells() == old(self).cells().update(
                old(self).head() as int,
                wrap_decr(old(self).cells()[old(self).head() as int]),
            ),
    {
        let v = self.tape[self.pos];
        let w: u8 = if v == 0 { 255 } else { v - 1 };
        self.tape.set(self.pos, w);
    }

    /// The value of the current cell.
    pub fn get(&self) -> (r: u8)
        requires
            self.wf(),
        ensures
            r == self.cells()[self.head() as int],
    {
        self.tape[self.pos]
    }

    /// Overwrites the current cell with `v`.
    pub fn set(&mut self, v: u8)
        requires
            old(self).wf(),
        ensures
            final(self).wf(),
            final(self).head() == old(self).head(),
            final(self).cells() == old(self).cells().update(old(self).head() as int, v),
    {
        self.tape.set(self.pos, v);
    }

    /// Moves the pointer one cell right, appending a zero cell when it stands
    /// on the last one.
    pub fn move_right(&mut self)
        requires
            old(self).wf(),
        ensures
            final(self).wf(),
            final(self).head() == old(self).head() + 1,
            final(self).cells() == (if old(self).head() + 1 == old(self).cells().len() {
                old(self).cells().push(0u8)
            } else {
                old(self).cells()
            }),
    {
        if self.pos == self.tape.len() - 1 {
            self.tape.push(0);
        }
        self.pos = self.pos + 1;
    }

    /// Moves the pointer one cell left; on the first cell this fails with
    /// `Error::EOT` and nothing changes.
    pub fn move_left(&mut self) -> (r: Result<(), crate::interpreter::Error>)
        requires
            old(self).wf(),
        ensures
            final(self).wf(),
            final(self).cells() == old(self).cells(),
            old(self).head() == 0 ==> r == Err::<(), _>(crate::interpreter::Error::EOT)
                && final(self).head() == 0,
            old(self).head() > 0 ==> r is Ok && final(self).head() == old(self).head() - 1,
    {
        if self.pos > 0 {
            self.pos = self.pos - 1;
            Ok(())
        } else {
            Err(crate::interpreter::Error::EOT)
        }
    }
}

} // verus!
