//! Paths as Windows system calls take them.

use vstd::prelude::*;
use vstd::slice::slice_subrange;

verus! {

/// A path in the representation that Windows system calls take: its 16-bit
/// code units, followed by one NUL code unit.
#[derive(Debug)]
pub struct RawPathBuf {
    buf: Vec<u16>,
}

impl View for RawPathBuf {
    type V = Seq<u16>;

    /// The code units of the path, without the NUL that ends the buffer.
    closed spec fn view(&self) -> Seq<u16> {
        self.buf@.drop_last()
    }
}

impl Clone for RawPathBuf {
    fn clone(&self) -> (copy: RawPathBuf)
        ensures
            copy.wf() == self.wf(),
            copy@ == self@,
    {
        RawPathBuf { buf: self.buf.clone() }
    }
}

impl RawPathBuf {
    /// The buffer holds at least the NUL code unit, and ends with it.
    pub closed spec fn wf(&self) -> bool {
        self.buf@.len() >= 1 && self.buf@.last() == 0u16
    }

    /// Makes a path of the given code units.
    pub fn from_code_units(units: Vec<u16>) -> (path: RawPathBuf)
        ensures
            path.wf(),
            path@ == units@,
    {
        let mut buf = units;
        buf.push(0u16);
        assert(buf@.drop_last() =~= units@);
        RawPathBuf { buf }
    }

    /// Returns the code units (u16s) of this path without the NUL terminator.
    pub fn as_code_units(&self) -> (units: &[u16])
        requires
            self.wf(),
        ensures
            units@ == self@,
    {
        let n: usize = self.buf.len();
        let units = slice_subrange(self.buf.as_slice(), 0, n - 1);
        assert(units@ =~= self.buf@.drop_last());
        units
    }

    /// Returns the code units of this path with the NUL terminator, as the
    /// system takes a wide string.
    pub fn as_code_units_with_nul(&self) -> (units: &[u16])
        requires
            self.wf(),
        ensures
            units@ == self@.push(0u16),
    {
        assert(self.buf@ =~= self.buf@.drop_last().push(0u16));
        self.buf.as_slice()
    }
}

} // verus!
