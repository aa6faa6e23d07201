//! Paths as Unix system calls take them.

use vstd::prelude::*;
use vstd::slice::slice_subrange;
use vstd::string::StringSliceAdditionalSpecFns;

verus! {

/// The byte that separates the elements of a Unix path.
pub const SEPARATOR: u8 = 47u8;

/// The number of leading bytes of `p[..n]` that remain once every separator
/// at its end has been removed, never going below `floor`.
pub open spec fn strip_separators(p: Seq<u8>, n: int, floor: int) -> int
    decreases n,
{
    if n > floor && 0 < n <= p.len() && p[n - 1] == SEPARATOR {
        strip_separators(p, n - 1, floor)
    } else {
        n
    }
}

/// The number of leading bytes of `p[..n]` that remain once every
/// non-separator byte at its end has been removed.
pub open spec fn strip_element(p: Seq<u8>, n: int) -> int
    decreases n,
{
    if 0 < n <= p.len() && p[n - 1] != SEPARATOR {
        strip_element(p, n - 1)
    } else {
        n
    }
}

/// True when a path has a last element that can be removed: it is neither
/// empty nor made of separators alone.
pub open spec fn can_pop(p: Seq<u8>) -> bool {
    strip_separators(p, p.len() as int, 0) > 0
}

/// The length of the parent of `p`: the trailing separators go, then the last
/// element, then the separators before it, except a leading root separator.
pub open spec fn parent_len(p: Seq<u8>) -> int {
    strip_separators(p, strip_element(p, strip_separators(p, p.len() as int, 0)), 1)
}

/// The path left when the last element of `p` is removed, or `p` itself when
/// it has none.
pub open spec fn spec_pop(p: Seq<u8>) -> Seq<u8> {
    if can_pop(p) {
        p.subrange(0, parent_len(p))
    } else {
        p
    }
}

/// `name` joined to `p` with exactly one separator between them: one is added
/// when `p` does not end with one, and one is dropped when `name` starts with
/// one as well.
pub open spec fn spec_join(p: Seq<u8>, name: Seq<u8>) -> Seq<u8> {
    let base = if p.len() > 0 && p.last() == SEPARATOR {
        p
    } else {
        p.push(SEPARATOR)
    };
    if name.len() > 0 && name[0] == SEPARATOR {
        base.drop_last() + name
    } else {
        base + name
    }
}

pub proof fn lemma_strip_separators_bounds(p: Seq<u8>, n: int, floor: int)
    requires
        0 <= floor <= n <= p.len(),
    ensures
        floor <= strip_separators(p, n, floor) <= n,
    decreases n,
{
    if n > floor && p[n - 1] == SEPARATOR {
        lemma_strip_separators_bounds(p, n - 1, floor);
    }
}

pub proof fn lemma_strip_element_bounds(p: Seq<u8>, n: int)
    requires
        0 <= n <= p.len(),
    ensures
        0 <= strip_element(p, n) <= n,
    decreases n,
{
    if n > 0 && p[n - 1] != SEPARATOR {
        lemma_strip_element_bounds(p, n - 1);
    }
}

/// The parent of a path is a proper prefix of it, and is empty only when the
/// path is relative.
pub proof fn law_parent_is_a_proper_prefix(p: Seq<u8>)
    requires
        can_pop(p),
    ensures
        0 <= parent_len(p) < p.len(),
        parent_len(p) == 0 ==> p[0] != SEPARATOR,
{
    let n1 = strip_separators(p, p.len() as int, 0);
    lemma_strip_separators_bounds(p, p.len() as int, 0);
    lemma_strip_element_bounds(p, n1);
    let n2 = strip_element(p, n1);
    assert(n2 < n1) by {
        lemma_strip_separators_stop(p, p.len() as int, 0);
        assert(p[n1 - 1] != SEPARATOR);
        lemma_strip_element_bounds(p, n1 - 1);
        assert(strip_element(p, n1) == strip_element(p, n1 - 1));
    }
    if n2 >= 1 {
        lemma_strip_separators_bounds(p, n2, 1);
    } else {
        assert(n2 == 0);
        assert(p[0] != SEPARATOR) by {
            lemma_strip_element_run(p, n1, 0);
        }
    }
}

/// Where the removal of separators stops above the floor, the byte before
/// that point is no separator.
pub proof fn lemma_strip_separators_stop(p: Seq<u8>, n: int, floor: int)
    requires
        0 <= floor <= n <= p.len(),
        strip_separators(p, n, floor) > floor,
    ensures
        p[strip_separators(p, n, floor) - 1] != SEPARATOR,
    decreases n,
{
    if n > floor && p[n - 1] == SEPARATOR {
        lemma_strip_separators_stop(p, n - 1, floor);
    }
}

/// Every byte that the removal of an element passes over is no separator.
pub proof fn lemma_strip_element_run(p: Seq<u8>, n: int, i: int)
    requires
        0 <= n <= p.len(),
        strip_element(p, n) <= i < n,
    ensures
        p[i] != SEPARATOR,
    decreases n,
{
    if n > 0 && p[n - 1] != SEPARATOR {
        if i < n - 1 {
            lemma_strip_element_run(p, n - 1, i);
        }
    }
}

/// A path in the representation that Unix system calls take: its bytes,
/// followed by one NUL byte.
#[derive(Debug)]
pub struct RawPathBuf {
    buf: Vec<u8>,
}

impl View for RawPathBuf {
    type V = Seq<u8>;

    /// The bytes of the path, without the NUL byte that ends the buffer.
    closed spec fn view(&self) -> Seq<u8> {
        self.buf@.drop_last()
    }
}

impl Clone for RawPathBuf {
    fn clone(&self) -> (copy: RawPathBuf)
        ensures
            copy.wf() == self.wf(),
            copy@ == self@,
    {
        RawPathBuf { buf: self.buf.clone() }
    }
}

impl RawPathBuf {
    /// The buffer holds at least the NUL byte, and ends with it.
    pub closed spec fn wf(&self) -> bool {
        self.buf@.len() >= 1 && self.buf@.last() == 0u8
    }

    /// Makes a path of the given bytes.
    pub fn from_bytes(bytes: Vec<u8>) -> (path: RawPathBuf)
        ensures
            path.wf(),
            path@ == bytes@,
    {
        let mut buf = bytes;
        buf.push(0u8);
        assert(buf@.drop_last() =~= bytes@);
        RawPathBuf { buf }
    }

    /// Makes a path of the bytes of a string.
    pub fn from_str(s: &str) -> (path: RawPathBuf)
        ensures
            path.wf(),
            path@ == s.spec_bytes(),
    {
        let bytes = s.as_bytes();
        let mut buf: Vec<u8> = Vec::new();
        buf.extend_from_slice(bytes);
        assert(buf@ =~= bytes@);
        RawPathBuf::from_bytes(buf)
    }

    /// Hands out the bytes of the path, without the NUL byte.
    pub fn into_bytes(self) -> (bytes: Vec<u8>)
        requires
            self.wf(),
        ensures
            bytes@ == self@,
    {
        let mut buf = self.buf;
        buf.pop();
        buf
    }

    /// Returns the code units (bytes) of this path without the NUL terminator.
    pub fn as_code_units(&self) -> (units: &[u8])
        requires
            self.wf(),
        ensures
            units@ == self@,
    {
        let n: usize = self.buf.len();
        let units = slice_subrange(self.buf.as_slice(), 0, n - 1);
        assert(units@ =~= self.buf@.drop_last());
        units
    }

    /// Returns the bytes of this path with the NUL terminator, as C takes a
    /// string.
    pub fn as_bytes_with_nul(&self) -> (units: &[u8])
        requires
            self.wf(),
        ensures
            units@ == self@.push(0u8),
    {
        assert(self.buf@ =~= self.buf@.drop_last().push(0u8));
        self.buf.as_slice()
    }

    /// Appends the given bytes to the end of this path, with no separator.
    pub fn push_bytes(&mut self, bytes: &[u8])
        requires
            old(self).wf(),
        ensures
            final(self).wf(),
            final(self)@ == old(self)@ + bytes@,
    {
        self.buf.pop();
        self.buf.extend_from_slice(bytes);
        self.buf.push(0u8);
        assert(self.buf@.drop_last() =~= old(self).buf@.drop_last() + bytes@);
    }

    /// Joins the given name to this path in place with a path separator.
    ///
    /// If this path ends with a `/`, and/or if the name starts with a `/`,
    /// then only one separator is used to join them. Nothing else is
    /// normalized: joining `a/b//` with `/c` gives `a/b//c`.
    pub fn join(&mut self, name: &[u8])
        requires
            old(self).wf(),
        ensures
            final(self).wf(),
            final(self)@ == spec_join(old(self)@, name@),
    {
        self.buf.pop();
        let ghost p = self.buf@;
        assert(p =~= old(self)@);
        let n: usize = self.buf.len();
        if n == 0 || self.buf[n - 1] != SEPARATOR {
            self.buf.push(SEPARATOR);
        }
        let ghost base = self.buf@;
        if name.len() > 0 && name[0] == SEPARATOR {
            self.buf.pop();
            assert(self.buf@ =~= base.drop_last());
        }
        self.buf.extend_from_slice(name);
        self.buf.push(0u8);
        assert(self.buf@.drop_last() =~= spec_join(p, name@));
    }

    /// Pops the last element of this path and returns true if an element was
    /// popped. Nothing is popped if the path is empty or is a root path.
    pub fn pop(&mut self) -> (popped: bool)
        requires
            old(self).wf(),
        ensures
            final(self).wf(),
            popped == can_pop(old(self)@),
            final(self)@ == spec_pop(old(self)@),
    {
        let ghost p = self@;
        let len: usize = self.buf.len() - 1;
        assert(p.len() == len);
        assert(forall|i: int| 0 <= i < len ==> p[i] == self.buf@[i]);
        let mut new_len: usize = len;
        while new_len > 0 && self.buf[new_len - 1] == SEPARATOR
            invariant
                new_len <= len,
                len == self.buf@.len() - 1,
                p.len() == len,
                forall|i: int| 0 <= i < len ==> p[i] == self.buf@[i],
                strip_separators(p, new_len as int, 0) == strip_separators(p, len as int, 0),
            decreases new_len,
        {
            new_len -= 1;
        }
        if new_len == 0 {
            return false;
        }
        let ghost n1 = new_len as int;
        while new_len > 0 && self.buf[new_len - 1] != SEPARATOR
            invariant
                new_len <= len,
                len == self.buf@.len() - 1,
                p.len() == len,
                forall|i: int| 0 <= i < len ==> p[i] == self.buf@[i],
                strip_element(p, new_len as int) == strip_element(p, n1),
            decreases new_len,
        {
            new_len -= 1;
        }
        let ghost n2 = new_len as int;
        while new_len > 1 && self.buf[new_len - 1] == SEPARATOR
            invariant
                new_len <= len,
                len == self.buf@.len() - 1,
                p.len() == len,
                forall|i: int| 0 <= i < len ==> p[i] == self.buf@[i],
                strip_separators(p, new_len as int, 1) == strip_separators(p, n2, 1),
            decreases new_len,
        {
            new_len -= 1;
        }
        self.buf.truncate(new_len);
        self.buf.push(0u8);
        assert(self.buf@.drop_last() =~= p.subrange(0, new_len as int));
        true
    }
}

} // verus!
