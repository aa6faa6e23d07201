//! The entries of one directory, but for `.` and `..`.

use vstd::prelude::*;
use crate::os::linux::{CursorView, DirEntryCursor};
use crate::os::linux::dirent::record_at;

verus! {

/// True for the names `.` and `..`, under which a directory lists itself and
/// its parent.
pub open spec fn spec_is_dots(name: Seq<u8>) -> bool {
    name == seq![46u8] || name == seq![46u8, 46u8]
}

/// Tells whether a name is `.` or `..`.
pub fn is_dots(file_name: &[u8]) -> (dots: bool)
    ensures
        dots == spec_is_dots(file_name@),
{
    let n: usize = file_name.len();
    if n == 1 {
        assert(file_name@ =~= seq![file_name@[0]]);
        file_name[0] == 46u8
    } else if n == 2 {
        assert(file_name@ =~= seq![file_name@[0], file_name@[1]]);
        file_name[0] == 46u8 && file_name[1] == 46u8
    } else {
        false
    }
}

/// How far the cursor is from the end of its buffer: the bytes behind it,
/// and one more while it has not been advanced.
pub open spec fn distance(c: CursorView) -> int {
    c.len - c.cursor + if c.advanced {
        0int
    } else {
        1int
    }
}

/// The cursor where it comes to rest when it is advanced until it is at an
/// entry that is neither `.` nor `..`, or until no whole record lies at it.
pub open spec fn skip_dots(c: CursorView) -> CursorView
    decreases distance(c),
{
    let next = c.advance();
    if next.is_done() || !spec_is_dots(next.current().file_name) {
        next
    } else if distance(next) < distance(c) {
        skip_dots(next)
    } else {
        next
    }
}

/// Advances the cursor to the next entry of its buffer that is neither `.`
/// nor `..`, and tells whether there is one. When there is none, the buffer
/// has been read to its end, and is to be filled again.
pub fn advance_past_dots(cursor: &mut DirEntryCursor) -> (more: bool)
    requires
        old(cursor).wf(),
    ensures
        final(cursor).wf(),
        final(cursor)@ == skip_dots(old(cursor)@),
        more == !final(cursor)@.is_done(),
        more ==> !spec_is_dots(final(cursor)@.current().file_name),
{
    loop
        invariant
            cursor.wf(),
            skip_dots(cursor@) == skip_dots(old(cursor)@),
        decreases distance(cursor@),
    {
        let ghost before = cursor@;
        if !cursor.advance() {
            return false;
        }
        if !is_dots(cursor.current().file_name_bytes()) {
            return true;
        }
        proof {
            let reclen = record_at(before.raw, before.cursor, before.big_endian).d_reclen;
            assert(!before.is_done());
            assert(before.advanced ==> reclen > 0);
            assert(distance(cursor@) < distance(before));
        }
    }
}

} // verus!
