//! The errors of a traversal.

use vstd::prelude::*;
use crate::dent::to_vec;

verus! {

/// Why a call to the file system failed.
#[derive(Clone, Copy, Debug, PartialEq, Eq, Structural)]
pub enum IoError {
    /// The operating system refused the call, with this error number.
    Os(i32),
    /// The platform cannot do what was asked of it.
    Unsupported,
    /// What was handed in cannot be used, such as a path with a NUL in it.
    InvalidInput,
    /// The answer given was not an answer to the call that was made.
    Protocol,
    /// Any other failure.
    Other,
}

/// What went wrong during a traversal.
#[derive(Debug)]
pub enum ErrorInner {
    /// A call to the file system failed, on this path if it is known.
    Io { path: Option<Vec<u8>>, err: IoError },
    /// A symbolic link leads back to a directory that holds it.
    Loop { ancestor: Vec<u8>, child: Vec<u8> },
}

pub enum ErrorInnerView {
    Io { path: Option<Seq<u8>>, err: IoError },
    Loop { ancestor: Seq<u8>, child: Seq<u8> },
}

/// An error of a traversal, with the depth at which it came up.
#[derive(Debug)]
pub struct Error {
    depth: usize,
    inner: ErrorInner,
}

pub struct ErrorView {
    pub depth: usize,
    pub inner: ErrorInnerView,
}

pub open spec fn opt_bytes_view(o: Option<Vec<u8>>) -> Option<Seq<u8>> {
    match o {
        Some(v) => Some(v@),
        None => None,
    }
}

impl View for ErrorInner {
    type V = ErrorInnerView;

    open spec fn view(&self) -> ErrorInnerView {
        match *self {
            ErrorInner::Io { path, err } => ErrorInnerView::Io { path: opt_bytes_view(path), err },
            ErrorInner::Loop { ancestor, child } => ErrorInnerView::Loop {
                ancestor: ancestor@,
                child: child@,
            },
        }
    }
}

impl View for Error {
    type V = ErrorView;

    closed spec fn view(&self) -> ErrorView {
        ErrorView { depth: self.depth, inner: self.inner@ }
    }
}

impl ErrorView {
    /// The error of a failed call on a known path.
    pub open spec fn from_path(depth: usize, path: Seq<u8>, err: IoError) -> ErrorView {
        ErrorView { depth, inner: ErrorInnerView::Io { path: Some(path), err } }
    }

    /// The error of a failed call that concerns no single path.
    pub open spec fn from_io(depth: usize, err: IoError) -> ErrorView {
        ErrorView { depth, inner: ErrorInnerView::Io { path: None, err } }
    }

    /// The error of a link that leads back to a directory that holds it.
    pub open spec fn from_loop(depth: usize, ancestor: Seq<u8>, child: Seq<u8>) -> ErrorView {
        ErrorView { depth, inner: ErrorInnerView::Loop { ancestor, child } }
    }

    /// The path that the error concerns: that of the failed call, or that of
    /// the link that closes a loop.
    pub open spec fn path(self) -> Option<Seq<u8>> {
        match self.inner {
            ErrorInnerView::Io { path, .. } => path,
            ErrorInnerView::Loop { child, .. } => Some(child),
        }
    }

    /// The directory that a loop leads back to, if the error is a loop.
    pub open spec fn loop_ancestor(self) -> Option<Seq<u8>> {
        match self.inner {
            ErrorInnerView::Io { .. } => None,
            ErrorInnerView::Loop { ancestor, .. } => Some(ancestor),
        }
    }

    /// The failure of the file system behind the error, if there is one.
    pub open spec fn io_error(self) -> Option<IoError> {
        match self.inner {
            ErrorInnerView::Io { err, .. } => Some(err),
            ErrorInnerView::Loop { .. } => None,
        }
    }
}

pub open spec fn opt_slice_view(o: Option<&[u8]>) -> Option<Seq<u8>> {
    match o {
        Some(v) => Some(v@),
        None => None,
    }
}

impl Error {
    /// Makes the error of a failed call on a known path.
    pub fn from_path(depth: usize, path: Vec<u8>, err: IoError) -> (e: Error)
        ensures
            e@ == ErrorView::from_path(depth, path@, err),
    {
        Error { depth, inner: ErrorInner::Io { path: Some(path), err } }
    }

    /// Makes the error of a failed call that concerns no single path.
    pub fn from_io(depth: usize, err: IoError) -> (e: Error)
        ensures
            e@ == ErrorView::from_io(depth, err),
    {
        Error { depth, inner: ErrorInner::Io { path: None, err } }
    }

    /// Makes the error of a link that leads back to a directory that holds
    /// it.
    pub fn from_loop(depth: usize, ancestor: &[u8], child: &[u8]) -> (e: Error)
        ensures
            e@ == ErrorView::from_loop(depth, ancestor@, child@),
    {
        Error {
            depth,
            inner: ErrorInner::Loop { ancestor: to_vec(ancestor), child: to_vec(child) },
        }
    }

    /// The path that the error concerns, if it is known. For a loop it is
    /// the path of the link.
    pub fn path(&self) -> (path: Option<&[u8]>)
        ensures
            opt_slice_view(path) == self@.path(),
    {
        match &self.inner {
            ErrorInner::Io { path: None, .. } => None,
            ErrorInner::Io { path: Some(p), .. } => Some(p.as_slice()),
            ErrorInner::Loop { child, .. } => Some(child.as_slice()),
        }
    }

    /// The directory that a loop leads back to, if the error is a loop.
    pub fn loop_ancestor(&self) -> (ancestor: Option<&[u8]>)
        ensures
            opt_slice_view(ancestor) == self@.loop_ancestor(),
    {
        match &self.inner {
            ErrorInner::Io { .. } => None,
            ErrorInner::Loop { ancestor, .. } => Some(ancestor.as_slice()),
        }
    }

    /// The depth at which the error came up.
    pub fn depth(&self) -> (depth: usize)
        ensures
            depth == self@.depth,
    {
        self.depth
    }

    /// The failure of the file system behind the error, if there is one.
    pub fn io_error(&self) -> (err: Option<IoError>)
        ensures
            err == self@.io_error(),
    {
        match &self.inner {
            ErrorInner::Io { err, .. } => Some(*err),
            ErrorInner::Loop { .. } => None,
        }
    }

    /// Gives up the structure of the error for the failure of the file system
    /// behind it. A loop has none, and counts as any other failure.
    pub fn into_io_error(self) -> (err: IoError)
        ensures
            err == match self@.io_error() {
                Some(e) => e,
                None => IoError::Other,
            },
    {
        match self.inner {
            ErrorInner::Io { err, .. } => err,
            ErrorInner::Loop { .. } => IoError::Other,
        }
    }
}

} // verus!
