//! The clipboard capability: the two-operation interface through which the
//! register store reaches a platform clipboard, and a session-local in-memory
//! backend used when no platform clipboard is reachable.

use vstd::prelude::*;
use vstd::string::StringExecFns;

verus! {

/// The two platform clipboard buffers: the system clipboard and the primary
/// selection.
#[derive(Clone, Copy, PartialEq, Eq, Structural, Debug)]
pub enum ClipboardType {
    Clipboard,
    Selection,
}

/// A failed platform-clipboard call, carrying a human-readable cause.
#[derive(Debug)]
pub struct ClipboardError {
    pub message: String,
}

/// A clipboard backend: one flat string per [`ClipboardType`], which may be
/// read and overwritten, and whose calls may fail.
///
/// `contents` is the text a buffer currently holds. A successful read returns
/// exactly that text; a successful write replaces it and leaves the other
/// buffer alone; a failed call leaves both buffers unchanged. Nothing here
/// promises success: a platform clipboard may be unreachable at any moment.
pub trait ClipboardProvider {
    /// The text the clipboard buffer of the given kind currently holds.
    /// A verified backend gives this a real model; an unverified backend may
    /// leave the default, of which nothing is known.
    open spec fn contents(&self, kind: ClipboardType) -> Seq<char> {
        arbitrary()
    }

    /// Whether a call may currently fail. A backend of which nothing is known
    /// may leave the default: always possibly failing.
    open spec fn may_fail(&self) -> bool {
        true
    }

    /// Read the current text of the given buffer.
    fn get_contents(&self, kind: ClipboardType) -> (r: Result<String, ClipboardError>)
        ensures
            (r matches Ok(s) ==> s@ == self.contents(kind)),
            r is Err ==> self.may_fail(),
    ;

    /// Replace the text of the given buffer.
    fn set_contents(&mut self, content: String, kind: ClipboardType) -> (r: Result<
        (),
        ClipboardError,
    >)
        ensures
            r is Ok ==> final(self).contents(kind) == content@,
            r is Ok ==> forall|k: ClipboardType|
                k != kind ==> #[trigger] final(self).contents(k) == old(self).contents(k),
            r is Err ==> forall|k: ClipboardType|
                #[trigger] final(self).contents(k) == old(self).contents(k),
            r is Err ==> old(self).may_fail(),
            final(self).may_fail() == old(self).may_fail(),
    ;
}

/// A session-local clipboard holding both buffers in memory.
///
/// It can be switched into a failing state, in which every call returns an
/// error and leaves the buffers unchanged, and its buffers can be overwritten
/// directly, the way another application would overwrite a real clipboard.
#[derive(Debug)]
pub struct InMemoryClipboard {
    system: String,
    primary: String,
    failing: bool,
}

impl InMemoryClipboard {
    /// The text the buffer of the given kind holds.
    pub closed spec fn buffer(&self, kind: ClipboardType) -> Seq<char> {
        match kind {
            ClipboardType::Clipboard => self.system@,
            ClipboardType::Selection => self.primary@,
        }
    }

    /// Whether calls currently fail.
    pub closed spec fn is_failing(&self) -> bool {
        self.failing
    }

    /// A clipboard with both buffers empty, with calls succeeding.
    pub fn new() -> (r: Self)
        ensures
            forall|k: ClipboardType| #[trigger] r.buffer(k) == Seq::<char>::empty(),
            !r.is_failing(),
    {
        InMemoryClipboard { system: String::new(), primary: String::new(), failing: false }
    }

    /// Make every following call fail, or succeed again.
    pub fn set_failing(&mut self, failing: bool)
        ensures
            final(self).is_failing() == failing,
            forall|k: ClipboardType| #[trigger] final(self).buffer(k) == old(self).buffer(k),
    {
        self.failing = failing;
    }

    /// Overwrite one buffer directly, bypassing the capability interface, as
    /// another application would overwrite a real clipboard.
    pub fn overwrite(&mut self, text: String, kind: ClipboardType)
        ensures
            final(self).buffer(kind) == text@,
            forall|k: ClipboardType|
                k != kind ==> #[trigger] final(self).buffer(k) == old(self).buffer(k),
            final(self).is_failing() == old(self).is_failing(),
    {
        match kind {
            ClipboardType::Clipboard => {
                self.system = text;
            },
            ClipboardType::Selection => {
                self.primary = text;
            },
        }
    }

    /// The text one buffer currently holds.
    pub fn current_text(&self, kind: ClipboardType) -> (r: String)
        ensures
            r@ == self.buffer(kind),
    {
        match kind {
            ClipboardType::Clipboard => self.system.clone(),
            ClipboardType::Selection => self.primary.clone(),
        }
    }
}

impl ClipboardProvider for InMemoryClipboard {
    open spec fn contents(&self, kind: ClipboardType) -> Seq<char> {
        self.buffer(kind)
    }

    open spec fn may_fail(&self) -> bool {
        self.is_failing()
    }

    fn get_contents(&self, kind: ClipboardType) -> (r: Result<String, ClipboardError>)
        ensures
            r is Ok <==> !self.is_failing(),
    {
        if self.failing {
            Err(ClipboardError { message: String::from_str("clipboard unavailable") })
        } else {
            match kind {
                ClipboardType::Clipboard => Ok(self.system.clone()),
                ClipboardType::Selection => Ok(self.primary.clone()),
            }
        }
    }

    fn set_contents(&mut self, content: String, kind: ClipboardType) -> (r: Result<
        (),
        ClipboardError,
    >)
        ensures
            r is Ok <==> !old(self).is_failing(),
            final(self).is_failing() == old(self).is_failing(),
    {
        if self.failing {
            Err(ClipboardError { message: String::from_str("clipboard unavailable") })
        } else {
            match kind {
                ClipboardType::Clipboard => {
                    self.system = content;
                },
                ClipboardType::Selection => {
                    self.primary = content;
                },
            }
            Ok(())
        }
    }
}

} // verus!
