//! The register store: a mapping from single-character names to ordered
//! fragment sequences, with special-register dispatch and clipboard-backed
//! registers.

use vstd::prelude::*;
use vstd::string::StrSliceExecFns;
use vstd::string::StringExecFns;

use crate::clipboard::ClipboardError;
use crate::clipboard::ClipboardProvider;
use crate::clipboard::ClipboardType;
use crate::reconcile::read_from_clipboard;
use crate::reconcile::reconciled;
use crate::reconcile::reversed_clone;
use crate::strings::first_line;
use crate::strings::first_line_of;
use crate::strings::index_strings;
use crate::strings::join_values;
use crate::strings::join_with;
use crate::strings::line_ending;
use crate::strings::native_line_ending;
use crate::strings::selection_index_values;

verus! {

/// Whether `name` is one of the two clipboard-backed register names.
pub open spec fn is_clipboard_name(name: char) -> bool {
    name == '*' || name == '+'
}

/// Whether `name` is a computed, read-only register name.
pub open spec fn is_computed_name(name: char) -> bool {
    name == '#' || name == '.' || name == '%'
}

/// Whether `name` is any special register name; every other character is a
/// plain register.
pub open spec fn is_special_name(name: char) -> bool {
    name == '_' || is_computed_name(name) || is_clipboard_name(name)
}

/// The clipboard buffer a clipboard-backed register name addresses.
pub open spec fn clip_kind(name: char) -> ClipboardType {
    if name == '*' {
        ClipboardType::Clipboard
    } else {
        ClipboardType::Selection
    }
}

fn kind_for(name: char) -> (r: ClipboardType)
    requires
        is_clipboard_name(name),
    ensures
        r == clip_kind(name),
{
    if name == '*' {
        ClipboardType::Clipboard
    } else {
        ClipboardType::Selection
    }
}

/// The placeholder the document-path register yields for an unsaved scratch
/// buffer.
pub open spec fn scratch_buffer_name() -> Seq<char> {
    "[scratch]"@
}

/// What the command layer failed with.
#[derive(Debug)]
pub enum RegisterError {
    /// A `write` or `push` was attempted on a computed, read-only register.
    UnsupportedOperation,
    /// The platform clipboard call failed; the operation had no effect.
    ClipboardFailure(ClipboardError),
}

/// The live editor state a read may consult: the text under each live
/// selection, in selection order, and the current document's path (`None` for
/// an unsaved scratch buffer).
pub struct EditorContext {
    pub selections: Vec<String>,
    pub path: Option<String>,
}

/// The path the document-path register yields.
pub open spec fn doc_path_view(ctx: EditorContext) -> Seq<char> {
    match ctx.path {
        Option::Some(p) => p@,
        Option::None => scratch_buffer_name(),
    }
}

/// The value of the first entry carrying `name`, if any.
pub open spec fn lookup(entries: Seq<(char, Seq<Seq<char>>)>, name: char) -> Option<Seq<Seq<char>>>
    decreases entries.len(),
{
    if entries.len() == 0 {
        Option::None
    } else if entries[0].0 == name {
        Option::Some(entries[0].1)
    } else {
        lookup(entries.drop_first(), name)
    }
}

/// No two entries carry the same name.
pub open spec fn unique_keys(entries: Seq<(char, Seq<Seq<char>>)>) -> bool {
    forall|i: int, j: int|
        0 <= i < j < entries.len() ==> (#[trigger] entries[i]).0 != (#[trigger] entries[j]).0
}

proof fn lemma_lookup_skip(entries: Seq<(char, Seq<Seq<char>>)>, name: char, i: int)
    requires
        0 <= i <= entries.len(),
        forall|j: int| 0 <= j < i ==> (#[trigger] entries[j]).0 != name,
    ensures
        lookup(entries, name) == lookup(entries.skip(i), name),
    decreases i,
{
    if i > 0 {
        assert(entries[0].0 != name);
        assert(forall|j: int|
            0 <= j < i - 1 ==> (#[trigger] entries.drop_first()[j]) == entries[j + 1]);
        lemma_lookup_skip(entries.drop_first(), name, i - 1);
        assert(entries.drop_first().skip(i - 1) =~= entries.skip(i));
    } else {
        assert(entries.skip(0) =~= entries);
    }
}

proof fn lemma_lookup_absent(entries: Seq<(char, Seq<Seq<char>>)>, name: char)
    ensures
        (lookup(entries, name) is None) <==> (forall|j: int|
            0 <= j < entries.len() ==> (#[trigger] entries[j]).0 != name),
    decreases entries.len(),
{
    if entries.len() > 0 {
        lemma_lookup_absent(entries.drop_first(), name);
        assert(forall|j: int|
            0 <= j < entries.len() - 1 ==> (#[trigger] entries.drop_first()[j]) == entries[j + 1]);
        if entries[0].0 != name && (forall|j: int|
            0 <= j < entries.len() - 1 ==> (#[trigger] entries.drop_first()[j]).0 != name) {
            assert forall|j: int| 0 <= j < entries.len() implies (#[trigger] entries[j]).0
                != name by {
                if j > 0 {
                    assert(entries.drop_first()[j - 1] == entries[j]);
                }
            }
        }
    }
}

proof fn lemma_lookup_push_one(
    entries: Seq<(char, Seq<Seq<char>>)>,
    e: (char, Seq<Seq<char>>),
    c: char,
)
    ensures
        lookup(entries.push(e), c) == if lookup(entries, c) is Some {
            lookup(entries, c)
        } else if c == e.0 {
            Option::Some(e.1)
        } else {
            Option::<Seq<Seq<char>>>::None
        },
    decreases entries.len(),
{
    if entries.len() == 0 {
        assert(entries.push(e)[0] == e);
        if c != e.0 {
            assert(entries.push(e).drop_first() =~= Seq::<(char, Seq<Seq<char>>)>::empty());
            assert(lookup(Seq::<(char, Seq<Seq<char>>)>::empty(), c) is None);
        }
    } else {
        assert(entries.push(e)[0] == entries[0]);
        if c != entries[0].0 {
            lemma_lookup_push_one(entries.drop_first(), e, c);
            assert(entries.push(e).drop_first() =~= entries.drop_first().push(e));
        }
    }
}

proof fn lemma_lookup_push(entries: Seq<(char, Seq<Seq<char>>)>, e: (char, Seq<Seq<char>>))
    ensures
        forall|c: char| #[trigger]
            lookup(entries.push(e), c) == if lookup(entries, c) is Some {
                lookup(entries, c)
            } else if c == e.0 {
                Option::Some(e.1)
            } else {
                Option::<Seq<Seq<char>>>::None
            },
{
    assert forall|c: char| #[trigger] lookup(entries.push(e), c) == (if lookup(entries, c)
        is Some {
        lookup(entries, c)
    } else if c == e.0 {
        Option::Some(e.1)
    } else {
        Option::<Seq<Seq<char>>>::None
    }) by {
        lemma_lookup_push_one(entries, e, c);
    }
}

proof fn lemma_lookup_update_one(entries: Seq<(char, Seq<Seq<char>>)>, i: int, v: Seq<Seq<char>>, c: char)
    requires
        0 <= i < entries.len(),
        unique_keys(entries),
    ensures
        lookup(entries.update(i, (entries[i].0, v)), c) == if c == entries[i].0 {
            Option::Some(v)
        } else {
            lookup(entries, c)
        },
    decreases i,
{
    let name = entries[i].0;
    let updated = entries.update(i, (name, v));
    if i == 0 {
        assert(updated[0] == (name, v));
        if c != name {
            assert(updated.drop_first() =~= entries.drop_first());
        }
    } else {
        assert(updated[0] == entries[0]);
        assert(forall|j: int|
            0 <= j < entries.len() - 1 ==> (#[trigger] entries.drop_first()[j]) == entries[j + 1]);
        assert(entries.drop_first()[i - 1] == entries[i]);
        if c == entries[0].0 {
            assert(entries[0].0 != name);
        } else {
            lemma_lookup_update_one(entries.drop_first(), i - 1, v, c);
            assert(updated.drop_first() =~= entries.drop_first().update(i - 1, (name, v)));
        }
    }
}

proof fn lemma_lookup_update(entries: Seq<(char, Seq<Seq<char>>)>, i: int, v: Seq<Seq<char>>)
    requires
        0 <= i < entries.len(),
        unique_keys(entries),
    ensures
        forall|c: char| #[trigger]
            lookup(entries.update(i, (entries[i].0, v)), c) == if c == entries[i].0 {
                Option::Some(v)
            } else {
                lookup(entries, c)
            },
{
    assert forall|c: char| #[trigger] lookup(entries.update(i, (entries[i].0, v)), c) == (if c
        == entries[i].0 {
        Option::Some(v)
    } else {
        lookup(entries, c)
    }) by {
        lemma_lookup_update_one(entries, i, v, c);
    }
}

proof fn lemma_lookup_remove_one(entries: Seq<(char, Seq<Seq<char>>)>, i: int, c: char)
    requires
        0 <= i < entries.len(),
        unique_keys(entries),
    ensures
        lookup(entries.remove(i), c) == if c == entries[i].0 {
            Option::<Seq<Seq<char>>>::None
        } else {
            lookup(entries, c)
        },
    decreases i,
{
    let name = entries[i].0;
    let removed = entries.remove(i);
    if i == 0 {
        assert(removed =~= entries.drop_first());
        if c == name {
            lemma_lookup_absent(entries.drop_first(), name);
            assert(forall|j: int|
                0 <= j < entries.len() - 1 ==> (#[trigger] entries.drop_first()[j]) == entries[j
                    + 1]);
        }
    } else {
        assert(removed[0] == entries[0]);
        assert(forall|j: int|
            0 <= j < entries.len() - 1 ==> (#[trigger] entries.drop_first()[j]) == entries[j + 1]);
        assert(entries.drop_first()[i - 1] == entries[i]);
        if c == entries[0].0 {
            assert(entries[0].0 != name);
        } else {
            lemma_lookup_remove_one(entries.drop_first(), i - 1, c);
            assert(removed.drop_first() =~= entries.drop_first().remove(i - 1));
        }
    }
}

proof fn lemma_lookup_remove(entries: Seq<(char, Seq<Seq<char>>)>, i: int)
    requires
        0 <= i < entries.len(),
        unique_keys(entries),
    ensures
        forall|c: char| #[trigger]
            lookup(entries.remove(i), c) == if c == entries[i].0 {
                Option::<Seq<Seq<char>>>::None
            } else {
                lookup(entries, c)
            },
{
    assert forall|c: char| #[trigger] lookup(entries.remove(i), c) == (if c == entries[i].0 {
        Option::<Seq<Seq<char>>>::None
    } else {
        lookup(entries, c)
    }) by {
        lemma_lookup_remove_one(entries, i, c);
    }
}

/// A key-value store for saving sets of values.
///
/// Each register corresponds to a `char`. Most chars can be used to store any
/// set of values, but a few chars are special registers with unique behaviors
/// when read or written to:
///
/// * Black hole (`_`): all values read and written are discarded
/// * Selection indices (`#`): index number of each selection starting at 1
/// * Selection contents (`.`)
/// * Document path (`%`): filename of the current buffer
/// * System clipboard (`*`)
/// * Primary clipboard (`+`)
///
/// Values are stored in reverse order when inserted with `write`; the order
/// is reversed again on `read`. This allows `push` to prepend one fragment
/// efficiently.
pub struct Registers<C: ClipboardProvider> {
    inner: Vec<(char, Vec<String>)>,
    clipboard_provider: C,
}

impl<C: ClipboardProvider> Registers<C> {
    /// The stored entries, each with its values in logical (oldest-first)
    /// order, in insertion order.
    pub closed spec fn entries(self) -> Seq<(char, Seq<Seq<char>>)> {
        self.inner@.map_values(|e: (char, Vec<String>)| (e.0, e.1.deep_view().reverse()))
    }

    /// The clipboard capability the store owns.
    pub closed spec fn provider(self) -> C {
        self.clipboard_provider
    }

    /// The text the clipboard buffer of the given kind currently holds.
    pub open spec fn clip(self, kind: ClipboardType) -> Seq<char> {
        self.provider().contents(kind)
    }

    /// Each name has at most one stored entry.
    pub open spec fn wf(self) -> bool {
        unique_keys(self.entries())
    }

    /// The stored mapping from name to logical fragment sequence.
    pub open spec fn stored(self) -> Map<char, Seq<Seq<char>>> {
        Map::new(
            |c: char| lookup(self.entries(), c) is Some,
            |c: char| lookup(self.entries(), c).unwrap(),
        )
    }

    /// The cached fragment sequence of a register, if any.
    pub open spec fn cached(self, name: char) -> Option<Seq<Seq<char>>> {
        lookup(self.entries(), name)
    }

    /// A store with no entries, owning the given clipboard capability.
    pub fn new(clipboard_provider: C) -> (r: Self)
        ensures
            r.wf(),
            r.entries() == Seq::<(char, Seq<Seq<char>>)>::empty(),
            r.stored() == Map::<char, Seq<Seq<char>>>::empty(),
            r.provider() == clipboard_provider,
    {
        let r = Registers { inner: Vec::new(), clipboard_provider };
        proof {
            assert(r.entries() =~= Seq::<(char, Seq<Seq<char>>)>::empty());
            assert(r.stored() =~= Map::<char, Seq<Seq<char>>>::empty());
        }
        r
    }

    /// The clipboard capability the store owns, for inspection.
    pub fn clipboard_provider(&self) -> (r: &C)
        ensures
            *r == self.provider(),
    {
        &self.clipboard_provider
    }

    /// The clipboard capability the store owns. Through this, the backend can
    /// be reconfigured, or its buffers overwritten the way another
    /// application would; the stored entries are untouched.
    pub fn clipboard_provider_mut(&mut self) -> (r: &mut C)
        ensures
            *r == old(self).provider(),
            final(self).provider() == *final(r),
            final(self).entries() == old(self).entries(),
    {
        &mut self.clipboard_provider
    }

    /// The position of the entry carrying `name`, if any.
    fn find_entry(&self, name: char) -> (r: Option<usize>)
        ensures
            match r {
                Option::Some(i) => i < self.inner@.len() && self.entries()[i as int].0 == name
                    && self.cached(name) == Option::Some(self.entries()[i as int].1),
                Option::None => self.cached(name) is None,
            },
    {
        let n = self.inner.len();
        let mut i: usize = 0;
        while i < n
            invariant
                i <= n,
                n == self.inner@.len(),
                forall|j: int| 0 <= j < i ==> (#[trigger] self.entries()[j]).0 != name,
            decreases n - i,
        {
            if self.inner[i].0 == name {
                proof {
                    lemma_lookup_skip(self.entries(), name, i as int);
                    assert(self.entries().skip(i as int)[0] == self.entries()[i as int]);
                }
                return Some(i);
            }
            i += 1;
        }
        proof {
            lemma_lookup_skip(self.entries(), name, n as int);
            assert(self.entries().skip(n as int) =~= Seq::<(char, Seq<Seq<char>>)>::empty());
        }
        None
    }

    /// Removes every stored entry, plain and clipboard-cached alike; the
    /// computed special registers have nothing to clear.
    pub fn clear(&mut self)
        ensures
            final(self).wf(),
            final(self).entries() == Seq::<(char, Seq<Seq<char>>)>::empty(),
            final(self).stored() == Map::<char, Seq<Seq<char>>>::empty(),
            final(self).provider() == old(self).provider(),
    {
        self.inner.clear();
        proof {
            assert(final(self).entries() =~= Seq::<(char, Seq<Seq<char>>)>::empty());
            assert(final(self).stored() =~= Map::<char, Seq<Seq<char>>>::empty());
        }
    }

    /// Removes a plain register's entry if present; special registers cannot
    /// be removed.
    pub fn remove(&mut self, name: char) -> (r: bool)
        requires
            old(self).wf(),
        ensures
            final(self).wf(),
            final(self).provider() == old(self).provider(),
            is_special_name(name) ==> r == false && final(self).entries() == old(self).entries(),
            !is_special_name(name) ==> {
                &&& r == old(self).stored().contains_key(name)
                &&& final(self).stored() == old(self).stored().remove(name)
                &&& (!r ==> final(self).entries() == old(self).entries())
                &&& (r ==> exists|i: int|
                    0 <= i < old(self).entries().len() && (#[trigger] old(self).entries()[i]).0
                        == name && final(self).entries() == old(self).entries().remove(i))
            },
    {
        if name == '_' || name == '#' || name == '.' || name == '%' || name == '*' || name == '+' {
            return false;
        }
        let found = self.find_entry(name);
        match found {
            Option::Some(i) => {
                let ghost prior = self.entries();
                self.inner.remove(i);
                proof {
                    assert(final(self).entries() =~= prior.remove(i as int));
                    lemma_lookup_remove(prior, i as int);
                    assert(unique_keys(final(self).entries())) by {
                        assert(forall|a: int|
                            0 <= a < prior.remove(i as int).len()
                                ==> #[trigger] prior.remove(i as int)[a] == (if a < i {
                                prior[a]
                            } else {
                                prior[a + 1]
                            }));
                    }
                    assert(final(self).stored() =~= old(self).stored().remove(name));
                }
                true
            },
            Option::None => {
                proof {
                    assert(final(self).stored() =~= old(self).stored().remove(name));
                }
                false
            },
        }
    }
}

/// What the entry list looks like after a register's whole sequence is
/// replaced: the entry is updated in place when present, appended otherwise.
pub open spec fn entries_insert(
    prior: Seq<(char, Seq<Seq<char>>)>,
    now: Seq<(char, Seq<Seq<char>>)>,
    name: char,
    vals: Seq<Seq<char>>,
) -> bool {
    if lookup(prior, name) is Some {
        exists|i: int|
            0 <= i < prior.len() && (#[trigger] prior[i]).0 == name && now == prior.update(
                i,
                (name, vals),
            )
    } else {
        now == prior.push((name, vals))
    }
}

/// The sequence a register holds after one fragment is appended to its
/// logical end: its prior sequence (empty when undefined) plus the fragment.
pub open spec fn appended(
    stored: Map<char, Seq<Seq<char>>>,
    name: char,
    value: Seq<char>,
) -> Seq<Seq<char>> {
    let prior = if stored.contains_key(name) {
        stored[name]
    } else {
        Seq::<Seq<char>>::empty()
    };
    prior.push(value)
}

/// The one-line summary a stored entry shows: the first line of its
/// logically-last (most recently pushed) fragment, or a fixed empty marker.
pub open spec fn entry_preview(vals: Seq<Seq<char>>) -> Seq<char> {
    if vals.len() == 0 || vals.last().len() == 0 {
        "<empty>"@
    } else {
        first_line_of(vals.last())
    }
}

/// The previews of the stored entries in insertion order, with clipboard
/// registers' cached entries left out: their raw cached text surfaces only
/// through their fixed summaries.
pub open spec fn preview_of(entries: Seq<(char, Seq<Seq<char>>)>) -> Seq<(char, Seq<char>)>
    decreases entries.len(),
{
    if entries.len() == 0 {
        Seq::empty()
    } else {
        let rest = preview_of(entries.drop_last());
        let e = entries.last();
        if is_clipboard_name(e.0) {
            rest
        } else {
            rest.push((e.0, entry_preview(e.1)))
        }
    }
}

/// The fixed summaries every preview ends with, one per special register.
pub open spec fn fixed_previews() -> Seq<(char, Seq<char>)> {
    seq![
        ('_', "<empty>"@),
        ('#', "<selection indices>"@),
        ('.', "<selection contents>"@),
        ('%', "<document path>"@),
        ('*', "<system clipboard>"@),
        ('+', "<primary clipboard>"@),
    ]
}

/// The placeholder shown for an unsaved scratch buffer.
fn scratch_name() -> (r: String)
    ensures
        r@ == scratch_buffer_name(),
{
    String::from_str("[scratch]")
}

/// A copy of the given values in the same order.
fn clone_values(values: &Vec<String>) -> (r: Vec<String>)
    ensures
        r.deep_view() == values.deep_view(),
{
    let n = values.len();
    let mut r: Vec<String> = Vec::new();
    let mut i: usize = 0;
    while i < n
        invariant
            i <= n,
            n == values@.len(),
            r@.len() == i,
            forall|j: int| 0 <= j < i ==> #[trigger] r.deep_view()[j] == values.deep_view()[j],
        decreases n - i,
    {
        let ghost prev = r.deep_view();
        r.push(values[i].clone());
        proof {
            assert(r.deep_view() =~= prev.push(values.deep_view()[i as int]));
        }
        i += 1;
    }
    proof {
        assert(r.deep_view() =~= values.deep_view());
    }
    r
}

impl<C: ClipboardProvider> Registers<C> {
    /// Replaces (or creates) the entry carrying `name` with the given values,
    /// which arrive already in reversed storage order.
    fn put(&mut self, name: char, stored_vals: Vec<String>)
        requires
            old(self).wf(),
        ensures
            final(self).wf(),
            final(self).provider() == old(self).provider(),
            final(self).stored() == old(self).stored().insert(
                name,
                stored_vals.deep_view().reverse(),
            ),
            entries_insert(
                old(self).entries(),
                final(self).entries(),
                name,
                stored_vals.deep_view().reverse(),
            ),
    {
        let ghost prior = self.entries();
        let ghost vals = stored_vals.deep_view().reverse();
        let found = self.find_entry(name);
        match found {
            Option::Some(i) => {
                self.inner.remove(i);
                self.inner.insert(i, (name, stored_vals));
                proof {
                    assert(self.entries() =~= prior.update(i as int, (name, vals)));
                    lemma_lookup_update(prior, i as int, vals);
                    assert(forall|a: int|
                        0 <= a < prior.len() ==> #[trigger] prior.update(i as int, (name, vals))[a]
                            == (if a == i {
                            (name, vals)
                        } else {
                            prior[a]
                        }));
                    assert(unique_keys(self.entries()));
                    assert(self.stored() =~= old(self).stored().insert(name, vals));
                }
            },
            Option::None => {
                self.inner.push((name, stored_vals));
                proof {
                    assert(self.entries() =~= prior.push((name, vals)));
                    lemma_lookup_push(prior, (name, vals));
                    lemma_lookup_absent(prior, name);
                    assert(forall|a: int|
                        0 <= a < prior.len() ==> #[trigger] prior.push((name, vals))[a]
                            == prior[a]);
                    assert(prior.push((name, vals))[prior.len() as int] == (name, vals));
                    assert(unique_keys(self.entries()));
                    assert(self.stored() =~= old(self).stored().insert(name, vals));
                }
            },
        }
    }

    /// What a read of a non-clipboard register yields: an empty sequence for
    /// the black hole, computed sequences for `#`, `.` and `%`, and the
    /// stored sequence (or nothing) for a plain register.
    pub open spec fn computed_read(self, name: char, ctx: EditorContext) -> Option<Seq<Seq<char>>> {
        if name == '_' {
            Option::Some(Seq::<Seq<char>>::empty())
        } else if name == '#' {
            Option::Some(index_strings(ctx.selections@.len()))
        } else if name == '.' {
            Option::Some(ctx.selections.deep_view())
        } else if name == '%' {
            Option::Some(seq![doc_path_view(ctx)])
        } else {
            lookup(self.entries(), name)
        }
    }

    /// Reads a register. Yields `None` only for an undefined plain register;
    /// special registers always yield a sequence. A clipboard-backed read
    /// reconciles the cached fragments with the external clipboard text, and
    /// degrades to an empty sequence when the clipboard call fails. Never
    /// mutates state.
    pub fn read(&self, name: char, editor: &EditorContext) -> (r: Option<Vec<String>>)
        ensures
            !is_clipboard_name(name) ==> match r {
                Option::Some(v) => self.computed_read(name, *editor) == Option::Some(v.deep_view()),
                Option::None => self.computed_read(name, *editor) is None,
            },
            is_clipboard_name(name) ==> (r matches Option::Some(v) && (v.deep_view() == reconciled(
                self.cached(name),
                self.clip(clip_kind(name)),
            ) || (v@.len() == 0 && self.provider().may_fail()))),
    {
        if name == '_' {
            let r: Vec<String> = Vec::new();
            proof {
                assert(r.deep_view() =~= Seq::<Seq<char>>::empty());
            }
            Some(r)
        } else if name == '#' {
            Some(selection_index_values(editor.selections.len()))
        } else if name == '.' {
            Some(clone_values(&editor.selections))
        } else if name == '%' {
            let path = match &editor.path {
                Option::Some(p) => p.clone(),
                Option::None => scratch_name(),
            };
            let ghost pv = path@;
            let mut r: Vec<String> = Vec::new();
            r.push(path);
            proof {
                assert(r.deep_view() =~= seq![pv]);
            }
            Some(r)
        } else if name == '*' || name == '+' {
            let kind = kind_for(name);
            match self.find_entry(name) {
                Option::Some(i) => Some(
                    read_from_clipboard(&self.clipboard_provider, Some(&self.inner[i].1), kind),
                ),
                Option::None => Some(read_from_clipboard(&self.clipboard_provider, None, kind)),
            }
        } else {
            match self.find_entry(name) {
                Option::Some(i) => Some(reversed_clone(&self.inner[i].1)),
                Option::None => None,
            }
        }
    }

    /// Replaces a register's contents wholesale. The black hole succeeds and
    /// discards; computed registers reject; a clipboard register first sends
    /// the joined fragments to the external clipboard and caches them only on
    /// success; a plain register stores the fragments.
    pub fn write(&mut self, name: char, values: Vec<String>) -> (r: Result<(), RegisterError>)
        requires
            old(self).wf(),
        ensures
            final(self).wf(),
            final(self).provider().may_fail() == old(self).provider().may_fail(),
            name == '_' ==> r is Ok,
            is_computed_name(name) ==> (r matches Err(e) && e is UnsupportedOperation),
            (name == '_' || is_computed_name(name)) ==> final(self).entries() == old(self).entries()
                && final(self).provider() == old(self).provider(),
            !is_special_name(name) ==> r is Ok && final(self).stored() == old(self).stored().insert(
                name,
                values.deep_view(),
            ) && entries_insert(
                old(self).entries(),
                final(self).entries(),
                name,
                values.deep_view(),
            ) && final(self).provider() == old(self).provider(),
            is_clipboard_name(name) ==> match r {
                Result::Ok(_) => final(self).stored() == old(self).stored().insert(
                    name,
                    values.deep_view(),
                ) && entries_insert(
                    old(self).entries(),
                    final(self).entries(),
                    name,
                    values.deep_view(),
                ) && final(self).clip(clip_kind(name)) == join_with(
                    values.deep_view(),
                    line_ending(),
                ) && (forall|k: ClipboardType|
                    k != clip_kind(name) ==> #[trigger] final(self).clip(k) == old(self).clip(k)),
                Result::Err(e) => e is ClipboardFailure && old(self).provider().may_fail()
                    && final(self).entries() == old(self).entries() && (forall|k: ClipboardType|
                    #[trigger] final(self).clip(k) == old(self).clip(k)),
            },
    {
        if name == '_' {
            return Ok(());
        }
        if name == '#' || name == '.' || name == '%' {
            return Err(RegisterError::UnsupportedOperation);
        }
        let ghost dv = values.deep_view();
        if name == '*' || name == '+' {
            let kind = kind_for(name);
            let joined = join_values(&values, native_line_ending());
            match self.clipboard_provider.set_contents(joined, kind) {
                Result::Ok(_) => {
                    let stored_vals = reversed_clone(&values);
                    self.put(name, stored_vals);
                    proof {
                        assert(dv.reverse().reverse() =~= dv);
                    }
                    Ok(())
                },
                Result::Err(e) => Err(RegisterError::ClipboardFailure(e)),
            }
        } else {
            let stored_vals = reversed_clone(&values);
            self.put(name, stored_vals);
            proof {
                assert(dv.reverse().reverse() =~= dv);
            }
            Ok(())
        }
    }

    /// Appends one fragment to a register's logical end. The black hole
    /// succeeds and discards; computed registers reject; a clipboard register
    /// re-derives its effective fragments by the reconciliation test, appends,
    /// and sends the joined result to the external clipboard before caching;
    /// a plain register appends to its stored sequence (creating it first).
    pub fn push(&mut self, name: char, value: String) -> (r: Result<(), RegisterError>)
        requires
            old(self).wf(),
        ensures
            final(self).wf(),
            final(self).provider().may_fail() == old(self).provider().may_fail(),
            name == '_' ==> r is Ok,
            is_computed_name(name) ==> (r matches Err(e) && e is UnsupportedOperation),
            (name == '_' || is_computed_name(name)) ==> final(self).entries() == old(self).entries()
                && final(self).provider() == old(self).provider(),
            !is_special_name(name) ==> r is Ok && final(self).stored() == old(self).stored().insert(
                name,
                appended(old(self).stored(), name, value@),
            ) && final(self).provider() == old(self).provider(),
            is_clipboard_name(name) ==> match r {
                Result::Ok(_) => exists|eff: Seq<Seq<char>>|
                    {
                        &&& (eff == reconciled(
                            old(self).cached(name),
                            old(self).clip(clip_kind(name)),
                        ) || (eff == Seq::<Seq<char>>::empty() && old(self).provider().may_fail()))
                        &&& final(self).stored() == old(self).stored().insert(
                            name,
                            eff.push(value@),
                        )
                        &&& final(self).clip(clip_kind(name)) == join_with(
                            eff.push(value@),
                            line_ending(),
                        )
                        &&& (forall|k: ClipboardType|
                            k != clip_kind(name) ==> #[trigger] final(self).clip(k) == old(
                                self,
                            ).clip(k))
                    },
                Result::Err(e) => e is ClipboardFailure && old(self).provider().may_fail()
                    && final(self).entries() == old(self).entries() && (forall|k: ClipboardType|
                    #[trigger] final(self).clip(k) == old(self).clip(k)),
            },
    {
        if name == '_' {
            return Ok(());
        }
        if name == '#' || name == '.' || name == '%' {
            return Err(RegisterError::UnsupportedOperation);
        }
        if name == '*' || name == '+' {
            let kind = kind_for(name);
            let found = self.find_entry(name);
            let mut effective: Vec<String> = match found {
                Option::Some(i) => read_from_clipboard(
                    &self.clipboard_provider,
                    Some(&self.inner[i].1),
                    kind,
                ),
                Option::None => read_from_clipboard(&self.clipboard_provider, None, kind),
            };
            let ghost prev_eff = effective.deep_view();
            effective.push(value);
            proof {
                assert(effective.deep_view() =~= prev_eff.push(effective.deep_view()[
                    prev_eff.len() as int]));
            }
            let joined = join_values(&effective, native_line_ending());
            match self.clipboard_provider.set_contents(joined, kind) {
                Result::Ok(_) => {
                    let stored_vals = reversed_clone(&effective);
                    self.put(name, stored_vals);
                    proof {
                        assert(effective.deep_view().reverse().reverse() =~= effective.deep_view());
                    }
                    Ok(())
                },
                Result::Err(e) => Err(RegisterError::ClipboardFailure(e)),
            }
        } else {
            let found = self.find_entry(name);
            let ghost prior = self.entries();
            match found {
                Option::Some(i) => {
                    let ghost old_internal = self.inner@[i as int].1.deep_view();
                    let mut entry = self.inner.remove(i);
                    let ghost val_v = value@;
                    entry.1.insert(0, value);
                    proof {
                        assert(entry.1.deep_view() =~= seq![val_v] + old_internal);
                        assert((seq![val_v] + old_internal).reverse() =~= old_internal
                            .reverse().push(val_v));
                    }
                    self.inner.insert(i, entry);
                    proof {
                        assert(entry.0 == name);
                        assert(self.entries() =~= prior.update(
                            i as int,
                            (name, old_internal.reverse().push(val_v)),
                        ));
                        lemma_lookup_update(prior, i as int, old_internal.reverse().push(val_v));
                        assert(forall|a: int|
                            0 <= a < prior.len() ==> #[trigger] self.entries()[a] == (if a == i {
                                (name, old_internal.reverse().push(val_v))
                            } else {
                                prior[a]
                            }));
                        assert(unique_keys(self.entries()));
                        assert(appended(old(self).stored(), name, val_v) == old_internal
                            .reverse().push(val_v));
                        assert(self.stored() =~= old(self).stored().insert(
                            name,
                            appended(old(self).stored(), name, val_v),
                        ));
                    }
                    Ok(())
                },
                Option::None => {
                    let ghost val_v = value@;
                    let mut single: Vec<String> = Vec::new();
                    single.push(value);
                    proof {
                        assert(single.deep_view() =~= seq![val_v]);
                        assert(single.deep_view().reverse() =~= seq![val_v]);
                        assert(appended(old(self).stored(), name, val_v) =~= seq![val_v]);
                    }
                    self.put(name, single);
                    Ok(())
                },
            }
        }
    }

    /// The logically-first fragment a read of the register yields, if any.
    pub fn first(&self, name: char, editor: &EditorContext) -> (r: Option<String>)
        ensures
            !is_clipboard_name(name) ==> match self.computed_read(name, *editor) {
                Option::Some(vals) => if vals.len() == 0 {
                    r is None
                } else {
                    r matches Some(s) && s@ == vals[0]
                },
                Option::None => r is None,
            },
            is_clipboard_name(name) ==> ((r matches Some(s) && s@ == reconciled(
                self.cached(name),
                self.clip(clip_kind(name)),
            )[0]) || (r is None && self.provider().may_fail())),
    {
        proof {
            assert(reconciled(self.cached(name), self.clip(clip_kind(name))).len() >= 1);
        }
        match self.read(name, editor) {
            Option::Some(mut values) => {
                if values.len() > 0 {
                    Some(values.remove(0))
                } else {
                    None
                }
            },
            Option::None => None,
        }
    }

    /// The logically-last fragment a read of the register yields, if any.
    pub fn last(&self, name: char, editor: &EditorContext) -> (r: Option<String>)
        ensures
            !is_clipboard_name(name) ==> match self.computed_read(name, *editor) {
                Option::Some(vals) => if vals.len() == 0 {
                    r is None
                } else {
                    r matches Some(s) && s@ == vals.last()
                },
                Option::None => r is None,
            },
            is_clipboard_name(name) ==> ((r matches Some(s) && s@ == reconciled(
                self.cached(name),
                self.clip(clip_kind(name)),
            ).last()) || (r is None && self.provider().may_fail())),
    {
        proof {
            assert(reconciled(self.cached(name), self.clip(clip_kind(name))).len() >= 1);
        }
        match self.read(name, editor) {
            Option::Some(mut values) => values.pop(),
            Option::None => None,
        }
    }

    /// One line per register: a summary of every stored plain entry in
    /// insertion order, then the fixed summaries of the special registers.
    pub fn iter_preview(&self) -> (r: Vec<(char, String)>)
        ensures
            r@.map_values((|p: (char, String)| (p.0, p.1@))) == preview_of(self.entries())
                + fixed_previews(),
    {
        let ghost f = (|p: (char, String)| (p.0, p.1@));
        let mut r: Vec<(char, String)> = Vec::new();
        let n = self.inner.len();
        proof {
            assert(r@.map_values(f) =~= preview_of(self.entries().take(0)));
        }
        let mut i: usize = 0;
        while i < n
            invariant
                i <= n,
                n == self.inner@.len(),
                r@.map_values(f) == preview_of(self.entries().take(i as int)),
                f == (|p: (char, String)| (p.0, p.1@)),
            decreases n - i,
        {
            let name = self.inner[i].0;
            let ghost prev_m = r@.map_values(f);
            proof {
                assert(self.entries().take(i + 1 as int).drop_last() =~= self.entries().take(
                    i as int,
                ));
                assert(self.entries().take(i + 1 as int).last() == self.entries()[i as int]);
            }
            if !(name == '*' || name == '+') {
                let vlen = self.inner[i].1.len();
                let summary: String;
                if vlen == 0 {
                    summary = String::from_str("<empty>");
                } else {
                    let frag = &self.inner[i].1[0];
                    if frag.as_str().unicode_len() == 0 {
                        summary = String::from_str("<empty>");
                    } else {
                        summary = first_line(frag.as_str());
                    }
                }
                proof {
                    let vals = self.entries()[i as int].1;
                    assert(vals.len() == self.inner@[i as int].1.deep_view().len());
                    if vals.len() > 0 {
                        assert(vals.last() == self.inner@[i as int].1.deep_view()[0]);
                    }
                    assert(summary@ == entry_preview(vals));
                }
                let ghost sm = summary@;
                r.push((name, summary));
                proof {
                    assert(r@.map_values(f) =~= prev_m.push((name, sm)));
                }
            }
            i += 1;
        }
        proof {
            assert(self.entries().take(n as int) =~= self.entries());
        }
        let ghost base = r@.map_values(f);
        r.push(('_', String::from_str("<empty>")));
        r.push(('#', String::from_str("<selection indices>")));
        r.push(('.', String::from_str("<selection contents>")));
        r.push(('%', String::from_str("<document path>")));
        r.push(('*', String::from_str("<system clipboard>")));
        r.push(('+', String::from_str("<primary clipboard>")));
        proof {
            assert(r@.map_values(f) =~= base + fixed_previews());
        }
        r
    }
}

} // verus!
