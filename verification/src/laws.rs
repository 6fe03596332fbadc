//! The store's laws, stated over the same spec functions its operations'
//! contracts use, and proved once and for all.

use vstd::prelude::*;

use crate::clipboard::ClipboardProvider;
use crate::reconcile::contents_match;
use crate::reconcile::reconciled;
use crate::registers::appended;
use crate::registers::clip_kind;
use crate::registers::fixed_previews;
use crate::registers::is_clipboard_name;
use crate::registers::is_computed_name;
use crate::registers::is_special_name;
use crate::registers::preview_of;
use crate::registers::EditorContext;
use crate::registers::Registers;
use crate::strings::join_with;
use crate::strings::line_ending;

verus! {

/// A register's stored mapping and its cached entry agree: a name is in the
/// mapping exactly when it has a cached entry, and with the same value.
pub proof fn lemma_cached_of_stored<C: ClipboardProvider>(r: Registers<C>, name: char)
    ensures
        r.stored().contains_key(name) <==> r.cached(name) is Some,
        r.cached(name) matches Some(vals) ==> r.stored()[name] == vals,
{
}

/// Writing a plain register, then reading it, yields exactly the written
/// values in the same order: `write`'s contract leaves the store's mapping
/// with the written sequence under `name`, and a read then yields it.
pub proof fn lemma_write_then_read<C: ClipboardProvider>(
    before: Registers<C>,
    after: Registers<C>,
    name: char,
    vals: Seq<Seq<char>>,
    ctx: EditorContext,
)
    requires
        !is_special_name(name),
        after.stored() == before.stored().insert(name, vals),
    ensures
        after.computed_read(name, ctx) == Option::Some(vals),
{
    assert(after.stored().contains_key(name));
    assert(after.stored()[name] == vals);
}

/// Pushing onto a plain register appends the fragment to the end of what a
/// read yielded before, however many pushes came earlier; on an undefined
/// register it creates the one-fragment sequence.
pub proof fn lemma_push_then_read<C: ClipboardProvider>(
    before: Registers<C>,
    after: Registers<C>,
    name: char,
    value: Seq<char>,
    ctx: EditorContext,
)
    requires
        !is_special_name(name),
        after.stored() == before.stored().insert(name, appended(before.stored(), name, value)),
    ensures
        match before.computed_read(name, ctx) {
            Option::Some(prior) => after.computed_read(name, ctx) == Option::Some(
                prior.push(value),
            ),
            Option::None => after.computed_read(name, ctx) == Option::Some(seq![value]),
        },
{
    assert(after.stored().contains_key(name));
    assert(after.stored()[name] == appended(before.stored(), name, value));
    if before.computed_read(name, ctx) is None {
        assert(!before.stored().contains_key(name));
        assert(Seq::<Seq<char>>::empty().push(value) =~= seq![value]);
    } else {
        let prior = before.computed_read(name, ctx).unwrap();
        assert(before.stored().contains_key(name));
        assert(before.stored()[name] == prior);
    }
}

/// What a computed register (`#`, `.`, `%`) or the black hole yields depends
/// on the live editor context alone, never on stored plain-register data.
pub proof fn lemma_computed_read_ignores_store<C: ClipboardProvider>(
    a: Registers<C>,
    b: Registers<C>,
    name: char,
    ctx: EditorContext,
)
    requires
        name == '_' || is_computed_name(name),
    ensures
        a.computed_read(name, ctx) == b.computed_read(name, ctx),
{
}

/// The black hole always reads as the empty sequence, whatever was written
/// or pushed into it.
pub proof fn lemma_black_hole_reads_empty<C: ClipboardProvider>(r: Registers<C>, ctx: EditorContext)
    ensures
        r.computed_read('_', ctx) == Option::Some(Seq::<Seq<char>>::empty()),
{
}

/// Clipboard round trip: when the cached fragments are what was last written
/// and the external clipboard still holds exactly their joined text, a
/// clipboard-backed read reconciles to the cached fragments, preserving
/// per-selection granularity.
pub proof fn lemma_clipboard_round_trip<C: ClipboardProvider>(
    r: Registers<C>,
    name: char,
    vals: Seq<Seq<char>>,
)
    requires
        is_clipboard_name(name),
        vals.len() > 0,
        r.cached(name) == Option::Some(vals),
        r.clip(clip_kind(name)) == join_with(vals, line_ending()),
    ensures
        reconciled(r.cached(name), r.clip(clip_kind(name))) == vals,
{
}

/// Clipboard divergence: when the external clipboard no longer matches the
/// cached fragments (or nothing is cached), a clipboard-backed read yields
/// the external text as a single opaque fragment, discarding the cache.
pub proof fn lemma_clipboard_divergence(cache: Option<Seq<Seq<char>>>, contents: Seq<char>)
    requires
        cache matches Some(vals) ==> !contents_match(vals, contents),
    ensures
        reconciled(cache, contents) == seq![contents],
{
}

/// After a plain register is removed, reading it yields no value.
pub proof fn lemma_remove_then_read<C: ClipboardProvider>(
    before: Registers<C>,
    after: Registers<C>,
    name: char,
    ctx: EditorContext,
)
    requires
        !is_special_name(name),
        after.stored() == before.stored().remove(name),
    ensures
        after.computed_read(name, ctx) is None,
{
    assert(!after.stored().contains_key(name));
}

/// After `clear`, a preview shows only the fixed special-register summaries.
pub proof fn lemma_clear_preview<C: ClipboardProvider>(r: Registers<C>)
    requires
        r.entries() == Seq::<(char, Seq<Seq<char>>)>::empty(),
    ensures
        preview_of(r.entries()) + fixed_previews() == fixed_previews(),
{
    assert(preview_of(r.entries()) + fixed_previews() =~= fixed_previews());
}

} // verus!
