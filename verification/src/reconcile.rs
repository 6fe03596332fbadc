//! Clipboard reconciliation: deciding, on every clipboard-backed read,
//! whether the store's cached per-fragment breakdown still matches the flat
//! string the external clipboard holds, or whether that string must be
//! treated as one opaque fragment.

use vstd::prelude::*;
use vstd::string::StrSliceExecFns;

use crate::clipboard::ClipboardProvider;
use crate::clipboard::ClipboardType;
use crate::strings::join_with;
use crate::strings::lemma_join_first;
use crate::strings::lemma_join_push;
use crate::strings::lemma_join_split;
use crate::strings::line_ending;
use crate::strings::matches_at;
use crate::strings::native_line_ending;

verus! {

/// Whether the flat clipboard text is exactly the cached fragments joined
/// oldest-first with the native line ending. An empty cache matches nothing:
/// a clipboard register is never cached empty-handed.
pub open spec fn contents_match(vals: Seq<Seq<char>>, contents: Seq<char>) -> bool {
    vals.len() > 0 && contents == join_with(vals, line_ending())
}

/// The fragment sequence a clipboard-backed read yields: the cached fragments
/// when they reconstruct the clipboard text exactly, the raw text as one
/// opaque fragment otherwise.
pub open spec fn reconciled(cache: Option<Seq<Seq<char>>>, contents: Seq<char>) -> Seq<Seq<char>> {
    match cache {
        Option::None => seq![contents],
        Option::Some(vals) => if contents_match(vals, contents) {
            vals
        } else {
            seq![contents]
        },
    }
}

/// The cached fragments in logical (oldest-first) order, given the stored
/// sequence, which keeps them reversed.
pub open spec fn saved_view(saved_values: Option<&Vec<String>>) -> Option<Seq<Seq<char>>> {
    match saved_values {
        Option::None => Option::None,
        Option::Some(v) => Option::Some(v.deep_view().reverse()),
    }
}

/// In a joined string, fragment `k` stands right after the first `k`
/// fragments and one more separator.
proof fn lemma_boundary(vals: Seq<Seq<char>>, sep: Seq<char>, contents: Seq<char>, k: int)
    requires
        contents == join_with(vals, sep),
        1 <= k < vals.len(),
    ensures
        ({
            let pre = join_with(vals.take(k), sep);
            &&& contents.len() >= pre.len() + sep.len() + vals[k].len()
            &&& contents.subrange(pre.len() as int, (pre.len() + sep.len()) as int) == sep
            &&& contents.subrange(
                (pre.len() + sep.len()) as int,
                (pre.len() + sep.len() + vals[k].len()) as int,
            ) == vals[k]
        }),
{
    lemma_join_split(vals, sep, k);
    lemma_join_first(vals.skip(k), sep);
    let pre = join_with(vals.take(k), sep);
    let rest = join_with(vals.skip(k), sep);
    assert(vals.skip(k)[0] == vals[k]);
    assert(contents == pre + sep + rest);
    assert(contents.subrange(pre.len() as int, (pre.len() + sep.len()) as int) =~= sep);
    assert(contents.subrange(
        (pre.len() + sep.len()) as int,
        (pre.len() + sep.len() + vals[k].len()) as int,
    ) =~= rest.subrange(0, vals[k].len() as int));
}

/// Tests whether the clipboard text is exactly reconstructible from the
/// stored fragments (given in reversed storage order), matched greedily
/// against each fragment boundary, oldest fragment first.
pub fn contents_are_saved(saved_values: &Vec<String>, contents: &str) -> (r: bool)
    ensures
        r == contents_match(saved_values.deep_view().reverse(), contents@),
{
    let ghost vals = saved_values.deep_view().reverse();
    let n = saved_values.len();
    if n == 0 {
        return false;
    }
    let sep = native_line_ending();
    let total = contents.unicode_len();
    let first_frag = &saved_values[n - 1];
    proof {
        assert(vals[0] == first_frag@);
    }
    if !matches_at(contents, 0, first_frag.as_str()) {
        proof {
            if contents_match(vals, contents@) {
                lemma_join_first(vals, line_ending());
            }
        }
        return false;
    }
    let mut pos: usize = first_frag.as_str().unicode_len();
    proof {
        assert(vals.take(1) =~= seq![vals[0]]);
        assert(contents@.subrange(0, pos as int) == join_with(vals.take(1), line_ending()));
    }
    let mut k: usize = 1;
    while k < n
        invariant
            1 <= k <= n,
            n == saved_values@.len(),
            vals == saved_values.deep_view().reverse(),
            total == contents@.len(),
            pos <= total,
            pos == join_with(vals.take(k as int), line_ending()).len(),
            contents@.subrange(0, pos as int) == join_with(vals.take(k as int), line_ending()),
            sep@ == line_ending(),
        decreases n - k,
    {
        let frag = &saved_values[n - 1 - k];
        proof {
            assert(vals[k as int] == frag@);
        }
        let sep_matches = matches_at(contents, pos, sep);
        let mut frag_matches = false;
        let sep_len = sep.unicode_len();
        if sep_matches {
            frag_matches = matches_at(contents, pos + sep_len, frag.as_str());
        }
        if !(sep_matches && frag_matches) {
            proof {
                if contents_match(vals, contents@) {
                    lemma_boundary(vals, line_ending(), contents@, k as int);
                }
            }
            return false;
        }
        let ghost pre = join_with(vals.take(k as int), line_ending());
        let frag_len = frag.as_str().unicode_len();
        pos = pos + sep_len + frag_len;
        proof {
            lemma_join_push(vals.take(k as int), line_ending(), vals[k as int]);
            assert(vals.take(k as int).push(vals[k as int]) =~= vals.take(k + 1 as int));
            assert(contents@.subrange(0, pos as int) =~= pre + line_ending() + vals[k as int]);
        }
        k += 1;
    }
    proof {
        assert(vals.take(n as int) =~= vals);
    }
    if pos == total {
        proof {
            assert(contents@.subrange(0, pos as int) =~= contents@);
        }
        true
    } else {
        false
    }
}

/// Reconciles a fetched clipboard text against the cached fragments: yields
/// the cache, oldest-first, when the text is exactly reconstructible from it,
/// and the raw text as a single fragment otherwise.
pub fn reconcile_values(saved_values: Option<&Vec<String>>, contents: String) -> (r: Vec<String>)
    ensures
        r.deep_view() == reconciled(saved_view(saved_values), contents@),
{
    match saved_values {
        Option::None => singleton(contents),
        Option::Some(vals) => {
            if contents_are_saved(vals, contents.as_str()) {
                reversed_clone(vals)
            } else {
                singleton(contents)
            }
        },
    }
}

/// A one-fragment sequence holding the given value.
fn singleton(value: String) -> (r: Vec<String>)
    ensures
        r.deep_view() == seq![value@],
{
    let ghost v = value@;
    let mut r: Vec<String> = Vec::new();
    r.push(value);
    proof {
        assert(r.deep_view() =~= seq![v]);
    }
    r
}

/// A copy of the given values in reverse order.
pub fn reversed_clone(values: &Vec<String>) -> (r: Vec<String>)
    ensures
        r.deep_view() == values.deep_view().reverse(),
{
    let n = values.len();
    let mut r: Vec<String> = Vec::new();
    let mut i: usize = 0;
    while i < n
        invariant
            i <= n,
            n == values@.len(),
            r@.len() == i,
            forall|j: int| 0 <= j < i ==> #[trigger] r.deep_view()[j] == values.deep_view()[n - 1
                - j],
        decreases n - i,
    {
        let ghost prev = r.deep_view();
        r.push(values[n - 1 - i].clone());
        proof {
            assert(r.deep_view() =~= prev.push(values.deep_view()[n - 1 - i]));
        }
        i += 1;
    }
    proof {
        assert(r.deep_view() =~= values.deep_view().reverse());
    }
    r
}

/// Reads a clipboard register: fetches the clipboard text of the given kind
/// and reconciles it against the cached fragments. On a failed fetch the read
/// degrades to an empty sequence; a reconciled read is never empty.
pub fn read_from_clipboard<C: ClipboardProvider>(
    provider: &C,
    saved_values: Option<&Vec<String>>,
    clipboard_type: ClipboardType,
) -> (r: Vec<String>)
    ensures
        r.deep_view() == reconciled(saved_view(saved_values), provider.contents(clipboard_type))
            || (r@.len() == 0 && provider.may_fail()),
{
    match provider.get_contents(clipboard_type) {
        Ok(contents) => reconcile_values(saved_values, contents),
        Err(_) => Vec::new(),
    }
}

} // verus!
