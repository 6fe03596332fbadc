//! Verified string helpers: joining fragments with a separator, matching a
//! fragment at a position, extracting the first line, and rendering decimal
//! numbers.

use vstd::prelude::*;
use vstd::string::StrSliceExecFns;
use vstd::string::StringExecFns;

verus! {

/// The native line-separator used when fragments are joined into the single
/// flat string a clipboard holds.
pub open spec fn line_ending() -> Seq<char> {
    seq!['\n']
}

/// Executable counterpart of [`line_ending`].
pub fn native_line_ending() -> (r: &'static str)
    ensures
        r@ == line_ending(),
{
    proof {
        reveal_strlit("\n");
        assert("\n"@ =~= seq!['\n']);
    }
    "\n"
}

/// The fragments joined oldest-first, with `sep` between each adjacent pair.
pub open spec fn join_with(vals: Seq<Seq<char>>, sep: Seq<char>) -> Seq<char>
    decreases vals.len(),
{
    if vals.len() == 0 {
        Seq::empty()
    } else if vals.len() == 1 {
        vals[0]
    } else {
        vals[0] + sep + join_with(vals.drop_first(), sep)
    }
}

/// Appending one fragment extends the joined string by a separator and the
/// fragment (or is the fragment itself when nothing was joined yet).
pub proof fn lemma_join_push(vals: Seq<Seq<char>>, sep: Seq<char>, x: Seq<char>)
    ensures
        join_with(vals.push(x), sep) == if vals.len() == 0 {
            x
        } else {
            join_with(vals, sep) + sep + x
        },
    decreases vals.len(),
{
    if vals.len() == 0 {
        assert(join_with(vals.push(x), sep) == vals.push(x)[0]);
        assert(vals.push(x)[0] == x);
    } else {
        assert(vals.push(x).drop_first() =~= vals.drop_first().push(x));
        lemma_join_push(vals.drop_first(), sep, x);
        if vals.len() == 1 {
            assert(join_with(vals.push(x), sep) == vals[0] + sep + x);
            assert(join_with(vals, sep) == vals[0]);
        } else {
            assert(join_with(vals.push(x), sep) == vals[0] + sep + (join_with(
                vals.drop_first(),
                sep,
            ) + sep + x));
            assert(vals[0] + sep + (join_with(vals.drop_first(), sep) + sep + x) =~= (vals[0] + sep
                + join_with(vals.drop_first(), sep)) + sep + x);
        }
    }
}

/// Splitting the joined string at a fragment boundary: the part before the
/// boundary, the separator, and the part after.
pub proof fn lemma_join_split(vals: Seq<Seq<char>>, sep: Seq<char>, k: int)
    requires
        1 <= k < vals.len(),
    ensures
        join_with(vals, sep) == join_with(vals.take(k), sep) + sep + join_with(
            vals.skip(k),
            sep,
        ),
    decreases k,
{
    if k == 1 {
        assert(vals.take(1) =~= seq![vals[0]]);
        assert(vals.skip(1) =~= vals.drop_first());
        assert(join_with(vals.take(1), sep) == vals[0]);
    } else {
        lemma_join_split(vals.drop_first(), sep, k - 1);
        assert(vals.drop_first().take(k - 1) =~= vals.take(k).drop_first());
        assert(vals.drop_first().skip(k - 1) =~= vals.skip(k));
        assert(join_with(vals, sep) == vals[0] + sep + join_with(vals.drop_first(), sep));
        assert(join_with(vals.take(k), sep) == vals.take(k)[0] + sep + join_with(
            vals.take(k).drop_first(),
            sep,
        ));
        assert(vals[0] + sep + (join_with(vals.drop_first().take(k - 1), sep) + sep + join_with(
            vals.drop_first().skip(k - 1),
            sep,
        )) =~= (vals[0] + sep + join_with(vals.drop_first().take(k - 1), sep)) + sep + join_with(
            vals.drop_first().skip(k - 1),
            sep,
        ));
    }
}

/// The joined string begins with the first fragment.
pub proof fn lemma_join_first(vals: Seq<Seq<char>>, sep: Seq<char>)
    requires
        vals.len() >= 1,
    ensures
        join_with(vals, sep).len() >= vals[0].len(),
        join_with(vals, sep).subrange(0, vals[0].len() as int) == vals[0],
{
    if vals.len() == 1 {
        assert(join_with(vals, sep).subrange(0, vals[0].len() as int) =~= vals[0]);
    } else {
        assert(join_with(vals, sep) == vals[0] + sep + join_with(vals.drop_first(), sep));
        assert(join_with(vals, sep).subrange(0, vals[0].len() as int) =~= vals[0]);
    }
}

/// Joins the given fragments, oldest-first, with `sep` between each pair.
pub fn join_values(values: &Vec<String>, sep: &str) -> (r: String)
    ensures
        r@ == join_with(values.deep_view(), sep@),
{
    let n = values.len();
    if n == 0 {
        String::new()
    } else {
        let mut r = values[0].clone();
        proof {
            assert(values.deep_view().take(1) =~= seq![values.deep_view()[0]]);
        }
        let mut i: usize = 1;
        while i < n
            invariant
                1 <= i <= n,
                n == values@.len(),
                r@ == join_with(values.deep_view().take(i as int), sep@),
            decreases n - i,
        {
            r.append(sep);
            r.append(values[i].as_str());
            proof {
                lemma_join_push(values.deep_view().take(i as int), sep@, values.deep_view()[i as int]);
                assert(values.deep_view().take(i as int).push(values.deep_view()[i as int])
                    =~= values.deep_view().take(i + 1 as int));
            }
            i += 1;
        }
        proof {
            assert(values.deep_view().take(n as int) =~= values.deep_view());
        }
        r
    }
}

/// Whether `needle` occurs in `hay` exactly at character position `pos`.
pub fn matches_at(hay: &str, pos: usize, needle: &str) -> (r: bool)
    requires
        pos <= hay@.len(),
    ensures
        r == (pos + needle@.len() <= hay@.len() && hay@.subrange(
            pos as int,
            pos + needle@.len(),
        ) == needle@),
{
    let hn = hay.unicode_len();
    let nn = needle.unicode_len();
    if nn > hn - pos {
        return false;
    }
    let mut j: usize = 0;
    while j < nn
        invariant
            j <= nn,
            pos + nn <= hn,
            hn == hay@.len(),
            nn == needle@.len(),
            forall|k: int| 0 <= k < j ==> hay@[pos + k] == needle@[k],
        decreases nn - j,
    {
        if hay.get_char(pos + j) != needle.get_char(j) {
            proof {
                assert(hay@.subrange(pos as int, pos + needle@.len())[j as int] == hay@[pos + j]);
            }
            return false;
        }
        j += 1;
    }
    proof {
        assert(hay@.subrange(pos as int, pos + needle@.len()) =~= needle@);
    }
    true
}

/// The character standing for a single decimal digit.
pub open spec fn digit_char(d: nat) -> char {
    if d == 0 {
        '0'
    } else if d == 1 {
        '1'
    } else if d == 2 {
        '2'
    } else if d == 3 {
        '3'
    } else if d == 4 {
        '4'
    } else if d == 5 {
        '5'
    } else if d == 6 {
        '6'
    } else if d == 7 {
        '7'
    } else if d == 8 {
        '8'
    } else {
        '9'
    }
}

/// The decimal rendering of `n`, without leading zeros (a single `'0'` for 0).
pub open spec fn decimal(n: nat) -> Seq<char>
    decreases n,
{
    if n < 10 {
        seq![digit_char(n)]
    } else {
        decimal(n / 10).push(digit_char(n % 10))
    }
}

fn digit_str(d: usize) -> (r: &'static str)
    requires
        d < 10,
    ensures
        r@ == seq![digit_char(d as nat)],
{
    if d == 0 {
        proof {
            reveal_strlit("0");
            assert("0"@ =~= seq![digit_char(0)]);
        }
        "0"
    } else if d == 1 {
        proof {
            reveal_strlit("1");
            assert("1"@ =~= seq![digit_char(1)]);
        }
        "1"
    } else if d == 2 {
        proof {
            reveal_strlit("2");
            assert("2"@ =~= seq![digit_char(2)]);
        }
        "2"
    } else if d == 3 {
        proof {
            reveal_strlit("3");
            assert("3"@ =~= seq![digit_char(3)]);
        }
        "3"
    } else if d == 4 {
        proof {
            reveal_strlit("4");
            assert("4"@ =~= seq![digit_char(4)]);
        }
        "4"
    } else if d == 5 {
        proof {
            reveal_strlit("5");
            assert("5"@ =~= seq![digit_char(5)]);
        }
        "5"
    } else if d == 6 {
        proof {
            reveal_strlit("6");
            assert("6"@ =~= seq![digit_char(6)]);
        }
        "6"
    } else if d == 7 {
        proof {
            reveal_strlit("7");
            assert("7"@ =~= seq![digit_char(7)]);
        }
        "7"
    } else if d == 8 {
        proof {
            reveal_strlit("8");
            assert("8"@ =~= seq![digit_char(8)]);
        }
        "8"
    } else {
        proof {
            reveal_strlit("9");
            assert("9"@ =~= seq![digit_char(9)]);
        }
        "9"
    }
}

/// Renders `n` in decimal.
pub fn decimal_string(n: usize) -> (r: String)
    ensures
        r@ == decimal(n as nat),
    decreases n,
{
    if n < 10 {
        String::from_str(digit_str(n))
    } else {
        let mut r = decimal_string(n / 10);
        r.append(digit_str(n % 10));
        proof {
            assert(decimal((n / 10) as nat) + seq![digit_char((n % 10) as nat)] =~= decimal(
                (n / 10) as nat,
            ).push(digit_char((n % 10) as nat)));
        }
        r
    }
}

/// The decimal names of the selections `1..=n`, in order.
pub open spec fn index_strings(n: nat) -> Seq<Seq<char>> {
    Seq::new(n, |i: int| decimal((i + 1) as nat))
}

/// The values the selection-index register yields for `n` live selections.
pub fn selection_index_values(n: usize) -> (r: Vec<String>)
    ensures
        r.deep_view() == index_strings(n as nat),
{
    let mut r: Vec<String> = Vec::new();
    proof {
        assert(r.deep_view() =~= index_strings(0));
    }
    let mut i: usize = 0;
    while i < n
        invariant
            i <= n,
            r.deep_view() == index_strings(i as nat),
        decreases n - i,
    {
        let ghost prev = r.deep_view();
        r.push(decimal_string(i + 1));
        proof {
            assert(r.deep_view() =~= prev.push(decimal((i + 1) as nat)));
            assert(index_strings(i as nat).push(decimal((i + 1) as nat)) =~= index_strings(
                (i + 1) as nat,
            ));
        }
        i += 1;
    }
    r
}

/// The character position of the first `'\n'` in `s`, or `s.len()`.
pub open spec fn first_newline(s: Seq<char>) -> int
    decreases s.len(),
{
    if s.len() == 0 {
        0
    } else if s[0] == '\n' {
        0
    } else {
        1 + first_newline(s.drop_first())
    }
}

/// A position with no `'\n'` before it, and `'\n'` (or the end) at it, is the
/// first newline.
pub proof fn lemma_first_newline_at(s: Seq<char>, i: int)
    requires
        0 <= i <= s.len(),
        forall|j: int| 0 <= j < i ==> s[j] != '\n',
        i < s.len() ==> s[i] == '\n',
    ensures
        first_newline(s) == i,
    decreases s.len(),
{
    if s.len() == 0 {
    } else if s[0] == '\n' {
    } else {
        lemma_first_newline_at(s.drop_first(), i - 1);
    }
}

/// The first line of `s`: everything before the first `'\n'`, with one
/// trailing `'\r'` stripped.
pub open spec fn first_line_of(s: Seq<char>) -> Seq<char> {
    let p = s.subrange(0, first_newline(s));
    if p.len() > 0 && p.last() == '\r' {
        p.drop_last()
    } else {
        p
    }
}

/// Extracts the first line of `s`.
pub fn first_line(s: &str) -> (r: String)
    ensures
        r@ == first_line_of(s@),
{
    let n = s.unicode_len();
    let mut i: usize = 0;
    while i < n && s.get_char(i) != '\n'
        invariant
            i <= n,
            n == s@.len(),
            forall|j: int| 0 <= j < i ==> s@[j] != '\n',
        decreases n - i,
    {
        i += 1;
    }
    proof {
        lemma_first_newline_at(s@, i as int);
    }
    let end = if i > 0 && s.get_char(i - 1) == '\r' {
        i - 1
    } else {
        i
    };
    proof {
        if i > 0 && s@[i - 1] == '\r' {
            assert(s@.subrange(0, end as int) =~= s@.subrange(0, i as int).drop_last());
        }
    }
    let p = s.substring_char(0, end);
    p.to_owned()
}

} // verus!
