//! Extraction of flag values from a compiler command line.
//!
//! A flag occurrence is a single space followed by the flag text (`-D`,
//! `-I`, ...). Its value is the run of non-whitespace characters that follows,
//! optionally after one whitespace character for flags that accept a
//! separated value. Occurrences never overlap: the search resumes where the
//! previous value ended.
use vstd::prelude::*;

verus! {

/// Unicode `White_Space` characters.
pub open spec fn is_ws(c: char) -> bool {
    ('\t' <= c && c <= '\r') || c == ' ' || c == '\u{85}' || c == '\u{a0}' || c == '\u{1680}'
        || ('\u{2000}' <= c && c <= '\u{200a}') || c == '\u{2028}' || c == '\u{2029}'
        || c == '\u{202f}' || c == '\u{205f}' || c == '\u{3000}'
}

/// The views of a sequence of strings.
pub open spec fn views(v: Seq<String>) -> Seq<Seq<char>> {
    v.map_values(|x: String| x@)
}

/// First position at or after `i` that holds whitespace, or the end of `s`.
pub open spec fn token_end(s: Seq<char>, i: int) -> int
    decreases s.len() - i,
{
    if 0 <= i < s.len() && !is_ws(s[i]) {
        token_end(s, i + 1)
    } else {
        i
    }
}

/// A space at `i`, directly followed by `flag`.
pub open spec fn flag_at(s: Seq<char>, i: int, flag: Seq<char>) -> bool {
    0 <= i && i + 1 + flag.len() <= s.len() && s[i] == ' ' && s.subrange(i + 1, i + 1 + flag.len())
        == flag
}

/// Where the value of a flag found at `i` begins; with `sep`, one whitespace
/// character after the flag is skipped.
pub open spec fn value_start(s: Seq<char>, i: int, flag: Seq<char>, sep: bool) -> int {
    let j = i + 1 + flag.len();
    if sep && j < s.len() && is_ws(s[j]) {
        j + 1
    } else {
        j
    }
}

/// The values of all occurrences of `flag` found from position `i` on, left to right.
pub open spec fn flag_values(s: Seq<char>, i: int, flag: Seq<char>, sep: bool) -> Seq<Seq<char>>
    decreases s.len() - i,
{
    if i < 0 || i >= s.len() {
        seq![]
    } else if flag_at(s, i, flag) {
        let b = value_start(s, i, flag, sep);
        let e = token_end(s, b);
        if i < b <= e <= s.len() {
            seq![s.subrange(b, e)] + flag_values(s, e, flag, sep)
        } else {
            seq![]
        }
    } else {
        flag_values(s, i + 1, flag, sep)
    }
}

pub proof fn lemma_token_end(s: Seq<char>, i: int)
    requires
        0 <= i <= s.len(),
    ensures
        i <= token_end(s, i) <= s.len(),
        token_end(s, i) == s.len() || is_ws(s[token_end(s, i)]),
        forall|k: int| i <= k < token_end(s, i) ==> !is_ws(#[trigger] s[k]),
    decreases s.len() - i,
{
    if i < s.len() && !is_ws(s[i]) {
        lemma_token_end(s, i + 1);
    }
}

/// Whether `c` is a Unicode `White_Space` character.
pub fn is_whitespace(c: char) -> (r: bool)
    ensures
        r == is_ws(c),
{
    ('\t' <= c && c <= '\r') || c == ' ' || c == '\u{85}' || c == '\u{a0}' || c == '\u{1680}'
        || ('\u{2000}' <= c && c <= '\u{200a}') || c == '\u{2028}' || c == '\u{2029}'
        || c == '\u{202f}' || c == '\u{205f}' || c == '\u{3000}'
}

/// The characters of `s`, one per element.
pub fn chars_of(s: &str) -> (r: Vec<char>)
    ensures
        r@ == s@,
{
    let n = s.unicode_len();
    let mut r: Vec<char> = Vec::new();
    let mut i: usize = 0;
    while i < n
        invariant
            n == s@.len(),
            i <= n,
            r@ == s@.subrange(0, i as int),
        decreases n - i,
    {
        r.push(s.get_char(i));
        i = i + 1;
    }
    assert(r@ =~= s@);
    r
}

fn token_end_exec(cs: &Vec<char>, i: usize) -> (e: usize)
    requires
        i <= cs@.len(),
    ensures
        e == token_end(cs@, i as int),
{
    let mut e = i;
    while e < cs.len() && !is_whitespace(cs[e])
        invariant
            i <= e <= cs@.len(),
            token_end(cs@, e as int) == token_end(cs@, i as int),
        decreases cs@.len() - e,
    {
        e = e + 1;
    }
    e
}

fn flag_at_exec(cs: &Vec<char>, i: usize, flag: &Vec<char>) -> (r: bool)
    ensures
        r == flag_at(cs@, i as int, flag@),
{
    if i >= cs.len() || flag.len() >= cs.len() - i {
        return false;
    }
    if cs[i] != ' ' {
        return false;
    }
    let mut k: usize = 0;
    while k < flag.len()
        invariant
            i + 1 + flag@.len() <= cs@.len(),
            cs@.len() <= usize::MAX,
            k <= flag@.len(),
            forall|t: int| 0 <= t < k ==> cs@[i + 1 + t] == flag@[t],
        decreases flag@.len() - k,
    {
        if cs[i + 1 + k] != flag[k] {
            assert(cs@.subrange(i + 1, i + 1 + flag@.len())[k as int] != flag@[k as int]);
            return false;
        }
        k = k + 1;
    }
    assert(cs@.subrange(i + 1, i + 1 + flag@.len()) =~= flag@);
    true
}

/// The values of every occurrence of `flag` in `s`, in order; with `sep`, a
/// value may be separated from its flag by one whitespace character.
pub fn flag_values_of(s: &str, flag: &str, sep: bool) -> (r: Vec<String>)
    ensures
        views(r@) == flag_values(s@, 0, flag@, sep),
{
    let cs = chars_of(s);
    let fl = chars_of(flag);
    let n = cs.len();
    let mut out: Vec<String> = Vec::new();
    let mut i: usize = 0;
    while i < n
        invariant
            n == s@.len(),
            cs@ == s@,
            fl@ == flag@,
            i <= n,
            views(out@) + flag_values(s@, i as int, flag@, sep) == flag_values(s@, 0, flag@, sep),
        decreases n - i,
    {
        if flag_at_exec(&cs, i, &fl) {
            let j = i + 1 + fl.len();
            let b = if sep && j < n && is_whitespace(cs[j]) {
                j + 1
            } else {
                j
            };
            let e = token_end_exec(&cs, b);
            proof {
                lemma_token_end(s@, b as int);
            }
            let v = s.substring_char(b, e).to_owned();
            let ghost prev = out@;
            out.push(v);
            assert(views(out@) =~= views(prev).push(v@));
            assert(views(out@) + flag_values(s@, e as int, flag@, sep) =~= views(prev)
                + flag_values(s@, i as int, flag@, sep));
            i = e;
        } else {
            i = i + 1;
        }
    }
    assert(flag_values(s@, i as int, flag@, sep) =~= seq![]);
    assert(views(out@) =~= flag_values(s@, 0, flag@, sep));
    out
}

} // verus!
