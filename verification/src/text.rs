//! Character-level helpers shared by the markup and style parsers:
//! whitespace, trimming, and splitting on a separator character.

use vstd::prelude::*;
use vstd::string::StrSliceExecFns;

verus! {

/// Whitespace as both parsers understand it: the characters with the
/// Unicode `White_Space` property.
pub open spec fn is_space(c: char) -> bool {
    ||| c == '\u{0009}'
    ||| c == '\u{000A}'
    ||| c == '\u{000B}'
    ||| c == '\u{000C}'
    ||| c == '\u{000D}'
    ||| c == ' '
    ||| c == '\u{0085}'
    ||| c == '\u{00A0}'
    ||| c == '\u{1680}'
    ||| ('\u{2000}' <= c && c <= '\u{200A}')
    ||| c == '\u{2028}'
    ||| c == '\u{2029}'
    ||| c == '\u{202F}'
    ||| c == '\u{205F}'
    ||| c == '\u{3000}'
}

/// Executable counterpart of `is_space`.
pub fn is_space_char(c: char) -> (r: bool)
    ensures
        r == is_space(c),
{
    c == '\u{0009}' || c == '\u{000A}' || c == '\u{000B}' || c == '\u{000C}' || c == '\u{000D}'
        || c == ' ' || c == '\u{0085}' || c == '\u{00A0}' || c == '\u{1680}' || ('\u{2000}' <= c
        && c <= '\u{200A}') || c == '\u{2028}' || c == '\u{2029}' || c == '\u{202F}'
        || c == '\u{205F}' || c == '\u{3000}'
}

/// The sequence with its leading whitespace removed.
pub open spec fn trim_start(s: Seq<char>) -> Seq<char>
    decreases s.len(),
{
    if s.len() > 0 && is_space(s[0]) {
        trim_start(s.drop_first())
    } else {
        s
    }
}

/// The sequence with its trailing whitespace removed.
pub open spec fn trim_end(s: Seq<char>) -> Seq<char>
    decreases s.len(),
{
    if s.len() > 0 && is_space(s.last()) {
        trim_end(s.drop_last())
    } else {
        s
    }
}

/// The sequence with whitespace removed from both ends.
pub open spec fn trim(s: Seq<char>) -> Seq<char> {
    trim_end(trim_start(s))
}

/// `trim_start` keeps exactly the part after the leading whitespace.
proof fn lemma_trim_start_at(s: Seq<char>, a: int)
    requires
        0 <= a <= s.len(),
        forall|k: int| 0 <= k < a ==> is_space(s[k]),
        a == s.len() || !is_space(s[a]),
    ensures
        trim_start(s) == s.subrange(a, s.len() as int),
    decreases a,
{
    if a == 0 {
        assert(s.subrange(0, s.len() as int) =~= s);
    } else {
        assert(is_space(s[0]));
        let d = s.drop_first();
        assert(forall|k: int| 0 <= k < a - 1 ==> is_space(#[trigger] d[k]));
        lemma_trim_start_at(d, a - 1);
        assert(d.subrange(a - 1, d.len() as int) =~= s.subrange(a, s.len() as int));
    }
}

/// `trim_end` keeps exactly the part before the trailing whitespace.
proof fn lemma_trim_end_at(s: Seq<char>, b: int)
    requires
        0 <= b <= s.len(),
        forall|k: int| b <= k < s.len() ==> is_space(s[k]),
        b == 0 || !is_space(s[b - 1]),
    ensures
        trim_end(s) == s.subrange(0, b),
    decreases s.len(),
{
    if b == s.len() {
        if s.len() > 0 {
            assert(!is_space(s.last()));
        }
        assert(s.subrange(0, s.len() as int) =~= s);
    } else {
        assert(is_space(s.last()));
        let d = s.drop_last();
        assert(forall|k: int| b <= k < d.len() ==> is_space(#[trigger] d[k]));
        lemma_trim_end_at(d, b);
        assert(d.subrange(0, b) =~= s.subrange(0, b));
    }
}

/// A trimmed sequence is the subrange between the first and last
/// non-whitespace characters.
pub proof fn lemma_trim_is_subrange(s: Seq<char>, a: int, b: int)
    requires
        0 <= a <= b <= s.len(),
        forall|k: int| 0 <= k < a ==> is_space(s[k]),
        forall|k: int| b <= k < s.len() ==> is_space(s[k]),
        a == s.len() || !is_space(s[a]),
        b == a || !is_space(s[b - 1]),
    ensures
        trim(s) == s.subrange(a, b),
    decreases s.len(),
{
    lemma_trim_start_at(s, a);
    let t = s.subrange(a, s.len() as int);
    assert(forall|k: int| b - a <= k < t.len() ==> is_space(#[trigger] t[k]));
    lemma_trim_end_at(t, b - a);
    assert(t.subrange(0, b - a) =~= s.subrange(a, b));
}

/// Copies `s[from..to]` into a fresh vector.
pub fn subvec(s: &Vec<char>, from: usize, to: usize) -> (r: Vec<char>)
    requires
        from <= to <= s@.len(),
    ensures
        r@ == s@.subrange(from as int, to as int),
{
    let mut r: Vec<char> = Vec::new();
    let mut k: usize = from;
    while k < to
        invariant
            from <= k <= to <= s@.len(),
            r@ == s@.subrange(from as int, k as int),
        decreases to - k,
    {
        r.push(s[k]);
        proof {
            assert(s@.subrange(from as int, k as int).push(s@[k as int]) =~= s@.subrange(
                from as int,
                k + 1 as int,
            ));
        }
        k += 1;
    }
    r
}

/// Removes whitespace from both ends of a character vector.
pub fn trim_chars(s: &Vec<char>) -> (r: Vec<char>)
    ensures
        r@ == trim(s@),
{
    let mut a: usize = 0;
    while a < s.len() && is_space_char(s[a])
        invariant
            a <= s@.len(),
            forall|k: int| 0 <= k < a ==> is_space(s@[k]),
        decreases s@.len() - a,
    {
        a += 1;
    }
    let mut b: usize = s.len();
    while b > a && is_space_char(s[b - 1])
        invariant
            a <= b <= s@.len(),
            forall|k: int| b <= k < s@.len() ==> is_space(s@[k]),
        decreases b,
    {
        b -= 1;
    }
    proof {
        lemma_trim_is_subrange(s@, a as int, b as int);
    }
    subvec(s, a, b)
}

/// Index of the first occurrence of `c` in `s` at or after `i`, or the
/// length of `s` when there is none.
pub open spec fn find_char(s: Seq<char>, c: char, i: int) -> int
    decreases s.len() - i when 0 <= i <= s.len()
{
    if i >= s.len() {
        i
    } else if s[i] == c {
        i
    } else {
        find_char(s, c, i + 1)
    }
}

/// Bounds and meaning of `find_char`.
pub proof fn lemma_find_char(s: Seq<char>, c: char, i: int)
    requires
        0 <= i <= s.len(),
    ensures
        i <= find_char(s, c, i) <= s.len(),
        forall|k: int| i <= k < find_char(s, c, i) ==> s[k] != c,
        find_char(s, c, i) < s.len() ==> s[find_char(s, c, i)] == c,
    decreases s.len() - i,
{
    if i < s.len() && s[i] != c {
        lemma_find_char(s, c, i + 1);
    }
}

/// `find_char` returns `j` exactly when `c` is absent before `j` and
/// present at `j` (or `j` is the end).
pub proof fn lemma_find_char_at(s: Seq<char>, c: char, i: int, j: int)
    requires
        0 <= i <= j <= s.len(),
        forall|k: int| i <= k < j ==> s[k] != c,
        j == s.len() || s[j] == c,
    ensures
        find_char(s, c, i) == j,
    decreases j - i,
{
    if i < j {
        lemma_find_char_at(s, c, i + 1, j);
    }
}

/// The pieces of `s` from `i` on, split on the separator `c`; the
/// separator itself appears in no piece, and a trailing separator yields
/// a final empty piece.
pub open spec fn split_from(s: Seq<char>, c: char, i: int) -> Seq<Seq<char>>
    decreases s.len() - i when 0 <= i <= s.len() via split_from_dec
{
    let j = find_char(s, c, i);
    if j >= s.len() {
        seq![s.subrange(i, s.len() as int)]
    } else {
        seq![s.subrange(i, j)] + split_from(s, c, j + 1)
    }
}

#[via_fn]
proof fn split_from_dec(s: Seq<char>, c: char, i: int) {
    if 0 <= i <= s.len() {
        lemma_find_char(s, c, i);
    }
}

/// The views of a list of string attribute pairs.
pub open spec fn pairs_view(v: Seq<(String, String)>) -> Seq<(Seq<char>, Seq<char>)> {
    v.map_values(|p: (String, String)| (p.0@, p.1@))
}

/// The views of a list of strings.
pub open spec fn strings_view(v: Seq<String>) -> Seq<Seq<char>> {
    v.map_values(|x: String| x@)
}

/// The views of a vector of character vectors.
pub open spec fn views_of(parts: Seq<Vec<char>>) -> Seq<Seq<char>> {
    parts.map_values(|p: Vec<char>| p@)
}

/// Splits `s` on the separator `c`.
pub fn split_chars(s: &Vec<char>, c: char) -> (parts: Vec<Vec<char>>)
    ensures
        views_of(parts@) == split_from(s@, c, 0),
{
    let mut parts: Vec<Vec<char>> = Vec::new();
    let mut piece: Vec<char> = Vec::new();
    let mut start: usize = 0;
    let mut k: usize = 0;
    while k < s.len()
        invariant
            start <= k <= s@.len(),
            piece@ == s@.subrange(start as int, k as int),
            forall|t: int| start <= t < k ==> s@[t] != c,
            split_from(s@, c, 0) == views_of(parts@) + split_from(s@, c, start as int),
        decreases s@.len() - k,
    {
        if s[k] == c {
            proof {
                lemma_find_char_at(s@, c, start as int, k as int);
                lemma_find_char(s@, c, k + 1);
            }
            let ghost old_parts = parts@;
            parts.push(piece);
            proof {
                assert(views_of(parts@) =~= views_of(old_parts) + seq![s@.subrange(
                    start as int,
                    k as int,
                )]);
                assert(views_of(parts@) + split_from(s@, c, k + 1 as int) =~= (views_of(old_parts)
                    + split_from(s@, c, start as int)));
            }
            piece = Vec::new();
            start = k + 1;
            proof {
                assert(piece@ =~= s@.subrange(start as int, start as int));
            }
        } else {
            piece.push(s[k]);
            proof {
                assert(s@.subrange(start as int, k as int).push(s@[k as int]) =~= s@.subrange(
                    start as int,
                    k + 1 as int,
                ));
            }
        }
        k += 1;
    }
    proof {
        lemma_find_char_at(s@, c, start as int, s@.len() as int);
    }
    let ghost old_parts = parts@;
    parts.push(piece);
    proof {
        assert(views_of(parts@) =~= views_of(old_parts) + seq![s@.subrange(
            start as int,
            s@.len() as int,
        )]);
        assert(views_of(parts@) =~= views_of(old_parts) + split_from(s@, c, start as int));
    }
    parts
}

/// The diagnostic rendering of the pairs from index `k` on:
/// `key="value"` entries separated by `", "`.
pub open spec fn attrs_text(attrs: Seq<(Seq<char>, Seq<char>)>, k: int) -> Seq<char>
    decreases attrs.len() - k when 0 <= k <= attrs.len()
{
    if k >= attrs.len() {
        Seq::empty()
    } else {
        (if k > 0 {
            ", "@
        } else {
            Seq::<char>::empty()
        }) + attrs[k].0 + "=\""@ + attrs[k].1 + "\""@ + attrs_text(attrs, k + 1)
    }
}

/// Appends the rendering of the pairs to `out`.
pub fn append_pairs(out: &mut String, pairs: &Vec<(String, String)>)
    ensures
        final(out)@ == old(out)@ + attrs_text(pairs_view(pairs@), 0),
{
    let ghost pv = pairs_view(pairs@);
    let ghost target = old(out)@ + attrs_text(pv, 0);
    let mut k: usize = 0;
    while k < pairs.len()
        invariant
            k <= pairs@.len(),
            pv == pairs_view(pairs@),
            out@ + attrs_text(pv, k as int) == target,
        decreases pairs@.len() - k,
    {
        let ghost out0 = out@;
        if k > 0 {
            out.append(", ");
        }
        let p = &pairs[k];
        out.append(p.0.as_str());
        out.append("=\"");
        out.append(p.1.as_str());
        out.append("\"");
        proof {
            assert(pv[k as int] == (pairs@[k as int].0@, pairs@[k as int].1@));
            assert(out@ + attrs_text(pv, k + 1 as int) =~= out0 + attrs_text(pv, k as int));
        }
        k += 1;
    }
    proof {
        assert(out@ + attrs_text(pv, k as int) =~= out@);
    }
}

/// Relies on `String::push`: appends one character at the end of the
/// string.
#[verifier::external_body]
fn push_char(s: &mut String, c: char)
    ensures
        final(s)@ == old(s)@.push(c),
{
    s.push(c)
}

/// Builds a string holding exactly the given characters.
pub fn chars_to_string(v: &Vec<char>) -> (s: String)
    ensures
        s@ == v@,
{
    let mut s = String::new();
    let mut k: usize = 0;
    while k < v.len()
        invariant
            k <= v@.len(),
            s@ == v@.subrange(0, k as int),
        decreases v@.len() - k,
    {
        push_char(&mut s, v[k]);
        proof {
            assert(v@.subrange(0, k as int).push(v@[k as int]) =~= v@.subrange(0, k + 1 as int));
        }
        k += 1;
    }
    proof {
        assert(v@.subrange(0, v@.len() as int) =~= v@);
    }
    s
}

/// Collects the characters of a string into a vector.
pub fn str_to_chars(s: &str) -> (v: Vec<char>)
    ensures
        v@ == s@,
{
    let n = s.unicode_len();
    let mut v: Vec<char> = Vec::new();
    let mut k: usize = 0;
    while k < n
        invariant
            n == s@.len(),
            k <= n,
            v@ == s@.subrange(0, k as int),
        decreases n - k,
    {
        v.push(s.get_char(k));
        proof {
            assert(s@.subrange(0, k as int).push(s@[k as int]) =~= s@.subrange(0, k + 1 as int));
        }
        k += 1;
    }
    proof {
        assert(s@.subrange(0, s@.len() as int) =~= s@);
    }
    v
}

} // verus!
