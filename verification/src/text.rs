//! Character-sequence model of strings: the spec functions that the
//! contracts of the library speak in, and their executable counterparts.

use vstd::prelude::*;

verus! {

// ---------------------------------------------------------------------------
// Character classes
// ---------------------------------------------------------------------------

/// Unicode `White_Space` (what `char::is_whitespace` tests).
pub open spec fn is_ws(c: char) -> bool {
    ||| ('\u{9}' <= c && c <= '\u{d}')
    ||| c == ' '
    ||| c == '\u{85}'
    ||| c == '\u{a0}'
    ||| c == '\u{1680}'
    ||| ('\u{2000}' <= c && c <= '\u{200a}')
    ||| c == '\u{2028}'
    ||| c == '\u{2029}'
    ||| c == '\u{202f}'
    ||| c == '\u{205f}'
    ||| c == '\u{3000}'
}

pub fn is_ws_char(c: char) -> (r: bool)
    ensures
        r == is_ws(c),
{
    ('\u{9}' <= c && c <= '\u{d}') || c == ' ' || c == '\u{85}' || c == '\u{a0}' || c
        == '\u{1680}' || ('\u{2000}' <= c && c <= '\u{200a}') || c == '\u{2028}' || c
        == '\u{2029}' || c == '\u{202f}' || c == '\u{205f}' || c == '\u{3000}'
}

pub open spec fn is_ascii_alpha(c: char) -> bool {
    ('a' <= c && c <= 'z') || ('A' <= c && c <= 'Z')
}

pub open spec fn is_ascii_digit(c: char) -> bool {
    '0' <= c && c <= '9'
}

pub open spec fn is_ascii_alnum(c: char) -> bool {
    is_ascii_alpha(c) || is_ascii_digit(c)
}

pub fn is_ascii_alpha_char(c: char) -> (r: bool)
    ensures
        r == is_ascii_alpha(c),
{
    ('a' <= c && c <= 'z') || ('A' <= c && c <= 'Z')
}

pub fn is_ascii_digit_char(c: char) -> (r: bool)
    ensures
        r == is_ascii_digit(c),
{
    '0' <= c && c <= '9'
}

pub fn is_ascii_alnum_char(c: char) -> (r: bool)
    ensures
        r == is_ascii_alnum(c),
{
    is_ascii_alpha_char(c) || is_ascii_digit_char(c)
}

// ---------------------------------------------------------------------------
// Trimming
// ---------------------------------------------------------------------------

/// Index of the first character at or after `i` that is not whitespace
/// (`s.len()` when there is none).
pub open spec fn first_non_ws_from(s: Seq<char>, i: int) -> int
    decreases s.len() - i,
{
    if i < 0 || i >= s.len() {
        s.len() as int
    } else if is_ws(s[i]) {
        first_non_ws_from(s, i + 1)
    } else {
        i
    }
}

/// End of `s.take(j)` once its trailing whitespace is removed.
pub open spec fn non_ws_end_from(s: Seq<char>, j: int) -> int
    decreases j,
{
    if j <= 0 || j > s.len() {
        0
    } else if is_ws(s[j - 1]) {
        non_ws_end_from(s, j - 1)
    } else {
        j
    }
}

/// `str::trim_start`.
pub open spec fn trim_start(s: Seq<char>) -> Seq<char> {
    s.skip(first_non_ws_from(s, 0))
}

/// `str::trim_end`.
pub open spec fn trim_end(s: Seq<char>) -> Seq<char> {
    s.take(non_ws_end_from(s, s.len() as int))
}

/// `str::trim`.
pub open spec fn trim(s: Seq<char>) -> Seq<char> {
    trim_end(trim_start(s))
}

/// `s.trim().is_empty()`: every character is whitespace.
pub open spec fn is_blank(s: Seq<char>) -> bool {
    forall|k: int| 0 <= k < s.len() ==> is_ws(#[trigger] s[k])
}

pub proof fn lemma_first_non_ws_bounds(s: Seq<char>, i: int)
    requires
        0 <= i <= s.len(),
    ensures
        i <= first_non_ws_from(s, i) <= s.len(),
        forall|k: int| i <= k < first_non_ws_from(s, i) ==> is_ws(#[trigger] s[k]),
        first_non_ws_from(s, i) < s.len() ==> !is_ws(s[first_non_ws_from(s, i)]),
    decreases s.len() - i,
{
    if i < s.len() && is_ws(s[i]) {
        lemma_first_non_ws_bounds(s, i + 1);
    }
}

pub proof fn lemma_non_ws_end_bounds(s: Seq<char>, j: int)
    requires
        0 <= j <= s.len(),
    ensures
        0 <= non_ws_end_from(s, j) <= j,
        forall|k: int| non_ws_end_from(s, j) <= k < j ==> is_ws(#[trigger] s[k]),
        non_ws_end_from(s, j) > 0 ==> !is_ws(s[non_ws_end_from(s, j) - 1]),
    decreases j,
{
    if j > 0 && is_ws(s[j - 1]) {
        lemma_non_ws_end_bounds(s, j - 1);
    }
}

/// `is_blank` is what the trimmed string being empty means.
pub proof fn lemma_blank_iff_trim_empty(s: Seq<char>)
    ensures
        is_blank(s) <==> trim(s).len() == 0,
        is_blank(s) <==> first_non_ws_from(s, 0) == s.len(),
{
    lemma_first_non_ws_bounds(s, 0);
    let t = trim_start(s);
    lemma_non_ws_end_bounds(t, t.len() as int);
    if trim(s).len() == 0 && first_non_ws_from(s, 0) < s.len() {
        assert(t[0] == s[first_non_ws_from(s, 0)]);
        assert(non_ws_end_from(t, t.len() as int) == 0);
        assert(is_ws(t[0]));
    }
}

/// Index of the first non-whitespace character of `v[lo..hi]`, as an index into `v`.
pub fn first_non_ws(v: &[char], lo: usize, hi: usize) -> (r: usize)
    requires
        lo <= hi <= v@.len(),
    ensures
        r == lo + first_non_ws_from(v@.subrange(lo as int, hi as int), 0),
        lo <= r <= hi,
{
    let ghost s = v@.subrange(lo as int, hi as int);
    let mut i: usize = lo;
    while i < hi && is_ws_char(v[i])
        invariant
            lo <= i <= hi <= v@.len(),
            s == v@.subrange(lo as int, hi as int),
            first_non_ws_from(s, 0) == first_non_ws_from(s, i - lo),
        decreases hi - i,
    {
        assert(s[i - lo] == v@[i as int]);
        i += 1;
    }
    proof {
        if i < hi {
            assert(s[i - lo] == v@[i as int]);
        }
    }
    i
}

/// End (exclusive, as an index into `v`) of `v[lo..hi]` without its trailing whitespace.
pub fn non_ws_end(v: &[char], lo: usize, hi: usize) -> (r: usize)
    requires
        lo <= hi <= v@.len(),
    ensures
        r == lo + non_ws_end_from(v@.subrange(lo as int, hi as int), hi - lo),
        lo <= r <= hi,
{
    let ghost s = v@.subrange(lo as int, hi as int);
    let mut j: usize = hi;
    while j > lo && is_ws_char(v[j - 1])
        invariant
            lo <= j <= hi <= v@.len(),
            s == v@.subrange(lo as int, hi as int),
            non_ws_end_from(s, hi - lo) == non_ws_end_from(s, j - lo),
        decreases j,
    {
        assert(s[j - 1 - lo] == v@[j - 1]);
        j -= 1;
    }
    proof {
        if j > lo {
            assert(s[j - 1 - lo] == v@[j - 1]);
        }
    }
    j
}

/// Whether `v[lo..hi]` is all whitespace.
pub fn is_blank_range(v: &[char], lo: usize, hi: usize) -> (r: bool)
    requires
        lo <= hi <= v@.len(),
    ensures
        r == is_blank(v@.subrange(lo as int, hi as int)),
{
    let i: usize = first_non_ws(v, lo, hi);
    proof {
        lemma_blank_iff_trim_empty(v@.subrange(lo as int, hi as int));
    }
    i == hi
}

// ---------------------------------------------------------------------------
// Prefixes, search and replacement
// ---------------------------------------------------------------------------

pub open spec fn starts_with(s: Seq<char>, p: Seq<char>) -> bool {
    p.len() <= s.len() && s.take(p.len() as int) == p
}

pub open spec fn ends_with(s: Seq<char>, p: Seq<char>) -> bool {
    p.len() <= s.len() && s.skip(s.len() - p.len()) == p
}

/// Whether `p` occurs in `s` at index `i`.
pub open spec fn matches_at(s: Seq<char>, i: int, p: Seq<char>) -> bool {
    0 <= i && i + p.len() <= s.len() && s.subrange(i, i + p.len()) == p
}

/// `str::find`, from index `i` on: the first index `>= i` where `p` occurs.
pub open spec fn find_from(s: Seq<char>, p: Seq<char>, i: int) -> Option<int>
    decreases s.len() + 1 - i,
{
    if i < 0 || i + p.len() > s.len() {
        None
    } else if matches_at(s, i, p) {
        Some(i)
    } else {
        find_from(s, p, i + 1)
    }
}

/// `str::replace`: every non-overlapping occurrence of `pat`, leftmost first,
/// is replaced by `rep` (an empty `pat` matches before every character and at
/// the end).
pub open spec fn replace_all(s: Seq<char>, pat: Seq<char>, rep: Seq<char>) -> Seq<char>
    decreases s.len(),
{
    if pat.len() == 0 {
        if s.len() == 0 {
            rep
        } else {
            rep + seq![s[0]] + replace_all(s.drop_first(), pat, rep)
        }
    } else if s.len() == 0 {
        s
    } else if starts_with(s, pat) {
        rep + replace_all(s.skip(pat.len() as int), pat, rep)
    } else {
        seq![s[0]] + replace_all(s.drop_first(), pat, rep)
    }
}

/// Whether `p` occurs in `v` at index `i`.
pub fn matches_at_exec(v: &[char], i: usize, p: &[char]) -> (r: bool)
    ensures
        r == matches_at(v@, i as int, p@),
{
    if i > v.len() || p.len() > v.len() - i {
        return false;
    }
    let n: usize = v.len();
    let mut k: usize = 0;
    while k < p.len()
        invariant
            n == v@.len(),
            i + p@.len() <= v@.len(),
            0 <= k <= p@.len(),
            forall|m: int| 0 <= m < k ==> v@[i + m] == p@[m],
        decreases p.len() - k,
    {
        assert(i + k < v@.len());
        if v[i + k] != p[k] {
            assert(v@.subrange(i as int, i + p@.len())[k as int] != p@[k as int]);
            return false;
        }
        k += 1;
    }
    assert(v@.subrange(i as int, i + p@.len()) =~= p@);
    true
}

/// First index `>= from` where `p` occurs in `v`.
pub fn find_exec(v: &[char], p: &[char], from: usize) -> (r: Option<usize>)
    requires
        p@.len() > 0,
    ensures
        match r {
            Some(k) => find_from(v@, p@, from as int) == Some(k as int),
            None => find_from(v@, p@, from as int) is None,
        },
{
    let mut i: usize = from;
    while i <= v.len() && p.len() <= v.len() - i
        invariant
            find_from(v@, p@, from as int) == find_from(v@, p@, i as int),
            from <= i,
            p@.len() > 0,
        decreases v.len() + 1 - i,
    {
        if matches_at_exec(v, i, p) {
            return Some(i);
        }
        i += 1;
    }
    None
}

pub proof fn lemma_skip_skip<A>(s: Seq<A>, a: int, b: int)
    requires
        0 <= a,
        0 <= b,
        a + b <= s.len(),
    ensures
        s.skip(a).skip(b) == s.skip(a + b),
{
    assert(s.skip(a).skip(b) =~= s.skip(a + b));
}

/// Replace every non-overlapping occurrence of `pat` in `v[from..]`, appending to `out`.
pub fn replace_all_into(out: &mut String, v: &[char], from: usize, pat: &[char], rep: &str)
    requires
        from <= v@.len(),
    ensures
        final(out)@ == old(out)@ + replace_all(v@.skip(from as int), pat@, rep@),
{
    let mut i: usize = from;
    while i < v.len()
        invariant
            from <= i <= v@.len(),
            old(out)@ + replace_all(v@.skip(from as int), pat@, rep@) == out@ + replace_all(
                v@.skip(i as int),
                pat@,
                rep@,
            ),
        decreases v.len() - i,
    {
        let ghost rest = v@.skip(i as int);
        let ghost before = out@;
        if pat.len() > 0 && matches_at_exec(v, i, pat) {
            proof {
                assert(rest.take(pat@.len() as int) =~= v@.subrange(i as int, i + pat@.len()));
                lemma_skip_skip(v@, i as int, pat@.len() as int);
            }
            out.append(rep);
            i += pat.len();
        } else {
            proof {
                if pat@.len() > 0 && starts_with(rest, pat@) {
                    assert(rest.take(pat@.len() as int) =~= v@.subrange(i as int, i + pat@.len()));
                }
                lemma_skip_skip(v@, i as int, 1);
            }
            if pat.len() == 0 {
                out.append(rep);
            }
            push_char(out, v[i]);
            proof {
                if pat@.len() == 0 {
                    assert(out@ == before + rep@ + seq![v@[i as int]]);
                } else {
                    assert(out@ == before + seq![v@[i as int]]);
                }
            }
            i += 1;
        }
    }
    assert(v@.skip(i as int) =~= Seq::<char>::empty());
    if pat.len() == 0 {
        out.append(rep);
    }
}

/// `s.replace(pat, rep)`.
pub fn replace_str(s: &str, pat: &str, rep: &str) -> (r: String)
    ensures
        r@ == replace_all(s@, pat@, rep@),
{
    let v = chars_of(s);
    let p = chars_of(pat);
    let mut out = String::new();
    replace_all_into(&mut out, &v, 0, &p, rep);
    assert(v@.skip(0) =~= v@);
    out
}

/// Index of the first non-whitespace character at or after `j`.
pub fn first_non_ws_at(v: &[char], j: usize) -> (r: usize)
    requires
        j <= v@.len(),
    ensures
        r == first_non_ws_from(v@, j as int),
        j <= r <= v@.len(),
{
    let mut i: usize = j;
    while i < v.len() && is_ws_char(v[i])
        invariant
            j <= i <= v@.len(),
            first_non_ws_from(v@, j as int) == first_non_ws_from(v@, i as int),
        decreases v.len() - i,
    {
        i += 1;
    }
    i
}

/// `s.trim()`.
pub fn trim_str(s: &str) -> (r: String)
    ensures
        r@ == trim(s@),
{
    let v = chars_of(s);
    let lo = first_non_ws(&v, 0, v.len());
    let hi = non_ws_end(&v, lo, v.len());
    proof {
        assert(v@.subrange(0, v@.len() as int) =~= v@);
        assert(trim_start(v@) =~= v@.subrange(lo as int, v@.len() as int));
    }
    string_of_range(&v, lo, hi)
}

/// A copy of `v[lo..hi]`.
pub fn slice_vec(v: &[char], lo: usize, hi: usize) -> (r: Vec<char>)
    requires
        lo <= hi <= v@.len(),
    ensures
        r@ == v@.subrange(lo as int, hi as int),
{
    let mut r: Vec<char> = Vec::new();
    let mut i: usize = lo;
    while i < hi
        invariant
            lo <= i <= hi <= v@.len(),
            r@ == v@.subrange(lo as int, i as int),
        decreases hi - i,
    {
        r.push(v[i]);
        assert(v@.subrange(lo as int, i + 1) =~= v@.subrange(lo as int, i as int).push(v@[i as int]));
        i += 1;
    }
    r
}

/// Whether `v` holds exactly the characters of `lit`.
pub fn eq_lit(v: &[char], lit: &str) -> (r: bool)
    ensures
        r == (v@ == lit@),
{
    let l = chars_of(lit);
    if v.len() != l.len() {
        return false;
    }
    let mut k: usize = 0;
    while k < v.len()
        invariant
            v@.len() == l@.len(),
            l@ == lit@,
            0 <= k <= v@.len(),
            forall|m: int| 0 <= m < k ==> v@[m] == l@[m],
        decreases v.len() - k,
    {
        if v[k] != l[k] {
            return false;
        }
        k += 1;
    }
    assert(v@ =~= l@);
    true
}

/// Index of the first `ch` at or after `j` (`s.len()` when there is none).
pub open spec fn find_char_from(s: Seq<char>, ch: char, j: int) -> int
    decreases s.len() - j,
{
    if j < 0 || j >= s.len() {
        s.len() as int
    } else if s[j] == ch {
        j
    } else {
        find_char_from(s, ch, j + 1)
    }
}

pub proof fn lemma_find_char_from(s: Seq<char>, ch: char, j: int)
    requires
        0 <= j <= s.len(),
    ensures
        j <= find_char_from(s, ch, j) <= s.len(),
        forall|k: int| j <= k < find_char_from(s, ch, j) ==> #[trigger] s[k] != ch,
        find_char_from(s, ch, j) < s.len() ==> s[find_char_from(s, ch, j)] == ch,
    decreases s.len() - j,
{
    if j < s.len() && s[j] != ch {
        lemma_find_char_from(s, ch, j + 1);
    }
}

/// Index of the first `ch` at or after `j`.
pub fn find_char_exec(v: &[char], ch: char, j: usize) -> (r: usize)
    requires
        j <= v@.len(),
    ensures
        r == find_char_from(v@, ch, j as int),
        j <= r <= v@.len(),
{
    proof {
        lemma_find_char_from(v@, ch, j as int);
    }
    let mut k: usize = j;
    while k < v.len() && v[k] != ch
        invariant
            j <= k <= v@.len(),
            find_char_from(v@, ch, j as int) == find_char_from(v@, ch, k as int),
        decreases v.len() - k,
    {
        k += 1;
    }
    k
}

// ---------------------------------------------------------------------------
// Splitting, lines and joining
// ---------------------------------------------------------------------------

/// `str::split(c)`: the pieces between occurrences of `c` (always at least one).
pub open spec fn split_char(s: Seq<char>, c: char) -> Seq<Seq<char>>
    decreases s.len(),
{
    if s.len() == 0 {
        seq![Seq::<char>::empty()]
    } else {
        let p = split_char(s.drop_last(), c);
        if s.last() == c {
            p.push(Seq::<char>::empty())
        } else {
            p.update(p.len() - 1, p.last().push(s.last()))
        }
    }
}

pub proof fn lemma_split_char_len(s: Seq<char>, c: char)
    ensures
        split_char(s, c).len() >= 1,
    decreases s.len(),
{
    if s.len() > 0 {
        lemma_split_char_len(s.drop_last(), c);
    }
}

/// `parts.join(sep)`.
pub open spec fn join(parts: Seq<Seq<char>>, sep: Seq<char>) -> Seq<char>
    decreases parts.len(),
{
    if parts.len() == 0 {
        Seq::<char>::empty()
    } else if parts.len() == 1 {
        parts[0]
    } else {
        join(parts.drop_last(), sep) + sep + parts.last()
    }
}

/// A piece without one trailing `'\r'`.
pub open spec fn strip_cr(s: Seq<char>) -> Seq<char> {
    if s.len() > 0 && s.last() == '\r' {
        s.drop_last()
    } else {
        s
    }
}

/// `str::lines`: split at `'\n'` (a `'\r'` right before it is dropped too); a
/// final line ending adds no empty line.
pub open spec fn lines(s: Seq<char>) -> Seq<Seq<char>> {
    let p = split_char(s, '\n');
    let n = if s.len() == 0 {
        0
    } else if s.last() == '\n' {
        p.len() - 1
    } else {
        p.len() as int
    };
    Seq::new(
        n as nat,
        |k: int|
            if k < p.len() - 1 {
                strip_cr(p[k])
            } else {
                p[k]
            },
    )
}

/// Split `v` at every `c`: the pieces, as `Vec`s.
pub fn split_chars(v: &[char], c: char) -> (r: Vec<Vec<char>>)
    ensures
        r@.len() == split_char(v@, c).len(),
        forall|k: int| 0 <= k < r@.len() ==> #[trigger] r@[k]@ == split_char(v@, c)[k],
{
    let mut done: Vec<Vec<char>> = Vec::new();
    let mut cur: Vec<char> = Vec::new();
    let mut i: usize = 0;
    while i < v.len()
        invariant
            0 <= i <= v@.len(),
            split_char(v@.take(i as int), c).len() == done@.len() + 1,
            forall|k: int|
                0 <= k < done@.len() ==> #[trigger] done@[k]@ == split_char(v@.take(i as int), c)[k],
            cur@ == split_char(v@.take(i as int), c).last(),
        decreases v.len() - i,
    {
        let ghost pre = v@.take(i as int);
        assert(v@.take(i + 1).drop_last() =~= pre);
        proof {
            lemma_split_char_len(pre, c);
        }
        if v[i] == c {
            done.push(cur);
            cur = Vec::new();
        } else {
            cur.push(v[i]);
        }
        i += 1;
    }
    assert(v@.take(i as int) =~= v@);
    done.push(cur);
    done
}

/// The lines of `v` as `String`s (`str::lines`).
pub fn lines_of(v: &[char]) -> (r: Vec<String>)
    ensures
        r@.map_values(|p: String| p@) == lines(v@),
{
    let pieces = split_chars(v, '\n');
    let ghost p = split_char(v@, '\n');
    proof {
        lemma_split_char_len(v@, '\n');
    }
    let n: usize = if v.len() == 0 {
        0
    } else if v[v.len() - 1] == '\n' {
        pieces.len() - 1
    } else {
        pieces.len()
    };
    let ghost target = Seq::new(
        n as nat,
        |m: int|
            if m < p.len() - 1 {
                strip_cr(p[m])
            } else {
                p[m]
            },
    );
    assert(target =~= lines(v@));
    let mut r: Vec<String> = Vec::new();
    let mut k: usize = 0;
    while k < n
        invariant
            0 <= k <= n <= pieces@.len(),
            pieces@.len() == p.len(),
            forall|m: int| 0 <= m < pieces@.len() ==> #[trigger] pieces@[m]@ == p[m],
            target == lines(v@),
            target == Seq::new(
                n as nat,
                |m: int|
                    if m < p.len() - 1 {
                        strip_cr(p[m])
                    } else {
                        p[m]
                    },
            ),
            r@.map_values(|q: String| q@) == target.take(k as int),
        decreases n - k,
    {
        let piece = &pieces[k];
        let len = piece.len();
        let hi: usize = if k + 1 < pieces.len() && len > 0 && piece[len - 1] == '\r' {
            len - 1
        } else {
            len
        };
        let line = string_of_range(piece, 0, hi);
        proof {
            if k + 1 < pieces@.len() && len > 0 && piece@[len - 1] == '\r' {
                assert(line@ =~= p[k as int].drop_last());
            } else {
                assert(line@ =~= p[k as int]);
            }
        }
        proof {
            if k + 1 < pieces@.len() {
                assert(target[k as int] == strip_cr(p[k as int]));
            } else {
                assert(target[k as int] == p[k as int]);
            }
            assert(target[k as int] == line@);
        }
        let ghost before = r@.map_values(|q: String| q@);
        r.push(line);
        assert(r@.map_values(|q: String| q@) =~= before.push(line@));
        assert(target.take(k + 1) =~= target.take(k as int).push(target[k as int]));
        k += 1;
    }
    assert(target.take(n as int) =~= target);
    r
}

/// Append `parts.join(sep)` to `out`.
pub fn push_joined(out: &mut String, parts: &Vec<String>, sep: &str)
    ensures
        final(out)@ == old(out)@ + join(parts@.map_values(|p: String| p@), sep@),
{
    let ghost views = parts@.map_values(|p: String| p@);
    let mut i: usize = 0;
    while i < parts.len()
        invariant
            0 <= i <= parts@.len(),
            views == parts@.map_values(|p: String| p@),
            out@ == old(out)@ + join(views.take(i as int), sep@),
        decreases parts.len() - i,
    {
        assert(views.take(i + 1).drop_last() =~= views.take(i as int));
        if i > 0 {
            out.append(sep);
        }
        out.append(parts[i].as_str());
        proof {
            if i == 0 {
                assert(join(views.take(0), sep@) =~= Seq::<char>::empty());
            }
        }
        i += 1;
    }
    assert(views.take(i as int) =~= views);
}

// ---------------------------------------------------------------------------
// Building strings
// ---------------------------------------------------------------------------

/// Append one character (`String::push`).
#[verifier::external_body]
pub(crate) fn push_char(s: &mut String, c: char)
    ensures
        final(s)@ == old(s)@.push(c),
{
    s.push(c);
}

/// Append `v[lo..hi]`.
pub fn push_range(out: &mut String, v: &[char], lo: usize, hi: usize)
    requires
        lo <= hi <= v@.len(),
    ensures
        final(out)@ == old(out)@ + v@.subrange(lo as int, hi as int),
{
    let mut i: usize = lo;
    while i < hi
        invariant
            lo <= i <= hi <= v@.len(),
            out@ == old(out)@ + v@.subrange(lo as int, i as int),
        decreases hi - i,
    {
        push_char(out, v[i]);
        assert(v@.subrange(lo as int, i + 1) =~= v@.subrange(lo as int, i as int).push(v@[i as int]));
        i += 1;
    }
}

/// A `String` holding `v[lo..hi]`.
pub fn string_of_range(v: &[char], lo: usize, hi: usize) -> (r: String)
    requires
        lo <= hi <= v@.len(),
    ensures
        r@ == v@.subrange(lo as int, hi as int),
{
    let mut out = String::new();
    push_range(&mut out, v, lo, hi);
    out
}

/// The characters of `s`, one per element.
pub fn chars_of(s: &str) -> (v: Vec<char>)
    ensures
        v@ == s@,
{
    let mut v: Vec<char> = Vec::new();
    for c in it: s.chars()
        invariant
            v@ == it.seq().take(it.index() as int),
            it.seq() == s@,
    {
        v.push(c);
    }
    v
}

/// `s` repeated `n` times.
pub open spec fn repeat(s: Seq<char>, n: nat) -> Seq<char>
    decreases n,
{
    if n == 0 {
        Seq::<char>::empty()
    } else {
        repeat(s, (n - 1) as nat) + s
    }
}

/// Append `s` repeated `n` times.
pub fn push_repeat(out: &mut String, s: &str, n: usize)
    ensures
        final(out)@ == old(out)@ + repeat(s@, n as nat),
{
    let mut k: usize = 0;
    while k < n
        invariant
            0 <= k <= n,
            out@ == old(out)@ + repeat(s@, k as nat),
        decreases n - k,
    {
        out.append(s);
        k += 1;
    }
}

/// View of a list of string pairs.
pub open spec fn pairs_view(v: Seq<(String, String)>) -> Seq<(Seq<char>, Seq<char>)> {
    v.map_values(|p: (String, String)| (p.0@, p.1@))
}

/// What `format!("{:?}", s)` gives for a string `s`: the string quoted, with the
/// characters that `char::escape_debug` escapes escaped.
pub uninterp spec fn debug_str(s: Seq<char>) -> Seq<char>;

/// `format!("{:?}", s)`. The contract claims only that the result is the one
/// `debug_str` names for `s`.
#[verifier::external_body]
pub(crate) fn debug_quoted(s: &str) -> (r: String)
    ensures
        r@ == debug_str(s@),
{
    format!("{:?}", s)
}

// ---------------------------------------------------------------------------
// Decimal numbers
// ---------------------------------------------------------------------------

pub open spec fn digit_char(d: nat) -> char {
    ((48 + d) as u8) as char
}

/// The decimal representation of `n` (what `{}` prints for an unsigned integer).
pub open spec fn decimal(n: nat) -> Seq<char>
    decreases n,
{
    if n < 10 {
        seq![digit_char(n)]
    } else {
        decimal(n / 10).push(digit_char(n % 10))
    }
}

/// Append the decimal representation of `n`.
pub fn push_decimal(out: &mut String, n: u128)
    ensures
        final(out)@ == old(out)@ + decimal(n as nat),
    decreases n,
{
    if n >= 10 {
        push_decimal(out, n / 10);
    }
    let d: u8 = (n % 10) as u8;
    push_char(out, (48u8 + d) as char);
    proof {
        if n >= 10 {
            assert(decimal(n as nat) == decimal((n / 10) as nat).push(digit_char((n % 10) as nat)));
        }
    }
}


pub proof fn lemma_decimal_len(n: nat)
    ensures
        decimal(n).len() >= 1,
        n >= 10 ==> decimal(n).len() >= 2,
    decreases n,
{
    if n >= 10 {
        lemma_decimal_len(n / 10);
    }
}

proof fn lemma_digit_char_injective(a: nat, b: nat)
    requires
        a < 10,
        b < 10,
        digit_char(a) == digit_char(b),
    ensures
        a == b,
{
    assert(digit_char(a) as u32 == 48 + a);
    assert(digit_char(b) as u32 == 48 + b);
}

/// Decimal representations of different numbers differ.
pub proof fn lemma_decimal_injective(n: nat, m: nat)
    requires
        decimal(n) == decimal(m),
    ensures
        n == m,
    decreases n,
{
    lemma_decimal_len(n);
    lemma_decimal_len(m);
    if n < 10 && m < 10 {
        assert(decimal(n)[0] == digit_char(n));
        assert(decimal(m)[0] == digit_char(m));
        lemma_digit_char_injective(n, m);
    } else if n >= 10 && m >= 10 {
        assert(decimal(n).last() == digit_char(n % 10));
        assert(decimal(m).last() == digit_char(m % 10));
        lemma_digit_char_injective(n % 10, m % 10);
        assert(decimal(n).drop_last() =~= decimal(n / 10));
        assert(decimal(m).drop_last() =~= decimal(m / 10));
        lemma_decimal_injective(n / 10, m / 10);
    }
}

proof fn lemma_join_push_last(q: Seq<Seq<char>>, sep: Seq<char>, x: char)
    requires
        q.len() >= 1,
    ensures
        join(q.update(q.len() - 1, q.last().push(x)), sep) == join(q, sep).push(x),
{
    let u = q.update(q.len() - 1, q.last().push(x));
    if q.len() > 1 {
        assert(u.drop_last() =~= q.drop_last());
    }
}

/// Joining the pieces of a split with the separator gives the text back.
pub proof fn lemma_join_split(s: Seq<char>, c: char)
    ensures
        join(split_char(s, c), seq![c]) == s,
    decreases s.len(),
{
    if s.len() > 0 {
        let p = split_char(s.drop_last(), c);
        lemma_join_split(s.drop_last(), c);
        lemma_split_char_len(s.drop_last(), c);
        if s.last() == c {
            assert(p.push(Seq::<char>::empty()).drop_last() =~= p);
            assert(s =~= s.drop_last() + seq![c] + Seq::<char>::empty());
        } else {
            lemma_join_push_last(p, seq![c], s.last());
            assert(s =~= s.drop_last().push(s.last()));
        }
    } else {
        assert(split_char(s, c) =~= seq![Seq::<char>::empty()]);
    }
}

/// No piece of a split holds the separator.
pub proof fn lemma_split_pieces_free(s: Seq<char>, c: char)
    ensures
        forall|k: int, m: int|
            0 <= k < split_char(s, c).len() && 0 <= m < split_char(s, c)[k].len()
                ==> #[trigger] split_char(s, c)[k][m] != c,
    decreases s.len(),
{
    lemma_split_char_len(s, c);
    if s.len() > 0 {
        lemma_split_pieces_free(s.drop_last(), c);
        lemma_split_char_len(s.drop_last(), c);
        let p = split_char(s.drop_last(), c);
        let q = split_char(s, c);
        assert forall|k: int, m: int| 0 <= k < q.len() && 0 <= m < q[k].len() implies #[trigger] q[k][m]
            != c by {
            if s.last() == c {
                if k < p.len() {
                    assert(q[k] == p[k]);
                }
            } else {
                if k < p.len() - 1 {
                    assert(q[k] == p[k]);
                } else {
                    assert(q[k] == p.last().push(s.last()));
                    if m < p.last().len() {
                        assert(q[k][m] == p[p.len() - 1][m]);
                    }
                }
            }
        }
    }
}

proof fn lemma_split_append_free(s: Seq<char>, t: Seq<char>, c: char)
    requires
        forall|m: int| 0 <= m < t.len() ==> #[trigger] t[m] != c,
    ensures
        ({
            let p = split_char(s, c);
            split_char(s + t, c) == p.update(p.len() - 1, p.last() + t)
        }),
    decreases t.len(),
{
    lemma_split_char_len(s, c);
    let p = split_char(s, c);
    if t.len() == 0 {
        assert(s + t =~= s);
        assert(p.last() + t =~= p.last());
        assert(p.update(p.len() - 1, p.last()) =~= p);
    } else {
        let t0 = t.drop_last();
        lemma_split_append_free(s, t0, c);
        assert((s + t).drop_last() =~= s + t0);
        assert((s + t).last() == t.last());
        let q = p.update(p.len() - 1, p.last() + t0);
        assert(q.last() == p.last() + t0);
        assert(q.update(q.len() - 1, q.last().push(t.last())) =~= p.update(p.len() - 1, p.last() + t))
            by {
            assert((p.last() + t0).push(t.last()) =~= p.last() + t);
        }
    }
}

/// Splitting the join of pieces that do not hold the separator gives the
/// pieces back.
pub proof fn lemma_split_join(parts: Seq<Seq<char>>, c: char)
    requires
        parts.len() >= 1,
        forall|k: int, m: int| 0 <= k < parts.len() && 0 <= m < parts[k].len() ==> #[trigger] parts[k][m] != c,
    ensures
        split_char(join(parts, seq![c]), c) == parts,
    decreases parts.len(),
{
    if parts.len() == 1 {
        assert forall|m: int| 0 <= m < parts[0].len() implies #[trigger] parts[0][m] != c by {
            assert(parts[0][m] != c);
        }
        lemma_split_append_free(Seq::<char>::empty(), parts[0], c);
        assert(Seq::<char>::empty() + parts[0] =~= parts[0]);
        assert(split_char(Seq::<char>::empty(), c) =~= seq![Seq::<char>::empty()]);
        assert(seq![Seq::<char>::empty()].update(0, Seq::<char>::empty() + parts[0]) =~= parts);
    } else {
        let dl = parts.drop_last();
        assert forall|k: int, m: int| 0 <= k < dl.len() && 0 <= m < dl[k].len() implies #[trigger] dl[k][m]
            != c by {
            assert(dl[k] == parts[k]);
        }
        lemma_split_join(dl, c);
        let a = join(dl, seq![c]) + seq![c];
        assert(a.drop_last() =~= join(dl, seq![c]));
        assert(split_char(a, c) == dl.push(Seq::<char>::empty()));
        let last = parts.last();
        assert forall|m: int| 0 <= m < last.len() implies #[trigger] last[m] != c by {
            assert(parts[parts.len() - 1][m] != c);
        }
        lemma_split_append_free(a, last, c);
        assert(join(parts, seq![c]) == a + last);
        let q = dl.push(Seq::<char>::empty());
        assert(q.update(q.len() - 1, q.last() + last) =~= parts) by {
            assert(Seq::<char>::empty() + last =~= last);
        }
    }
}

/// In a join of pieces whose backslashes all end their piece, each backslash
/// is followed by the separator, or ends the whole text.
pub proof fn lemma_join_end_backslash(parts: Seq<Seq<char>>, c: char)
    requires
        c != '\\',
        forall|k: int, m: int|
            0 <= k < parts.len() && 0 <= m < parts[k].len() && #[trigger] parts[k][m] == '\\' ==> m
                == parts[k].len() - 1,
    ensures
        forall|p: int|
            0 <= p < join(parts, seq![c]).len() && #[trigger] join(parts, seq![c])[p] == '\\' ==> p + 1
                == join(parts, seq![c]).len() || join(parts, seq![c])[p + 1] == c,
    decreases parts.len(),
{
    let j = join(parts, seq![c]);
    if parts.len() == 1 {
        assert forall|p: int| 0 <= p < j.len() && #[trigger] j[p] == '\\' implies p + 1 == j.len() || j[p + 1]
            == c by {
            assert(parts[0][p] == '\\');
        }
    } else if parts.len() > 1 {
        let dl = parts.drop_last();
        assert forall|k: int, m: int|
            0 <= k < dl.len() && 0 <= m < dl[k].len() && #[trigger] dl[k][m] == '\\' implies m == dl[k].len()
                - 1 by {
            assert(dl[k] == parts[k]);
        }
        lemma_join_end_backslash(dl, c);
        let jd = join(dl, seq![c]);
        let last = parts.last();
        assert(j == jd + seq![c] + last);
        assert forall|p: int| 0 <= p < j.len() && #[trigger] j[p] == '\\' implies p + 1 == j.len() || j[p + 1]
            == c by {
            if p < jd.len() {
                assert(j[p] == jd[p]);
                if p + 1 < jd.len() {
                    assert(j[p + 1] == jd[p + 1]);
                } else {
                    assert(j[p + 1] == c);
                }
            } else if p > jd.len() {
                let m = p - jd.len() - 1;
                assert(j[p] == last[m]);
                assert(parts[parts.len() - 1][m] == '\\');
            }
        }
    }
}


/// A character that the text does not hold is in no piece of its split.
pub proof fn lemma_split_pieces_avoid(s: Seq<char>, c: char, d: char)
    requires
        forall|m: int| 0 <= m < s.len() ==> #[trigger] s[m] != d,
    ensures
        forall|k: int, m: int|
            0 <= k < split_char(s, c).len() && 0 <= m < split_char(s, c)[k].len()
                ==> #[trigger] split_char(s, c)[k][m] != d,
    decreases s.len(),
{
    lemma_split_char_len(s, c);
    if s.len() > 0 {
        let s0 = s.drop_last();
        assert forall|m: int| 0 <= m < s0.len() implies #[trigger] s0[m] != d by {
            assert(s0[m] == s[m]);
        }
        lemma_split_pieces_avoid(s0, c, d);
        lemma_split_char_len(s0, c);
        let p = split_char(s0, c);
        let q = split_char(s, c);
        assert forall|k: int, m: int| 0 <= k < q.len() && 0 <= m < q[k].len() implies #[trigger] q[k][m]
            != d by {
            if s.last() == c {
                if k < p.len() {
                    assert(q[k] == p[k]);
                }
            } else {
                if k < p.len() - 1 {
                    assert(q[k] == p[k]);
                } else {
                    assert(q[k] == p.last().push(s.last()));
                    if m < p.last().len() {
                        assert(q[k][m] == p[p.len() - 1][m]);
                    } else {
                        assert(s[s.len() - 1] != d);
                    }
                }
            }
        }
    }
}

} // verus!
