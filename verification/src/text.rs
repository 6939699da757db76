//! Character-level text utilities with exact specifications.
//!
//! Text is modelled as `Seq<char>`, which is the view vstd gives to `str` and
//! `String`. Searching on valid UTF-8 finds matches at character boundaries only,
//! so the character-level definitions below agree with std's byte-level ones.
use vstd::prelude::*;

verus! {

/// Unicode `White_Space` property, which is what `char::is_whitespace` tests.
pub open spec fn is_ws(c: char) -> bool {
    ||| ('\u{9}' <= c && c <= '\u{d}')
    ||| c == ' '
    ||| c == '\u{85}'
    ||| c == '\u{a0}'
    ||| c == '\u{1680}'
    ||| ('\u{2000}' <= c && c <= '\u{200a}')
    ||| c == '\u{2028}'
    ||| c == '\u{2029}'
    ||| c == '\u{202f}'
    ||| c == '\u{205f}'
    ||| c == '\u{3000}'
}

/// Whether `c` is Unicode white space.
pub fn is_whitespace(c: char) -> (r: bool)
    ensures
        r == is_ws(c),
{
    ('\u{9}' <= c && c <= '\u{d}') || c == ' ' || c == '\u{85}' || c == '\u{a0}' || c
        == '\u{1680}' || ('\u{2000}' <= c && c <= '\u{200a}') || c == '\u{2028}' || c
        == '\u{2029}' || c == '\u{202f}' || c == '\u{205f}' || c == '\u{3000}'
}

/// `s` without its leading white space.
pub open spec fn trim_start(s: Seq<char>) -> Seq<char>
    decreases s.len(),
{
    if s.len() > 0 && is_ws(s[0]) {
        trim_start(s.drop_first())
    } else {
        s
    }
}

/// `s` without its trailing white space.
pub open spec fn trim_end(s: Seq<char>) -> Seq<char>
    decreases s.len(),
{
    if s.len() > 0 && is_ws(s.last()) {
        trim_end(s.drop_last())
    } else {
        s
    }
}

/// `s` without leading and trailing white space, as `str::trim` returns it.
pub open spec fn trim(s: Seq<char>) -> Seq<char> {
    trim_end(trim_start(s))
}

/// Whether `s` ends with `suffix`.
pub open spec fn ends_with(s: Seq<char>, suffix: Seq<char>) -> bool {
    suffix.len() <= s.len() && s.subrange(s.len() - suffix.len(), s.len() as int) == suffix
}

/// Whether `needle` occurs in `hay` starting at index `i`.
pub open spec fn occurs_at(hay: Seq<char>, needle: Seq<char>, i: int) -> bool {
    0 <= i && i + needle.len() <= hay.len() && hay.subrange(i, i + needle.len()) == needle
}

/// Whether `needle` occurs anywhere in `hay`.
pub open spec fn contains(hay: Seq<char>, needle: Seq<char>) -> bool {
    exists|i: int| occurs_at(hay, needle, i)
}

/// The decimal digit for `d < 10`.
pub open spec fn digit_char(d: nat) -> char {
    if d == 0 {
        '0'
    } else if d == 1 {
        '1'
    } else if d == 2 {
        '2'
    } else if d == 3 {
        '3'
    } else if d == 4 {
        '4'
    } else if d == 5 {
        '5'
    } else if d == 6 {
        '6'
    } else if d == 7 {
        '7'
    } else if d == 8 {
        '8'
    } else {
        '9'
    }
}

/// The decimal notation of `n`, as `format!("{}", n)` writes it.
pub open spec fn decimal(n: nat) -> Seq<char>
    decreases n,
{
    if n < 10 {
        seq![digit_char(n)]
    } else {
        decimal(n / 10) + seq![digit_char(n % 10)]
    }
}

/// `s` with every non-overlapping occurrence of `from`, scanned from the left,
/// replaced by `to`; an empty `from` matches before every character and at the end.
/// This is what `str::replace` computes.
pub open spec fn replace_all(s: Seq<char>, from: Seq<char>, to: Seq<char>) -> Seq<char>
    decreases s.len(),
{
    if from.len() == 0 {
        if s.len() == 0 {
            to
        } else {
            to + seq![s[0]] + replace_all(s.drop_first(), from, to)
        }
    } else if s.len() < from.len() {
        s
    } else if s.subrange(0, from.len() as int) == from {
        to + replace_all(s.subrange(from.len() as int, s.len() as int), from, to)
    } else {
        seq![s[0]] + replace_all(s.drop_first(), from, to)
    }
}

/// The pieces of `cur + s` between the non-overlapping occurrences of the
/// non-empty separator `sep`, scanned from the left.
pub open spec fn split_acc(s: Seq<char>, sep: Seq<char>, cur: Seq<char>) -> Seq<Seq<char>>
    recommends
        sep.len() > 0,
    decreases s.len(),
{
    if sep.len() == 0 || s.len() < sep.len() {
        seq![cur + s]
    } else if s.subrange(0, sep.len() as int) == sep {
        seq![cur] + split_acc(s.subrange(sep.len() as int, s.len() as int), sep, seq![])
    } else {
        split_acc(s.drop_first(), sep, cur.push(s[0]))
    }
}

/// The pieces of `s` separated by `sep`, as `str::split` yields them.
pub open spec fn split(s: Seq<char>, sep: Seq<char>) -> Seq<Seq<char>> {
    split_acc(s, sep, seq![])
}

/// The pieces joined with `sep` between neighbours, as `join` builds them.
pub open spec fn join(pieces: Seq<Seq<char>>, sep: Seq<char>) -> Seq<char>
    decreases pieces.len(),
{
    if pieces.len() == 0 {
        seq![]
    } else if pieces.len() == 1 {
        pieces[0]
    } else {
        join(pieces.drop_last(), sep) + sep + pieces.last()
    }
}

/// Builds a `String` from its characters.
#[verifier::external_body]
pub(crate) fn string_from_chars(v: &[char]) -> (r: String)
    ensures
        r@ == v@,
{
    v.iter().collect()
}

/// Whether `a` and `b` hold the same characters.
pub fn chars_eq(a: &[char], b: &[char]) -> (r: bool)
    ensures
        r == (a@ == b@),
{
    if a.len() != b.len() {
        return false;
    }
    let mut i: usize = 0;
    while i < a.len()
        invariant
            i <= a@.len() == b@.len(),
            a@.take(i as int) == b@.take(i as int),
        decreases a.len() - i,
    {
        if a[i] != b[i] {
            assert(a@[i as int] != b@[i as int]);
            return false;
        }
        assert(a@.take(i + 1) == a@.take(i as int).push(a@[i as int]));
        assert(b@.take(i + 1) == b@.take(i as int).push(b@[i as int]));
        i += 1;
    }
    assert(a@.take(a@.len() as int) == a@);
    assert(b@.take(b@.len() as int) == b@);
    true
}

/// The characters of a string slice, in order.
pub fn chars_of(s: &str) -> (r: Vec<char>)
    ensures
        r@ == s@,
{
    let mut r: Vec<char> = Vec::new();
    for c in it: s.chars()
        invariant
            r@ == it.seq().take(it.index() as int),
            it.seq() == s@,
    {
        r.push(c);
    }
    r
}

/// Appends `src` to `dst`.
pub fn push_all(dst: &mut Vec<char>, src: &[char])
    ensures
        final(dst)@ == old(dst)@ + src@,
{
    let ghost d0 = dst@;
    for i in 0..src.len()
        invariant
            dst@ == d0 + src@.take(i as int),
    {
        dst.push(src[i]);
        assert(src@.take(i + 1) == src@.take(i as int).push(src@[i as int]));
    }
    assert(src@.take(src.len() as int) == src@);
}

proof fn lemma_trim_start_skip(s: Seq<char>, i: int)
    requires
        0 <= i <= s.len(),
        forall|k: int| 0 <= k < i ==> is_ws(#[trigger] s[k]),
    ensures
        trim_start(s) == trim_start(s.subrange(i, s.len() as int)),
    decreases i,
{
    if i > 0 {
        lemma_trim_start_skip(s.drop_first(), i - 1);
        assert(s.drop_first().subrange(i - 1, s.drop_first().len() as int) == s.subrange(
            i,
            s.len() as int,
        ));
    } else {
        assert(s.subrange(0, s.len() as int) == s);
    }
}

proof fn lemma_trim_end_take(s: Seq<char>, j: int)
    requires
        0 <= j <= s.len(),
        forall|k: int| j <= k < s.len() ==> is_ws(#[trigger] s[k]),
    ensures
        trim_end(s) == trim_end(s.subrange(0, j)),
    decreases s.len() - j,
{
    if j < s.len() {
        lemma_trim_end_take(s.drop_last(), j);
        assert(s.drop_last().subrange(0, j) == s.subrange(0, j));
    } else {
        assert(s.subrange(0, s.len() as int) == s);
    }
}

/// The bounds `(lo, hi)` of `trim(v)` in `v`.
pub fn trim_bounds(v: &[char]) -> (r: (usize, usize))
    ensures
        r.0 <= r.1 <= v@.len(),
        v@.subrange(r.0 as int, r.1 as int) == trim(v@),
{
    let n = v.len();
    let mut lo: usize = 0;
    while lo < n && is_whitespace(v[lo])
        invariant
            lo <= n == v@.len(),
            forall|k: int| 0 <= k < lo ==> is_ws(#[trigger] v@[k]),
        decreases n - lo,
    {
        lo += 1;
    }
    proof {
        lemma_trim_start_skip(v@, lo as int);
        let t = v@.subrange(lo as int, n as int);
        if lo < n {
            assert(!is_ws(t[0]));
        }
        assert(trim_start(v@) == t);
    }
    let mut hi: usize = n;
    while hi > lo && is_whitespace(v[hi - 1])
        invariant
            lo <= hi <= n == v@.len(),
            forall|k: int| hi <= k < n ==> is_ws(#[trigger] v@[k]),
        decreases hi,
    {
        hi -= 1;
    }
    proof {
        let t = v@.subrange(lo as int, n as int);
        lemma_trim_end_take(t, hi - lo);
        assert(t.subrange(0, hi - lo) == v@.subrange(lo as int, hi as int));
        let u = v@.subrange(lo as int, hi as int);
        if hi > lo {
            assert(!is_ws(u.last()));
        }
        assert(trim_end(u) == u);
    }
    (lo, hi)
}

/// `trim(v)` as a new vector.
pub fn trim_chars(v: &[char]) -> (r: Vec<char>)
    ensures
        r@ == trim(v@),
{
    let (lo, hi) = trim_bounds(v);
    let mut r: Vec<char> = Vec::new();
    for i in lo..hi
        invariant
            lo <= hi <= v@.len(),
            r@ == v@.subrange(lo as int, i as int),
    {
        r.push(v[i]);
        assert(v@.subrange(lo as int, i + 1) == v@.subrange(lo as int, i as int).push(v@[i as int]));
    }
    r
}

/// Whether `trim(v)` is empty, that is, whether `v` holds only white space.
pub fn is_blank(v: &[char]) -> (r: bool)
    ensures
        r == (trim(v@).len() == 0),
{
    let (lo, hi) = trim_bounds(v);
    lo == hi
}

/// Whether `v` ends with `suffix`.
pub fn ends_with_chars(v: &[char], suffix: &[char]) -> (r: bool)
    ensures
        r == ends_with(v@, suffix@),
{
    if suffix.len() > v.len() {
        return false;
    }
    let off = v.len() - suffix.len();
    let mut i: usize = 0;
    while i < suffix.len()
        invariant
            off + suffix@.len() == v@.len(),
            off + suffix.len() == v.len(),
            i <= suffix@.len(),
            forall|k: int| 0 <= k < i ==> v@[off + k] == suffix@[k],
        decreases suffix.len() - i,
    {
        if v[off + i] != suffix[i] {
            assert(v@.subrange(off as int, v@.len() as int)[i as int] != suffix@[i as int]);
            return false;
        }
        i += 1;
    }
    assert(v@.subrange(off as int, v@.len() as int) =~= suffix@);
    true
}

/// Whether `needle` occurs in `hay` at index `i`.
pub fn occurs_at_exec(hay: &[char], needle: &[char], i: usize) -> (r: bool)
    ensures
        r == occurs_at(hay@, needle@, i as int),
{
    if i > hay.len() || needle.len() > hay.len() - i {
        return false;
    }
    let mut k: usize = 0;
    while k < needle.len()
        invariant
            i + needle@.len() <= hay@.len(),
            i + needle.len() <= hay.len(),
            k <= needle@.len(),
            forall|m: int| 0 <= m < k ==> hay@[i + m] == needle@[m],
        decreases needle.len() - k,
    {
        if hay[i + k] != needle[k] {
            assert(hay@.subrange(i as int, i + needle@.len())[k as int] != needle@[k as int]);
            return false;
        }
        k += 1;
    }
    assert(hay@.subrange(i as int, i + needle@.len()) =~= needle@);
    true
}

/// Whether `needle` occurs anywhere in `hay`.
pub fn contains_chars(hay: &[char], needle: &[char]) -> (r: bool)
    ensures
        r == contains(hay@, needle@),
{
    if needle.len() > hay.len() {
        assert forall|i: int| !occurs_at(hay@, needle@, i) by {}
        return false;
    }
    let last = hay.len() - needle.len();
    let mut i: usize = 0;
    loop
        invariant
            last + needle@.len() == hay@.len(),
            i <= last,
            forall|k: int| 0 <= k < i ==> !occurs_at(hay@, needle@, k),
        ensures
            forall|k: int| 0 <= k <= last ==> !occurs_at(hay@, needle@, k),
        decreases last - i,
    {
        if occurs_at_exec(hay, needle, i) {
            return true;
        }
        if i == last {
            break;
        }
        i += 1;
    }
    assert forall|k: int| !occurs_at(hay@, needle@, k) by {}
    false
}

/// The decimal notation of `n`.
pub fn decimal_chars(n: usize) -> (r: Vec<char>)
    ensures
        r@ == decimal(n as nat),
    decreases n,
{
    let d = n % 10;
    let c = if d == 0 {
        '0'
    } else if d == 1 {
        '1'
    } else if d == 2 {
        '2'
    } else if d == 3 {
        '3'
    } else if d == 4 {
        '4'
    } else if d == 5 {
        '5'
    } else if d == 6 {
        '6'
    } else if d == 7 {
        '7'
    } else if d == 8 {
        '8'
    } else {
        '9'
    };
    if n < 10 {
        let mut r = Vec::new();
        r.push(c);
        r
    } else {
        let mut r = decimal_chars(n / 10);
        r.push(c);
        r
    }
}

/// `replace_all(s, from, to)`, as `str::replace` computes it.
pub fn replace_chars(s: &[char], from: &[char], to: &[char]) -> (r: Vec<char>)
    ensures
        r@ == replace_all(s@, from@, to@),
{
    let n = s.len();
    let mut out: Vec<char> = Vec::new();
    let mut i: usize = 0;
    assert(s@.subrange(0, n as int) == s@);
    if from.len() == 0 {
        while i < n
            invariant
                i <= n == s@.len(),
                from@.len() == 0,
                replace_all(s@, from@, to@) == out@ + replace_all(
                    s@.subrange(i as int, n as int),
                    from@,
                    to@,
                ),
            decreases n - i,
        {
            let ghost rest = s@.subrange(i as int, n as int);
            assert(rest.drop_first() == s@.subrange(i + 1, n as int));
            push_all(&mut out, to);
            out.push(s[i]);
            i += 1;
        }
        push_all(&mut out, to);
        return out;
    }
    assert(s@.subrange(0, n as int) == s@);
    while i < n
        invariant
            i <= n == s@.len(),
            from@.len() > 0,
            replace_all(s@, from@, to@) == out@ + replace_all(
                s@.subrange(i as int, n as int),
                from@,
                to@,
            ),
        decreases n - i,
    {
        let ghost rest = s@.subrange(i as int, n as int);
        if occurs_at_exec(s, from, i) {
            assert(rest.subrange(0, from@.len() as int) == s@.subrange(i as int, i + from@.len()));
            assert(rest.subrange(from@.len() as int, rest.len() as int) == s@.subrange(
                i + from@.len(),
                n as int,
            ));
            push_all(&mut out, to);
            i += from.len();
        } else if from.len() <= n - i {
            assert(rest.subrange(0, from@.len() as int) == s@.subrange(i as int, i + from@.len()));
            assert(rest.drop_first() == s@.subrange(i + 1, n as int));
            out.push(s[i]);
            i += 1;
        } else {
            assert(replace_all(rest, from@, to@) == rest);
            let ghost out0 = out@;
            for k in i..n
                invariant
                    i <= n == s@.len(),
                    out@ == out0 + s@.subrange(i as int, k as int),
            {
                out.push(s[k]);
                assert(s@.subrange(i as int, k + 1) == s@.subrange(i as int, k as int).push(
                    s@[k as int],
                ));
            }
            return out;
        }
    }
    assert(s@.subrange(n as int, n as int) == Seq::<char>::empty());
    out
}

/// The character sequences held by a vector of character vectors.
pub open spec fn views(v: Seq<Vec<char>>) -> Seq<Seq<char>> {
    v.map_values(|x: Vec<char>| x@)
}

/// `split(s, sep)` for a non-empty separator.
pub fn split_chars(s: &[char], sep: &[char]) -> (r: Vec<Vec<char>>)
    requires
        sep@.len() > 0,
    ensures
        views(r@) == split(s@, sep@),
{
    let n = s.len();
    let mut out: Vec<Vec<char>> = Vec::new();
    let mut cur: Vec<char> = Vec::new();
    let mut i: usize = 0;
    assert(s@.subrange(0, n as int) == s@);
    assert(views(out@) == Seq::<Seq<char>>::empty());
    while i < n
        invariant
            i <= n == s@.len(),
            sep@.len() > 0,
            split(s@, sep@) == views(out@) + split_acc(s@.subrange(i as int, n as int), sep@, cur@),
        decreases n - i,
    {
        let ghost rest = s@.subrange(i as int, n as int);
        if sep.len() <= n - i {
            assert(rest.subrange(0, sep@.len() as int) == s@.subrange(i as int, i + sep@.len()));
            if occurs_at_exec(s, sep, i) {
                assert(rest.subrange(sep@.len() as int, rest.len() as int) == s@.subrange(
                    i + sep@.len(),
                    n as int,
                ));
                let ghost o = views(out@);
                out.push(cur);
                assert(views(out@) == o.push(cur@));
                cur = Vec::new();
                i += sep.len();
            } else {
                assert(rest.drop_first() == s@.subrange(i + 1, n as int));
                cur.push(s[i]);
                i += 1;
            }
        } else {
            let ghost c0 = cur@;
            for k in i..n
                invariant
                    i <= n == s@.len(),
                    cur@ == c0 + s@.subrange(i as int, k as int),
            {
                cur.push(s[k]);
                assert(s@.subrange(i as int, k + 1) == s@.subrange(i as int, k as int).push(
                    s@[k as int],
                ));
            }
            let ghost o = views(out@);
            out.push(cur);
            assert(views(out@) == o.push(c0 + rest));
            return out;
        }
    }
    let ghost o = views(out@);
    let ghost c = cur@;
    assert(s@.subrange(n as int, n as int) =~= Seq::<char>::empty());
    assert(c + Seq::<char>::empty() == c);
    out.push(cur);
    assert(views(out@) == o.push(c));
    out
}

/// `join(pieces, sep)`.
pub fn join_chars(pieces: &Vec<Vec<char>>, sep: &[char]) -> (r: Vec<char>)
    ensures
        r@ == join(views(pieces@), sep@),
{
    let mut out: Vec<char> = Vec::new();
    let mut i: usize = 0;
    while i < pieces.len()
        invariant
            i <= pieces@.len(),
            out@ == join(views(pieces@).take(i as int), sep@),
        decreases pieces.len() - i,
    {
        let ghost t = views(pieces@).take(i + 1);
        assert(t.drop_last() == views(pieces@).take(i as int));
        if i > 0 {
            push_all(&mut out, sep);
        } else {
            assert(out@ == Seq::<char>::empty());
        }
        push_all(&mut out, pieces[i].as_slice());
        i += 1;
    }
    assert(views(pieces@).take(pieces@.len() as int) == views(pieces@));
    out
}

/// The lowercase form of `s` that `str::to_lowercase` returns (Unicode lowercase
/// mapping, a function of the text alone).
pub uninterp spec fn lowercase(s: Seq<char>) -> Seq<char>;

/// Whether every character of `s` is ASCII.
pub open spec fn is_ascii_text(s: Seq<char>) -> bool {
    forall|i: int| 0 <= i < s.len() ==> (#[trigger] s[i] as u32) < 128
}

/// The ASCII lowercase of `c`: `A`..`Z` become `a`..`z`, anything else stays.
pub open spec fn ascii_lower(c: char) -> char {
    if 'A' <= c && c <= 'Z' {
        ((c as u32) + 32) as char
    } else {
        c
    }
}

/// Calls `str::to_lowercase`. The contract names its result; of the Unicode case
/// mapping it states only the ASCII part: on ASCII text, `A`..`Z` become
/// `a`..`z` and every other character stays.
#[verifier::external_body]
pub(crate) fn to_lowercase(s: &str) -> (r: String)
    ensures
        r@ == lowercase(s@),
        is_ascii_text(s@) ==> r@ == s@.map_values(|c: char| ascii_lower(c)),
{
    s.to_lowercase()
}

} // verus!
