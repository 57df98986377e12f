//! Character-level text model: whitespace, trimming, ASCII case folding,
//! splitting on a separator and searching for a character.
use vstd::prelude::*;

verus! {

/// Whether `c` has the Unicode `White_Space` property, the set of characters
/// that `char::is_whitespace` accepts and that `str::trim` removes.
pub open spec fn is_white(c: char) -> bool {
    ||| ('\u{9}' <= c && c <= '\u{d}')
    ||| c == ' '
    ||| c == '\u{85}'
    ||| c == '\u{a0}'
    ||| c == '\u{1680}'
    ||| ('\u{2000}' <= c && c <= '\u{200a}')
    ||| c == '\u{2028}'
    ||| c == '\u{2029}'
    ||| c == '\u{202f}'
    ||| c == '\u{205f}'
    ||| c == '\u{3000}'
}

/// Executable whitespace test.
pub fn char_is_white(c: char) -> (r: bool)
    ensures
        r == is_white(c),
{
    ('\u{9}' <= c && c <= '\u{d}') || c == ' ' || c == '\u{85}' || c == '\u{a0}' || c == '\u{1680}'
        || ('\u{2000}' <= c && c <= '\u{200a}') || c == '\u{2028}' || c == '\u{2029}' || c
        == '\u{202f}' || c == '\u{205f}' || c == '\u{3000}'
}

/// `s` without its leading whitespace.
pub open spec fn trim_start(s: Seq<char>) -> Seq<char>
    decreases s.len(),
{
    if s.len() > 0 && is_white(s[0]) {
        trim_start(s.drop_first())
    } else {
        s
    }
}

/// `s` without its trailing whitespace.
pub open spec fn trim_end(s: Seq<char>) -> Seq<char>
    decreases s.len(),
{
    if s.len() > 0 && is_white(s.last()) {
        trim_end(s.drop_last())
    } else {
        s
    }
}

/// `s` without leading and trailing whitespace (what `str::trim` gives).
pub open spec fn trim(s: Seq<char>) -> Seq<char> {
    trim_end(trim_start(s))
}

/// ASCII lower case of one character; other characters are kept.
pub open spec fn ascii_lower(c: char) -> char {
    if 'A' <= c && c <= 'Z' {
        ((c as u32) + 32) as char
    } else {
        c
    }
}

/// ASCII lower case of a text (what `str::to_ascii_lowercase` gives).
pub open spec fn to_ascii_lower(s: Seq<char>) -> Seq<char> {
    s.map_values(|c: char| ascii_lower(c))
}

/// `a` comes before `b` in the order of texts: compared character by
/// character by code point, a proper prefix first (the order of `str`,
/// whose byte order follows the code points).
pub open spec fn text_lt(a: Seq<char>, b: Seq<char>) -> bool {
    exists|i: int|
        0 <= i <= a.len() && i <= b.len() && #[trigger] a.take(i) == b.take(i) && ((i == a.len()
            && i < b.len()) || (i < a.len() && i < b.len() && (a[i] as u32) < (b[i] as u32)))
}

/// The pieces of `s` between occurrences of `sep`, in order; a text with `k`
/// separators has `k + 1` pieces, empty ones included (what `str::split` gives).
pub open spec fn split_on(s: Seq<char>, sep: char) -> Seq<Seq<char>>
    decreases s.len(),
{
    if s.len() == 0 {
        seq![Seq::<char>::empty()]
    } else {
        let init = split_on(s.drop_last(), sep);
        if s.last() == sep {
            init.push(Seq::<char>::empty())
        } else {
            init.update(init.len() - 1, init.last().push(s.last()))
        }
    }
}

/// `i` is the position of the first `c` in `s`.
pub open spec fn is_first_index(s: Seq<char>, c: char, i: int) -> bool {
    &&& 0 <= i < s.len()
    &&& s[i] == c
    &&& forall|j: int| 0 <= j < i ==> s[j] != c
}

/// The position of the first `c` in `s`, if there is one.
pub open spec fn first_index_of(s: Seq<char>, c: char) -> Option<int> {
    if exists|i: int| is_first_index(s, c, i) {
        Some(choose|i: int| is_first_index(s, c, i))
    } else {
        None
    }
}

/// A text split at a separator has at least one piece.
pub proof fn lemma_split_on_nonempty(s: Seq<char>, sep: char)
    ensures
        split_on(s, sep).len() >= 1,
    decreases s.len(),
{
    if s.len() > 0 {
        lemma_split_on_nonempty(s.drop_last(), sep);
    }
}

/// Splitting `a`, a separator and `b` gives the pieces of `a` followed by
/// the pieces of `b`.
pub proof fn lemma_split_on_concat(a: Seq<char>, b: Seq<char>, sep: char)
    ensures
        split_on(a + seq![sep] + b, sep) == split_on(a, sep) + split_on(b, sep),
    decreases b.len(),
{
    let ab = a + seq![sep] + b;
    if b.len() == 0 {
        assert(ab.drop_last() =~= a);
        assert(split_on(ab, sep) =~= split_on(a, sep) + split_on(b, sep));
    } else {
        let b0 = b.drop_last();
        lemma_split_on_concat(a, b0, sep);
        assert(ab.drop_last() =~= a + seq![sep] + b0);
        lemma_split_on_nonempty(b0, sep);
        lemma_split_on_nonempty(a, sep);
        let x = split_on(a, sep);
        let y = split_on(b0, sep);
        if b.last() == sep {
            assert((x + y).push(Seq::<char>::empty()) =~= x + y.push(Seq::<char>::empty()));
        } else {
            let c = b.last();
            assert((x + y).update((x + y).len() - 1, (x + y).last().push(c)) =~= x + y.update(
                y.len() - 1,
                y.last().push(c),
            ));
        }
    }
}

/// A text without the separator is a single piece.
pub proof fn lemma_split_on_no_sep(s: Seq<char>, sep: char)
    requires
        forall|i: int| 0 <= i < s.len() ==> s[i] != sep,
    ensures
        split_on(s, sep) == seq![s],
    decreases s.len(),
{
    if s.len() > 0 {
        lemma_split_on_no_sep(s.drop_last(), sep);
        assert(s[s.len() - 1] != sep);
        assert(s.drop_last().push(s.last()) =~= s);
        assert(split_on(s, sep) =~= seq![s]);
    } else {
        assert(s =~= Seq::<char>::empty());
        assert(split_on(s, sep) =~= seq![s]);
    }
}

/// Every character of `w` is whitespace.
pub open spec fn all_white(w: Seq<char>) -> bool {
    forall|i: int| 0 <= i < w.len() ==> is_white(#[trigger] w[i])
}

/// Leading whitespace is dropped by `trim_start`.
pub proof fn lemma_trim_start_white_prefix(w: Seq<char>, x: Seq<char>)
    requires
        all_white(w),
    ensures
        trim_start(w + x) == trim_start(x),
    decreases w.len(),
{
    if w.len() == 0 {
        assert(w + x =~= x);
    } else {
        assert((w + x)[0] == w[0]);
        assert((w + x).drop_first() =~= w.drop_first() + x);
        lemma_trim_start_white_prefix(w.drop_first(), x);
    }
}

/// Trailing whitespace is dropped by `trim_end`.
pub proof fn lemma_trim_end_white_suffix(x: Seq<char>, w: Seq<char>)
    requires
        all_white(w),
    ensures
        trim_end(x + w) == trim_end(x),
    decreases w.len(),
{
    if w.len() == 0 {
        assert(x + w =~= x);
    } else {
        assert((x + w).last() == w.last());
        assert((x + w).drop_last() =~= x + w.drop_last());
        lemma_trim_end_white_suffix(x, w.drop_last());
    }
}

/// `trim_start` of a text followed by whitespace: the trimmed text followed
/// by that whitespace, or nothing when the text is blank.
pub proof fn lemma_trim_start_white_suffix(e: Seq<char>, w: Seq<char>)
    requires
        all_white(w),
    ensures
        trim_start(e + w) == (if trim_start(e).len() == 0 {
            Seq::<char>::empty()
        } else {
            trim_start(e) + w
        }),
    decreases e.len(),
{
    if e.len() == 0 {
        lemma_trim_start_white_prefix(w, Seq::<char>::empty());
        assert(w + Seq::<char>::empty() =~= w);
        assert(e + w =~= w);
    } else {
        assert((e + w)[0] == e[0]);
        if is_white(e[0]) {
            assert((e + w).drop_first() =~= e.drop_first() + w);
            lemma_trim_start_white_suffix(e.drop_first(), w);
        }
    }
}

/// Whitespace around a text does not change its trimmed form.
pub proof fn lemma_trim_white_around(w1: Seq<char>, e: Seq<char>, w2: Seq<char>)
    requires
        all_white(w1),
        all_white(w2),
    ensures
        trim(w1 + e + w2) == trim(e),
{
    assert(w1 + e + w2 =~= w1 + (e + w2));
    lemma_trim_start_white_prefix(w1, e + w2);
    lemma_trim_start_white_suffix(e, w2);
    if trim_start(e).len() != 0 {
        lemma_trim_end_white_suffix(trim_start(e), w2);
    } else {
        assert(trim_start(e) =~= Seq::<char>::empty());
    }
}

/// The shape of `trim_start(s)`: `s` from the first non-whitespace
/// character on, after only whitespace.
pub proof fn lemma_trim_start_shape(s: Seq<char>) -> (j: int)
    ensures
        0 <= j <= s.len(),
        trim_start(s) == s.subrange(j, s.len() as int),
        all_white(s.subrange(0, j)),
        j < s.len() ==> !is_white(s[j]),
    decreases s.len(),
{
    if s.len() > 0 && is_white(s[0]) {
        let j0 = lemma_trim_start_shape(s.drop_first());
        assert(s.drop_first().subrange(j0, s.drop_first().len() as int) =~= s.subrange(
            j0 + 1,
            s.len() as int,
        ));
        assert forall|i: int| 0 <= i < j0 + 1 implies is_white(#[trigger] s.subrange(0, j0 + 1)[i]) by {
            if i > 0 {
                assert(s.subrange(0, j0 + 1)[i] == s.drop_first().subrange(0, j0)[i - 1]);
            }
        }
        j0 + 1
    } else {
        assert(s.subrange(0, s.len() as int) =~= s);
        0
    }
}

/// The shape of `trim_end(s)`: `s` up to its last non-whitespace
/// character, before only whitespace.
pub proof fn lemma_trim_end_shape(s: Seq<char>) -> (b: int)
    ensures
        0 <= b <= s.len(),
        trim_end(s) == s.subrange(0, b),
        all_white(s.subrange(b, s.len() as int)),
        b > 0 ==> !is_white(s[b - 1]),
    decreases s.len(),
{
    if s.len() > 0 && is_white(s.last()) {
        let b0 = lemma_trim_end_shape(s.drop_last());
        assert(s.drop_last().subrange(0, b0) =~= s.subrange(0, b0));
        assert forall|i: int| 0 <= i < s.len() - b0 implies is_white(
            #[trigger] s.subrange(b0, s.len() as int)[i],
        ) by {
            if i < s.len() - 1 - b0 {
                assert(s.subrange(b0, s.len() as int)[i] == s.drop_last().subrange(
                    b0,
                    s.drop_last().len() as int,
                )[i]);
            } else {
                assert(s.subrange(b0, s.len() as int)[i] == s.last());
            }
        }
        b0
    } else {
        assert(s.subrange(0, s.len() as int) =~= s);
        s.len() as int
    }
}

/// `trim` removes exactly the leading and trailing whitespace: `s` is
/// whitespace, then `trim(s)`, then whitespace, and `trim(s)` is empty or
/// begins and ends with a character that is not whitespace.
pub proof fn law_trim_strips_white_ends(s: Seq<char>)
    ensures
        exists|w1: Seq<char>, w2: Seq<char>|
            all_white(w1) && all_white(w2) && s == w1 + trim(s) + w2,
        trim(s).len() > 0 ==> !is_white(trim(s)[0]) && !is_white(trim(s).last()),
{
    let j = lemma_trim_start_shape(s);
    let t = trim_start(s);
    let b = lemma_trim_end_shape(t);
    let w1 = s.subrange(0, j);
    let w2 = t.subrange(b, t.len() as int);
    assert(s =~= w1 + trim(s) + w2);
    if trim(s).len() > 0 {
        assert(trim(s)[0] == s[j]);
        assert(trim(s).last() == t[b - 1]);
    }
}

/// Before a text that begins with a character that is not whitespace,
/// `trim_start` only trims what precedes it.
pub proof fn lemma_trim_start_before_mark(x: Seq<char>, z: Seq<char>)
    requires
        z.len() > 0,
        !is_white(z[0]),
    ensures
        trim_start(x + z) == trim_start(x) + z,
{
    let j = lemma_trim_start_shape(x);
    let rest = x.subrange(j, x.len() as int);
    assert(x + z =~= x.subrange(0, j) + (rest + z));
    lemma_trim_start_white_prefix(x.subrange(0, j), rest + z);
    assert((rest + z)[0] == if rest.len() > 0 {
        rest[0]
    } else {
        z[0]
    });
    if rest.len() > 0 {
        assert(rest[0] == x[j]);
    }
}

/// After a text that ends with a character that is not whitespace,
/// `trim_end` only trims what follows it.
pub proof fn lemma_trim_end_after_mark(z: Seq<char>, y: Seq<char>)
    requires
        z.len() > 0,
        !is_white(z.last()),
    ensures
        trim_end(z + y) == z + trim_end(y),
{
    let b = lemma_trim_end_shape(y);
    let head = y.subrange(0, b);
    assert(z + y =~= (z + head) + y.subrange(b, y.len() as int));
    lemma_trim_end_white_suffix(z + head, y.subrange(b, y.len() as int));
    if head.len() > 0 {
        assert((z + head).last() == y[b - 1]);
    } else {
        assert((z + head).last() == z.last());
    }
    assert(z + head == z + trim_end(y));
}

/// Trimming twice is trimming once, at the start and overall.
pub proof fn lemma_trim_idempotent(s: Seq<char>)
    ensures
        trim_start(trim_start(s)) == trim_start(s),
        trim(trim_end(s)) == trim(s),
        trim(trim_start(s)) == trim(s),
{
    let j = lemma_trim_start_shape(s);
    let t = trim_start(s);
    if t.len() > 0 {
        assert(t[0] == s[j]);
    }
    let b = lemma_trim_end_shape(s);
    let w = s.subrange(b, s.len() as int);
    assert(s =~= Seq::<char>::empty() + trim_end(s) + w);
    assert(all_white(Seq::<char>::empty()));
    lemma_trim_white_around(Seq::<char>::empty(), trim_end(s), w);
}

/// `trim_start` keeps a final part of the text, so it holds no character
/// that the text does not hold.
pub proof fn lemma_trim_start_no_char(s: Seq<char>, c: char)
    requires
        forall|i: int| 0 <= i < s.len() ==> s[i] != c,
    ensures
        forall|i: int| 0 <= i < trim_start(s).len() ==> trim_start(s)[i] != c,
{
    let j = lemma_trim_start_shape(s);
    assert forall|i: int| 0 <= i < trim_start(s).len() implies trim_start(s)[i] != c by {
        assert(trim_start(s)[i] == s[i + j]);
    }
}

/// The characters that count as whitespace, one by one: the Unicode
/// `White_Space` set that `char::is_whitespace` tests, carriage return and
/// the other ASCII control spaces included.
pub proof fn law_white_space_set(c: char)
    ensures
        is_white(c) <==> (c == '\t' || c == '\n' || c == '\u{b}' || c == '\u{c}' || c == '\r' || c
            == ' ' || c == '\u{85}' || c == '\u{a0}' || c == '\u{1680}' || c == '\u{2000}' || c
            == '\u{2001}' || c == '\u{2002}' || c == '\u{2003}' || c == '\u{2004}' || c
            == '\u{2005}' || c == '\u{2006}' || c == '\u{2007}' || c == '\u{2008}' || c
            == '\u{2009}' || c == '\u{200a}' || c == '\u{2028}' || c == '\u{2029}' || c
            == '\u{202f}' || c == '\u{205f}' || c == '\u{3000}'),
{
}

/// The first position of a character, once found, is the one `first_index_of` names.
pub proof fn lemma_first_index_unique(s: Seq<char>, c: char, i: int)
    requires
        is_first_index(s, c, i),
    ensures
        first_index_of(s, c) == Some(i),
{
    let k = choose|k: int| is_first_index(s, c, k);
    assert(is_first_index(s, c, k));
    if k < i {
        assert(s[k] != c);
    }
    if i < k {
        assert(s[i] != c);
    }
}

/// Executable trim of `s[lo..hi]`: the bounds of the trimmed piece.
pub fn trim_range(s: &str, lo: usize, hi: usize) -> (r: (usize, usize))
    requires
        lo <= hi <= s@.len(),
    ensures
        lo <= r.0 <= r.1 <= hi,
        s@.subrange(r.0 as int, r.1 as int) == trim(s@.subrange(lo as int, hi as int)),
{
    let mut a: usize = lo;
    while a < hi && char_is_white(s.get_char(a))
        invariant
            lo <= a <= hi <= s@.len(),
            trim_start(s@.subrange(lo as int, hi as int)) == trim_start(
                s@.subrange(a as int, hi as int),
            ),
        decreases hi - a,
    {
        assert(s@.subrange(a as int, hi as int).drop_first() =~= s@.subrange(
            a + 1,
            hi as int,
        ));
        a = a + 1;
    }
    let mut b: usize = hi;
    while b > a && char_is_white(s.get_char(b - 1))
        invariant
            lo <= a <= b <= hi <= s@.len(),
            trim_end(s@.subrange(a as int, hi as int)) == trim_end(s@.subrange(a as int, b as int)),
        decreases b - a,
    {
        assert(s@.subrange(a as int, b as int).drop_last() =~= s@.subrange(a as int, b - 1));
        b = b - 1;
    }
    (a, b)
}

/// Executable search for the first `c` in `s[lo..hi]`, as an absolute position.
pub fn find_char(s: &str, lo: usize, hi: usize, c: char) -> (r: Option<usize>)
    requires
        lo <= hi <= s@.len(),
    ensures
        match r {
            Some(k) => lo <= k < hi && first_index_of(s@.subrange(lo as int, hi as int), c) == Some(
                k - lo,
            ),
            None => first_index_of(s@.subrange(lo as int, hi as int), c) is None,
        },
{
    let ghost sub = s@.subrange(lo as int, hi as int);
    let mut k: usize = lo;
    while k < hi
        invariant
            lo <= k <= hi <= s@.len(),
            sub == s@.subrange(lo as int, hi as int),
            forall|j: int| 0 <= j < k - lo ==> sub[j] != c,
        decreases hi - k,
    {
        if s.get_char(k) == c {
            proof {
                assert(is_first_index(sub, c, k - lo));
                lemma_first_index_unique(sub, c, k - lo);
            }
            return Some(k);
        }
        k = k + 1;
    }
    assert(!exists|i: int| is_first_index(sub, c, i));
    None
}

/// Whether `c`, folded to ASCII lower case, is the lower-case letter `t`.
pub fn char_lower_is(c: char, t: char) -> (r: bool)
    requires
        'a' <= t <= 'z',
    ensures
        r == (ascii_lower(c) == t),
{
    let cu: u32 = c as u32;
    let tu: u32 = t as u32;
    let r = c == t || cu + 32 == tu;
    proof {
        if 'A' <= c && c <= 'Z' {
            assert(ascii_lower(c) as u32 == cu + 32);
        }
    }
    r
}

/// Whether `s`, folded to ASCII lower case, spells the lower-case word `w`.
pub fn lower_equals(s: &str, w: &[char]) -> (r: bool)
    requires
        forall|i: int| 0 <= i < w@.len() ==> 'a' <= #[trigger] w@[i] <= 'z',
    ensures
        r == (to_ascii_lower(s@) == w@),
{
    let n: usize = s.unicode_len();
    if n != w.len() {
        assert(to_ascii_lower(s@).len() != w@.len());
        return false;
    }
    let mut i: usize = 0;
    while i < n
        invariant
            n == s@.len() == w@.len(),
            0 <= i <= n,
            forall|k: int| 0 <= k < w@.len() ==> 'a' <= #[trigger] w@[k] <= 'z',
            forall|j: int| 0 <= j < i ==> ascii_lower(#[trigger] s@[j]) == w@[j],
        decreases n - i,
    {
        if !char_lower_is(s.get_char(i), w[i]) {
            assert(to_ascii_lower(s@)[i as int] != w@[i as int]);
            return false;
        }
        i = i + 1;
    }
    assert(to_ascii_lower(s@) =~= w@);
    true
}

} // verus!
