//! Character-level building blocks: whitespace, trimming and splitting.
//!
//! Everything here works on sequences of characters. The executable
//! functions take `&[char]` and hand back sub-slices of their argument, so no
//! character is copied until a field becomes a `String`.

use vstd::prelude::*;
use vstd::slice::slice_subrange;

verus! {

/// `String::push` appends exactly one character to the end of the string.
pub assume_specification[ String::push ](s: &mut String, c: char)
    ensures
        final(s)@ == old(s)@.push(c),
;

/// The characters with the Unicode `White_Space` property: the ones that
/// trimming removes.
pub open spec fn is_space(c: char) -> bool {
    let u = c as u32;
    ||| 0x09 <= u <= 0x0D
    ||| u == 0x20
    ||| u == 0x85
    ||| u == 0xA0
    ||| u == 0x1680
    ||| 0x2000 <= u <= 0x200A
    ||| u == 0x2028
    ||| u == 0x2029
    ||| u == 0x202F
    ||| u == 0x205F
    ||| u == 0x3000
}

/// How many whitespace characters `s` starts with.
pub open spec fn leading_spaces(s: Seq<char>) -> int
    decreases s.len(),
{
    if s.len() > 0 && is_space(s[0]) {
        1 + leading_spaces(s.drop_first())
    } else {
        0
    }
}

/// How many whitespace characters `s` ends with.
pub open spec fn trailing_spaces(s: Seq<char>) -> int
    decreases s.len(),
{
    if s.len() > 0 && is_space(s.last()) {
        1 + trailing_spaces(s.drop_last())
    } else {
        0
    }
}

/// `s` without its leading and trailing whitespace.
pub open spec fn trim(s: Seq<char>) -> Seq<char> {
    let t = s.skip(leading_spaces(s));
    t.take(t.len() - trailing_spaces(t))
}

/// Position of the first `d` in `s`, or `s.len()` when there is none.
pub open spec fn find(s: Seq<char>, d: char) -> int
    decreases s.len(),
{
    if s.len() == 0 || s[0] == d {
        0
    } else {
        1 + find(s.drop_first(), d)
    }
}

/// The pieces of `s` between occurrences of `d`. There is always at least one
/// piece; two adjacent delimiters, or one at either end, give an empty piece.
pub open spec fn split(s: Seq<char>, d: char) -> Seq<Seq<char>>
    decreases s.len(),
{
    let i = find(s, d);
    if 0 <= i < s.len() {
        seq![s.take(i)] + split(s.skip(i + 1), d)
    } else {
        seq![s]
    }
}

/// The character sequences behind a list of slices.
pub open spec fn views(fields: Seq<&[char]>) -> Seq<Seq<char>> {
    fields.map_values(|f: &[char]| f@)
}

/// The character sequences behind a list of strings.
pub open spec fn string_views(items: Seq<String>) -> Seq<Seq<char>> {
    items.map_values(|s: String| s@)
}

/// The leading whitespace is a prefix of whitespace that ends at the first
/// character that is none.
pub proof fn lemma_leading_spaces(s: Seq<char>)
    ensures
        0 <= leading_spaces(s) <= s.len(),
        forall|i: int| 0 <= i < leading_spaces(s) ==> is_space(#[trigger] s[i]),
        leading_spaces(s) < s.len() ==> !is_space(s[leading_spaces(s)]),
    decreases s.len(),
{
    if s.len() > 0 && is_space(s[0]) {
        let t = s.drop_first();
        lemma_leading_spaces(t);
        assert forall|i: int| 0 <= i < leading_spaces(s) implies is_space(#[trigger] s[i]) by {
            if i > 0 {
                assert(s[i] == t[i - 1]);
            }
        }
    }
}

/// The trailing whitespace is a suffix of whitespace that starts after the
/// last character that is none.
pub proof fn lemma_trailing_spaces(s: Seq<char>)
    ensures
        0 <= trailing_spaces(s) <= s.len(),
        forall|i: int| s.len() - trailing_spaces(s) <= i < s.len() ==> is_space(#[trigger] s[i]),
        trailing_spaces(s) < s.len() ==> !is_space(s[s.len() - trailing_spaces(s) - 1]),
    decreases s.len(),
{
    if s.len() > 0 && is_space(s.last()) {
        let t = s.drop_last();
        lemma_trailing_spaces(t);
        assert forall|i: int| s.len() - trailing_spaces(s) <= i < s.len() implies is_space(
            #[trigger] s[i],
        ) by {
            if i < s.len() - 1 {
                assert(s[i] == t[i]);
            }
        }
    }
}

/// A prefix of whitespace followed by a character that is none is exactly
/// the leading whitespace.
pub proof fn lemma_leading_spaces_is(s: Seq<char>, n: int)
    requires
        0 <= n <= s.len(),
        forall|i: int| 0 <= i < n ==> is_space(#[trigger] s[i]),
        n < s.len() ==> !is_space(s[n]),
    ensures
        leading_spaces(s) == n,
    decreases s.len(),
{
    if n > 0 {
        let t = s.drop_first();
        assert forall|i: int| 0 <= i < n - 1 implies is_space(#[trigger] t[i]) by {
            assert(t[i] == s[i + 1]);
        }
        lemma_leading_spaces_is(t, n - 1);
    }
}

/// A suffix of whitespace preceded by a character that is none is exactly
/// the trailing whitespace.
pub proof fn lemma_trailing_spaces_is(s: Seq<char>, n: int)
    requires
        0 <= n <= s.len(),
        forall|i: int| s.len() - n <= i < s.len() ==> is_space(#[trigger] s[i]),
        n < s.len() ==> !is_space(s[s.len() - n - 1]),
    ensures
        trailing_spaces(s) == n,
    decreases s.len(),
{
    if n > 0 {
        let t = s.drop_last();
        assert forall|i: int| t.len() - (n - 1) <= i < t.len() implies is_space(#[trigger] t[i]) by {
            assert(t[i] == s[i]);
        }
        lemma_trailing_spaces_is(t, n - 1);
    }
}

/// `find` returns a position in `s` or its length; `d` does not occur
/// before it, and stands at it.
pub proof fn lemma_find(s: Seq<char>, d: char)
    ensures
        0 <= find(s, d) <= s.len(),
        forall|i: int| 0 <= i < find(s, d) ==> #[trigger] s[i] != d,
        find(s, d) < s.len() ==> s[find(s, d)] == d,
    decreases s.len(),
{
    if !(s.len() == 0 || s[0] == d) {
        let t = s.drop_first();
        lemma_find(t, d);
        assert forall|i: int| 0 <= i < find(s, d) implies #[trigger] s[i] != d by {
            if i > 0 {
                assert(s[i] == t[i - 1]);
            }
        }
    }
}

/// The first position that holds `d`, with none before it, is what `find`
/// returns.
pub proof fn lemma_find_is(s: Seq<char>, d: char, n: int)
    requires
        0 <= n <= s.len(),
        forall|i: int| 0 <= i < n ==> #[trigger] s[i] != d,
        n < s.len() ==> s[n] == d,
    ensures
        find(s, d) == n,
    decreases s.len(),
{
    if n > 0 {
        let t = s.drop_first();
        assert forall|i: int| 0 <= i < n - 1 implies #[trigger] t[i] != d by {
            assert(t[i] == s[i + 1]);
        }
        lemma_find_is(t, d, n - 1);
    }
}

/// The pieces written one after the other with `d` between neighbours.
pub open spec fn join(pieces: Seq<Seq<char>>, d: char) -> Seq<char>
    decreases pieces.len(),
{
    if pieces.len() == 0 {
        Seq::empty()
    } else if pieces.len() == 1 {
        pieces[0]
    } else {
        pieces[0] + seq![d] + join(pieces.drop_first(), d)
    }
}

/// Splitting loses nothing: there is at least one piece, no piece holds the
/// delimiter, and the pieces joined by the delimiter are the text again.
pub proof fn lemma_split_join(s: Seq<char>, d: char)
    ensures
        split(s, d).len() >= 1,
        forall|i: int| 0 <= i < split(s, d).len() ==> !(#[trigger] split(s, d)[i]).contains(d),
        join(split(s, d), d) == s,
    decreases s.len(),
{
    lemma_find(s, d);
    let i = find(s, d);
    if i < s.len() {
        let head = s.take(i);
        let rest = s.skip(i + 1);
        lemma_split_join(rest, d);
        let pieces = split(s, d);
        assert(pieces == seq![head] + split(rest, d));
        assert(pieces.drop_first() =~= split(rest, d));
        assert(!head.contains(d)) by {
            if head.contains(d) {
                let j = choose|j: int| 0 <= j < head.len() && head[j] == d;
                assert(s[j] == d);
            }
        }
        assert forall|k: int| 0 <= k < pieces.len() implies !(#[trigger] pieces[k]).contains(d) by {
            if k > 0 {
                assert(pieces[k] == split(rest, d)[k - 1]);
            }
        }
        assert(head + seq![d] + rest =~= s);
    } else {
        assert(!s.contains(d)) by {
            if s.contains(d) {
                let j = choose|j: int| 0 <= j < s.len() && s[j] == d;
                assert(s[j] != d);
            }
        }
    }
}

/// Splitting undoes joining: pieces that hold no delimiter, joined by it,
/// split into the same pieces in the same order.
pub proof fn lemma_join_split(pieces: Seq<Seq<char>>, d: char)
    requires
        pieces.len() >= 1,
        forall|i: int| 0 <= i < pieces.len() ==> !(#[trigger] pieces[i]).contains(d),
    ensures
        split(join(pieces, d), d) == pieces,
    decreases pieces.len(),
{
    let head = pieces[0];
    assert(!head.contains(d));
    assert forall|j: int| 0 <= j < head.len() implies #[trigger] head[j] != d by {
        if head[j] == d {
            assert(head.contains(d));
        }
    }
    if pieces.len() == 1 {
        lemma_find_is(head, d, head.len() as int);
        assert(split(head, d) =~= pieces);
    } else {
        let tail = pieces.drop_first();
        assert forall|i: int| 0 <= i < tail.len() implies !(#[trigger] tail[i]).contains(d) by {
            assert(tail[i] == pieces[i + 1]);
        }
        lemma_join_split(tail, d);
        let s = join(pieces, d);
        let n = head.len() as int;
        assert(s == head + seq![d] + join(tail, d));
        assert forall|j: int| 0 <= j < n implies #[trigger] s[j] != d by {
            assert(s[j] == head[j]);
        }
        assert(s[n] == d);
        lemma_find_is(s, d, n);
        assert(s.take(n) =~= head);
        assert(s.skip(n + 1) =~= join(tail, d));
        assert(seq![head] + tail =~= pieces);
    }
}

/// Whether `c` is whitespace.
pub fn is_whitespace(c: char) -> (r: bool)
    ensures
        r == is_space(c),
{
    let u: u32 = c as u32;
    (0x09 <= u && u <= 0x0D) || u == 0x20 || u == 0x85 || u == 0xA0 || u == 0x1680 || (0x2000 <= u
        && u <= 0x200A) || u == 0x2028 || u == 0x2029 || u == 0x202F || u == 0x205F || u == 0x3000
}

/// `s` without its leading and trailing whitespace, as a sub-slice of `s`.
pub fn trim_chars(s: &[char]) -> (r: &[char])
    ensures
        r@ == trim(s@),
{
    let n = s.len();
    let mut a: usize = 0;
    while a < n && is_whitespace(s[a])
        invariant
            n == s@.len(),
            0 <= a <= n,
            forall|i: int| 0 <= i < a ==> is_space(#[trigger] s@[i]),
        decreases n - a,
    {
        a += 1;
    }
    let mut b: usize = n;
    while b > a && is_whitespace(s[b - 1])
        invariant
            n == s@.len(),
            a <= b <= n,
            forall|i: int| b <= i < n ==> is_space(#[trigger] s@[i]),
        decreases b,
    {
        b -= 1;
    }
    proof {
        lemma_leading_spaces_is(s@, a as int);
        let t = s@.skip(a as int);
        assert forall|i: int| t.len() - (n - b) <= i < t.len() implies is_space(#[trigger] t[i]) by {
            assert(t[i] == s@[i + a]);
        }
        if n - b < t.len() {
            assert(t[t.len() - (n - b) - 1] == s@[b - 1]);
        }
        lemma_trailing_spaces_is(t, (n - b) as int);
        assert(trim(s@) =~= s@.subrange(a as int, b as int));
    }
    slice_subrange(s, a, b)
}

/// The pieces of `s` between occurrences of `d`, as sub-slices of `s`.
pub fn split_chars(s: &[char], d: char) -> (r: Vec<&[char]>)
    ensures
        views(r@) == split(s@, d),
        r@.len() >= 1,
{
    let n = s.len();
    let mut out: Vec<&[char]> = Vec::new();
    let mut start: usize = 0;
    let mut i: usize = 0;
    proof {
        assert(s@.skip(0) =~= s@);
        assert(views(out@) + split(s@, d) =~= split(s@, d));
    }
    while i < n
        invariant
            n == s@.len(),
            0 <= start <= i <= n,
            forall|j: int| start <= j < i ==> #[trigger] s@[j] != d,
            split(s@, d) == views(out@) + split(s@.skip(start as int), d),
        decreases n - i,
    {
        if s[i] == d {
            let piece = slice_subrange(s, start, i);
            proof {
                let rest = s@.skip(start as int);
                assert forall|j: int| 0 <= j < i - start implies #[trigger] rest[j] != d by {
                    assert(rest[j] == s@[j + start]);
                }
                lemma_find_is(rest, d, i - start);
                assert(rest.take(i - start) =~= piece@);
                assert(rest.skip(i - start + 1) =~= s@.skip(i + 1));
                assert(views(out@.push(piece)) =~= views(out@) + seq![piece@]);
            }
            out.push(piece);
            start = i + 1;
        }
        i += 1;
    }
    let piece = slice_subrange(s, start, n);
    proof {
        let rest = s@.skip(start as int);
        assert forall|j: int| 0 <= j < n - start implies #[trigger] rest[j] != d by {
            assert(rest[j] == s@[j + start]);
        }
        lemma_find_is(rest, d, n - start);
        assert(rest =~= piece@);
        assert(views(out@.push(piece)) =~= views(out@) + seq![piece@]);
    }
    out.push(piece);
    out
}

/// The characters of `s`, in order.
pub fn chars_of(s: &str) -> (v: Vec<char>)
    ensures
        v@ == s@,
{
    let mut v: Vec<char> = Vec::new();
    for c in it: s.chars()
        invariant
            it.seq() == s@,
            v@ == it.seq().take(it.index()),
    {
        v.push(c);
    }
    v
}

/// The string made of the characters of `s`.
pub fn string_of(s: &[char]) -> (r: String)
    ensures
        r@ == s@,
{
    let n = s.len();
    let mut r = String::new();
    let mut i: usize = 0;
    while i < n
        invariant
            n == s@.len(),
            0 <= i <= n,
            r@ == s@.take(i as int),
        decreases n - i,
    {
        r.push(s[i]);
        i += 1;
    }
    r
}

/// Whether `s` holds exactly the characters of the string `text`.
pub fn matches_text(s: &[char], text: &str) -> (r: bool)
    ensures
        r == (s@ == text@),
{
    let n = s.len();
    let mut i: usize = 0;
    let mut same = true;
    for c in it: text.chars()
        invariant
            it.seq() == text@,
            n == s@.len(),
            same ==> i == it.index() && i <= n,
            same ==> forall|j: int| 0 <= j < i ==> s@[j] == text@[j],
            !same ==> s@ != text@,
    {
        if same {
            if i < n && s[i] == c {
                i += 1;
            } else {
                same = false;
            }
        }
    }
    if same && i == n {
        assert(s@ =~= text@);
        true
    } else {
        false
    }
}

} // verus!
