//! The entry reader: a cursor over the input that yields the lines that
//! carry data and passes over the others.

use vstd::prelude::*;
use vstd::slice::slice_subrange;
use crate::text::{
    find, is_space, is_whitespace, leading_spaces, lemma_find, lemma_find_is, lemma_leading_spaces,
    lemma_trailing_spaces, trailing_spaces, trim,
};

verus! {

/// The length of the first line of `s`, its line feed included. The last
/// line of an input may lack the line feed.
pub open spec fn line_len(s: Seq<char>) -> int {
    let i = find(s, '\n');
    if i < s.len() {
        i + 1
    } else {
        s.len() as int
    }
}

/// Whether the reader passes over `line`: a line that is blank once trimmed,
/// or whose first character is `#`.
pub open spec fn is_ignorable(line: Seq<char>) -> bool {
    trim(line).len() == 0 || (line.len() > 0 && line[0] == '#')
}

/// The lines of `s` that carry data, in order, each as it stands in `s`
/// (untrimmed, with its line feed).
pub open spec fn entries_of(s: Seq<char>) -> Seq<Seq<char>>
    decreases s.len(),
{
    if s.len() == 0 {
        Seq::empty()
    } else {
        let n = line_len(s);
        if 0 < n <= s.len() {
            let rest = entries_of(s.skip(n));
            if is_ignorable(s.take(n)) {
                rest
            } else {
                seq![s.take(n)] + rest
            }
        } else {
            Seq::empty()
        }
    }
}

/// A line has at least one character and ends within the input.
pub proof fn lemma_line_len(s: Seq<char>)
    requires
        s.len() > 0,
    ensures
        0 < line_len(s) <= s.len(),
{
    lemma_find(s, '\n');
}

/// A line is blank exactly when all its characters are whitespace.
pub proof fn lemma_blank(line: Seq<char>)
    ensures
        trim(line).len() == 0 <==> forall|i: int| 0 <= i < line.len() ==> is_space(#[trigger] line[i]),
{
    lemma_leading_spaces(line);
    let a = leading_spaces(line);
    let t = line.skip(a);
    lemma_trailing_spaces(t);
    if forall|i: int| 0 <= i < line.len() ==> is_space(#[trigger] line[i]) {
        assert(a == line.len());
    } else {
        assert(a < line.len());
        assert(t[0] == line[a]);
        let b = trailing_spaces(t);
        if b == t.len() {
            assert(is_space(t[0]));
        }
    }
}

/// A cursor over the characters of an input.
pub struct Reader<'a> {
    chars: &'a [char],
    pos: usize,
}

impl<'a> Reader<'a> {
    #[verifier::type_invariant]
    spec fn within_input(&self) -> bool {
        self.pos <= self.chars@.len()
    }

    /// The whole input.
    pub closed spec fn input(&self) -> Seq<char> {
        self.chars@
    }

    /// How many characters have been read.
    pub closed spec fn position(&self) -> int {
        self.pos as int
    }

    /// The part of the input that has not been read.
    pub open spec fn remaining(&self) -> Seq<char> {
        self.input().skip(self.position())
    }

    /// The data lines that have not been read.
    pub open spec fn entries(&self) -> Seq<Seq<char>> {
        entries_of(self.remaining())
    }

    /// A reader at the start of `chars`.
    pub fn new(chars: &'a [char]) -> (r: Self)
        ensures
            r.input() == chars@,
            r.position() == 0,
            r.remaining() == chars@,
    {
        assert(chars@.skip(0) =~= chars@);
        Reader { chars, pos: 0 }
    }

    /// Reads one line, whatever it holds: the characters up to and including
    /// the next line feed, or up to the end of the input.
    fn read_line(&mut self) -> (line: &'a [char])
        requires
            old(self).remaining().len() > 0,
        ensures
            final(self).input() == old(self).input(),
            line@ == old(self).remaining().take(line_len(old(self).remaining())),
            final(self).remaining() == old(self).remaining().skip(line_len(old(self).remaining())),
            final(self).position() == old(self).position() + line_len(old(self).remaining()),
            line@.len() > 0,
    {
        proof {
            use_type_invariant(&*self);
        }
        let chars = self.chars;
        let n = chars.len();
        let start = self.pos;
        let ghost rest = chars@.skip(start as int);
        let mut end: usize = start;
        while end < n && chars[end] != '\n'
            invariant
                n == chars@.len(),
                start <= end <= n,
                rest == chars@.skip(start as int),
                forall|j: int| 0 <= j < end - start ==> #[trigger] rest[j] != '\n',
            decreases n - end,
        {
            end += 1;
        }
        proof {
            lemma_find_is(rest, '\n', end - start);
        }
        if end < n {
            end += 1;
        }
        proof {
            assert(end - start == line_len(rest));
            assert(rest.take(end - start) =~= chars@.subrange(start as int, end as int));
            assert(rest.skip(end - start) =~= chars@.skip(end as int));
        }
        self.pos = end;
        slice_subrange(chars, start, end)
    }

    /// Whether the reader passes over `line`.
    fn ignorable(line: &[char]) -> (r: bool)
        requires
            line@.len() > 0,
        ensures
            r == is_ignorable(line@),
    {
        if line[0] == '#' {
            return true;
        }
        let n = line.len();
        let mut i: usize = 0;
        while i < n
            invariant
                n == line@.len(),
                0 <= i <= n,
                line@[0] != '#',
                forall|j: int| 0 <= j < i ==> is_space(#[trigger] line@[j]),
            decreases n - i,
        {
            if !is_whitespace(line[i]) {
                proof {
                    lemma_blank(line@);
                    assert(!is_space(line@[i as int]));
                }
                return false;
            }
            i += 1;
        }
        proof {
            lemma_blank(line@);
        }
        true
    }

    /// The next line that carries data, and whether there was one. Blank
    /// lines and comment lines before it are passed over. At the end of the
    /// input the line is empty and the flag is `false`.
    ///
    /// The cursor only moves forward: no line is read twice.
    pub fn get_next_data_entry(&mut self) -> (r: (&'a [char], bool))
        ensures
            final(self).input() == old(self).input(),
            old(self).position() <= final(self).position() <= final(self).input().len(),
            r.1 == (old(self).entries().len() > 0),
            r.1 ==> r.0@ == old(self).entries()[0] && final(self).entries() == old(
                self,
            ).entries().drop_first(),
            !r.1 ==> r.0@.len() == 0 && final(self).remaining().len() == 0,
    {
        proof {
            use_type_invariant(&*self);
        }
        loop
            invariant
                self.input() == old(self).input(),
                old(self).position() <= self.position() <= self.input().len(),
                self.entries() == old(self).entries(),
            decreases self.remaining().len(),
        {
            proof {
                use_type_invariant(&*self);
            }
            if self.pos >= self.chars.len() {
                let chars = self.chars;
                return (slice_subrange(chars, 0, 0), false);
            }
            let ghost rest = self.remaining();
            proof {
                lemma_line_len(rest);
            }
            let line = self.read_line();
            if !Self::ignorable(line) {
                proof {
                    assert((seq![line@] + self.entries()).drop_first() =~= self.entries());
                }
                return (line, true);
            }
        }
    }
}

/// Data lines of complete lines followed by more input are the data lines
/// of the two parts, one after the other.
pub proof fn lemma_entries_of_concat(a: Seq<char>, b: Seq<char>)
    requires
        a.len() == 0 || a.last() == '\n',
    ensures
        entries_of(a + b) == entries_of(a) + entries_of(b),
    decreases a.len(),
{
    if a.len() == 0 {
        assert(a + b =~= b);
        assert(entries_of(a) + entries_of(b) =~= entries_of(b));
    } else {
        let s = a + b;
        lemma_find(a, '\n');
        let i = find(a, '\n');
        assert(i < a.len()) by {
            if i == a.len() {
                assert(a[a.len() - 1] != '\n');
            }
        }
        assert forall|j: int| 0 <= j < i implies #[trigger] s[j] != '\n' by {
            assert(s[j] == a[j]);
        }
        assert(s[i] == a[i]);
        lemma_find_is(s, '\n', i);
        let n = i + 1;
        assert(line_len(a) == n && line_len(s) == n);
        assert(s.take(n) =~= a.take(n));
        assert(s.skip(n) =~= a.skip(n) + b);
        let a2 = a.skip(n);
        if a2.len() > 0 {
            assert(a2.last() == a.last());
        }
        lemma_entries_of_concat(a2, b);
        if !is_ignorable(a.take(n)) {
            assert(seq![a.take(n)] + (entries_of(a2) + entries_of(b)) =~= (seq![a.take(n)]
                + entries_of(a2)) + entries_of(b));
        }
    }
}

} // verus!
