//! Source positions: a line, a column and the part of the source that is
//! still to be read.

use std::str::Chars;
use vstd::prelude::*;
use vstd::std_specs::iter::IteratorSpec;
use vstd::string::*;
use vstd::utf8::{
    char_is_scalar,
    decode_utf8,
    encode_scalar,
    encode_utf8,
    encode_utf8_decode_utf8,
    encode_utf8_first_scalar,
    encode_utf8_valid_utf8,
    is_char_boundary,
    pop_first_scalar,
};

verus! {

/// `Chars::as_str` hands back the part of the string that the iterator has
/// not yet yielded; in terms of characters that is exactly what remains.
pub assume_specification<'a>[ Chars::<'a>::as_str ](chars: &Chars<'a>) -> (rest: &'a str)
    ensures
        rest@ == IteratorSpec::remaining(chars),
;

/// A place in a source text.
#[derive(Copy, Clone, Debug)]
pub struct Position<'a> {
    line: i32,
    column: i32,
    source: &'a str,
}

/// What a position stands for: its line, its column and the characters from
/// there to the end of the source.
pub struct Place {
    pub line: i32,
    pub column: i32,
    pub rest: Seq<char>,
}

/// A counter after one more step; it stays at the largest value once there.
pub open spec fn bump(n: i32) -> i32 {
    if n < i32::MAX {
        (n + 1) as i32
    } else {
        n
    }
}

/// The number of bytes that a character takes in UTF-8.
pub open spec fn utf8_width(ch: char) -> nat {
    if (ch as u32) < 0x80 {
        1
    } else if (ch as u32) < 0x800 {
        2
    } else if (ch as u32) < 0x10000 {
        3
    } else {
        4
    }
}

/// The number of bytes that a text takes in UTF-8: the sum of the widths of
/// its characters.
pub open spec fn utf8_length(text: Seq<char>) -> nat
    decreases text.len(),
{
    if text.len() == 0 {
        0
    } else {
        utf8_width(text[0]) + utf8_length(text.drop_first())
    }
}

impl Place {
    /// The number of bytes from here to the end of the source.
    pub open spec fn bytes(self) -> nat {
        utf8_length(self.rest)
    }

    /// Whether `end` has at most as many bytes left as this place, and the
    /// difference leads to a boundary between two characters of the rest.
    /// This holds of every place that is reached from here by going forward.
    pub open spec fn cut(self, end: Place) -> bool {
        &&& end.bytes() <= self.bytes()
        &&& is_char_boundary(encode_utf8(self.rest), self.bytes() - end.bytes())
    }

    /// The characters that the first `self.bytes() - end.bytes()` bytes of
    /// the rest encode.
    pub open spec fn span(self, end: Place) -> Seq<char> {
        decode_utf8(encode_utf8(self.rest).subrange(0, self.bytes() - end.bytes()))
    }

    /// The place one character further on. A newline starts the next line at
    /// column zero, any other character moves one column to the right.
    pub open spec fn step(self) -> Place {
        if self.rest[0] == '\n' {
            Place { line: bump(self.line), column: 0, rest: self.rest.drop_first() }
        } else {
            Place { line: self.line, column: bump(self.column), rest: self.rest.drop_first() }
        }
    }

    /// The place `n` characters further on, or the end of the source if that
    /// comes first.
    pub open spec fn advance(self, n: nat) -> Place
        decreases n,
    {
        if n == 0 || self.rest.len() == 0 {
            self
        } else {
            self.step().advance((n - 1) as nat)
        }
    }

    /// The text between this place and a later place of the same source.
    pub open spec fn until(self, end: Place) -> Seq<char> {
        self.rest.subrange(0, self.rest.len() - end.rest.len())
    }

    /// How many characters at the front of the rest satisfy `keep`.
    pub open spec fn run(self, keep: spec_fn(char) -> bool) -> nat {
        run_length(self.rest, keep)
    }
}

/// The length of the longest prefix of `text` whose characters all satisfy
/// `keep`.
pub open spec fn run_length(text: Seq<char>, keep: spec_fn(char) -> bool) -> nat
    decreases text.len(),
{
    if text.len() == 0 || !keep(text[0]) {
        0
    } else {
        1 + run_length(text.drop_first(), keep)
    }
}

/// The encoding of a character has as many bytes as its width says.
pub proof fn lemma_utf8_width(ch: char)
    ensures
        encode_scalar(ch as u32).len() == utf8_width(ch),
{
    char_is_scalar(ch);
}

/// The encoding of a text has as many bytes as the widths of its characters
/// add up to.
pub proof fn lemma_utf8_length(text: Seq<char>)
    ensures
        encode_utf8(text).len() == utf8_length(text),
    decreases text.len(),
{
    if text.len() > 0 {
        lemma_utf8_length(text.drop_first());
        lemma_utf8_width(text[0]);
    }
}

/// The encoding of a text is the encoding of its first `k` characters
/// followed by the encoding of the others.
pub proof fn lemma_encoding_split(text: Seq<char>, k: int)
    requires
        0 <= k <= text.len(),
    ensures
        encode_utf8(text) == encode_utf8(text.subrange(0, k)) + encode_utf8(
            text.subrange(k, text.len() as int),
        ),
        utf8_length(text) == utf8_length(text.subrange(0, k)) + utf8_length(
            text.subrange(k, text.len() as int),
        ),
    decreases k,
{
    let front = text.subrange(0, k);
    let back = text.subrange(k, text.len() as int);
    if k == 0 {
        assert(back =~= text);
        assert(encode_utf8(text) =~= encode_utf8(front) + encode_utf8(back));
    } else {
        let tail = text.drop_first();
        lemma_encoding_split(tail, k - 1);
        assert(tail.subrange(0, k - 1) =~= front.drop_first());
        assert(tail.subrange(k - 1, tail.len() as int) =~= back);
        assert(front[0] == text[0]);
        assert(encode_utf8(text) =~= encode_utf8(front) + encode_utf8(back));
    }
}

/// Behind each character of a text its encoding has a boundary.
proof fn lemma_boundary(text: Seq<char>, k: int)
    requires
        0 <= k <= text.len(),
    ensures
        is_char_boundary(encode_utf8(text), utf8_length(text.subrange(0, k)) as int),
    decreases k,
{
    let bytes = encode_utf8(text);
    let front = text.subrange(0, k);
    encode_utf8_valid_utf8(text);
    if k > 0 {
        let tail = text.drop_first();
        encode_utf8_first_scalar(text);
        assert(pop_first_scalar(bytes) =~= encode_utf8(tail));
        lemma_boundary(tail, k - 1);
        assert(tail.subrange(0, k - 1) =~= front.drop_first());
        assert(front[0] == text[0]);
        lemma_utf8_width(text[0]);
        lemma_encoding_split(text, k);
        lemma_utf8_length(text);
    }
}

/// Of a place `end` that lies `k` characters behind `start` in the same
/// text: the two cut out the text between them, and its bytes are the
/// difference of what is left at the two places.
pub proof fn lemma_span(start: Place, end: Place, k: int)
    requires
        0 <= k <= start.rest.len(),
        end.rest == start.rest.subrange(k, start.rest.len() as int),
    ensures
        start.cut(end),
        start.span(end) == start.rest.subrange(0, k),
        start.span(end) == start.until(end),
        start.span(end) + end.rest == start.rest,
        utf8_length(start.span(end)) == start.bytes() - end.bytes(),
{
    let front = start.rest.subrange(0, k);
    lemma_encoding_split(start.rest, k);
    lemma_boundary(start.rest, k);
    lemma_utf8_length(front);
    assert(encode_utf8(start.rest).subrange(0, utf8_length(front) as int) =~= encode_utf8(front));
    encode_utf8_decode_utf8(front);
    assert(front + end.rest =~= start.rest);
}

/// Of a place that is reached by advancing from `from`, which itself lies
/// `j` characters behind `start`: it cuts out a text with `start`, the one
/// between the two.
pub proof fn lemma_span_advance(start: Place, from: Place, j: int, n: nat)
    requires
        0 <= j <= start.rest.len(),
        from.rest == start.rest.subrange(j, start.rest.len() as int),
    ensures
        start.cut(from.advance(n)),
        start.span(from.advance(n)) == start.until(from.advance(n)),
{
    let end = from.advance(n);
    let m: int = if n <= from.rest.len() { n as int } else { from.rest.len() as int };
    lemma_advance_rest(from, n);
    assert(end.rest =~= start.rest.subrange(j + m, start.rest.len() as int));
    lemma_span(start, end, j + m);
}

/// Advancing leaves a suffix of the text, shorter by the number of steps.
pub proof fn lemma_advance_rest(place: Place, n: nat)
    ensures
        place.advance(n).rest == place.rest.subrange(
            if n <= place.rest.len() { n as int } else { place.rest.len() as int },
            place.rest.len() as int,
        ),
    decreases n,
{
    if n == 0 || place.rest.len() == 0 {
        let k: int = if n <= place.rest.len() { n as int } else { place.rest.len() as int };
        assert(place.rest.subrange(k, place.rest.len() as int) =~= place.rest);
    } else {
        lemma_advance_rest(place.step(), (n - 1) as nat);
        let k: int = if n <= place.rest.len() { n as int } else { place.rest.len() as int };
        assert(place.step().rest.subrange(k - 1, place.rest.len() - 1) =~= place.rest.subrange(
            k,
            place.rest.len() as int,
        ));
    }
}

/// Advancing in two stages is advancing once by the sum.
pub proof fn lemma_advance_add(place: Place, n: nat, m: nat)
    ensures
        place.advance(n).advance(m) == place.advance(n + m),
    decreases n,
{
    if n == 0 {
    } else if place.rest.len() == 0 {
        assert(place.advance(n) == place);
        assert(place.advance(m) == place);
        assert(place.advance(n + m) == place);
    } else {
        lemma_advance_add(place.step(), (n - 1) as nat, m);
        assert(place.advance(n + m) == place.step().advance((n + m - 1) as nat));
    }
}

/// A prefix of `k` characters that all satisfy `keep`, followed by the end of
/// the text or by a character that does not, is the run.
pub proof fn lemma_run_length_unique(text: Seq<char>, keep: spec_fn(char) -> bool, k: nat)
    requires
        k <= text.len(),
        forall|i: int| 0 <= i < k ==> keep(#[trigger] text[i]),
        k < text.len() ==> !keep(text[k as int]),
    ensures
        run_length(text, keep) == k,
    decreases text.len(),
{
    if text.len() == 0 || k == 0 {
    } else {
        assert(keep(text[0]));
        let tail = text.drop_first();
        assert forall|i: int| 0 <= i < k - 1 implies keep(#[trigger] tail[i]) by {
            assert(tail[i] == text[i + 1]);
        }
        if k - 1 < tail.len() {
            assert(tail[k - 1] == text[k as int]);
        }
        lemma_run_length_unique(tail, keep, (k - 1) as nat);
    }
}

impl<'a> View for Position<'a> {
    type V = Place;

    closed spec fn view(&self) -> Place {
        Place { line: self.line, column: self.column, rest: self.source@ }
    }
}

impl<'a> Position<'a> {
    /// A position with the given line and column in front of `source`.
    pub fn new(line: i32, column: i32, source: &'a str) -> (pos: Position<'a>)
        ensures
            pos@ == (Place { line, column, rest: source@ }),
    {
        Position { line, column, source }
    }

    /// The start of a source text: line one, column one.
    pub fn from_source(source: &'a str) -> (pos: Position<'a>)
        ensures
            pos@ == (Place { line: 1, column: 1, rest: source@ }),
    {
        Position::new(1, 1, source)
    }

    /// The number of the line, counted from one.
    pub fn line(&self) -> (line: i32)
        ensures
            line == self@.line,
    {
        self.line
    }

    /// The number of the column: one for the first character of the source,
    /// zero right behind a line break.
    pub fn column(&self) -> (column: i32)
        ensures
            column == self@.column,
    {
        self.column
    }

    /// The next character together with the position behind it, or nothing
    /// at the end of the source.
    pub fn next(&self) -> (r: Option<(Position<'a>, char)>)
        ensures
            self@.rest.len() == 0 <==> r is None,
            r matches Some((pos, ch)) ==> ch == self@.rest[0] && pos@ == self@.step(),
    {
        let mut chars = self.source.chars();
        match chars.next() {
            None => None,
            Some(ch) => {
                let rest = chars.as_str();
                if ch == '\n' {
                    let line = if self.line < i32::MAX {
                        self.line + 1
                    } else {
                        self.line
                    };
                    Some((Position::new(line, 0, rest), '\n'))
                } else {
                    let column = if self.column < i32::MAX {
                        self.column + 1
                    } else {
                        self.column
                    };
                    Some((Position::new(self.line, column, rest), ch))
                }
            },
        }
    }

    /// The number of bytes that are left.
    pub fn len(&self) -> (n: usize)
        ensures
            n == self@.bytes(),
    {
        proof {
            lemma_utf8_length(self.source@);
        }
        self.source.as_bytes().len()
    }

    /// Tells whether the two positions cut out a text, as those of one source
    /// do when `end` is the later.
    pub fn encloses(start: Position<'a>, end: Position<'a>) -> (ok: bool)
        ensures
            ok == start@.cut(end@),
    {
        let from_start: usize = start.len();
        let from_end: usize = end.len();
        from_end <= from_start && start.source.is_char_boundary(from_start - from_end)
    }

    /// The text between two positions of one source, `end` being the later:
    /// as many bytes of the rest at `start` as `start` has more than `end`.
    pub fn slice(start: Position<'a>, end: Position<'a>) -> (text: &'a str)
        requires
            start@.cut(end@),
        ensures
            text@ == start@.span(end@),
            utf8_length(text@) == start@.bytes() - end@.bytes(),
    {
        let from_start: usize = start.len();
        let from_end: usize = end.len();
        let (text, _) = start.source.split_at(from_start - from_end);
        proof {
            encode_utf8_decode_utf8(text@);
            encode_utf8_valid_utf8(start@.rest);
            lemma_utf8_length(text@);
            lemma_utf8_length(start@.rest);
            assert(from_start - from_end <= encode_utf8(start@.rest).len());
            assert(text.spec_bytes().len() == from_start - from_end);
        }
        text
    }

    /// Moves forward for as long as the next character satisfies
    /// `condition`, and stops in front of the first one that does not.
    pub fn next_while<F: Fn(char) -> bool>(&self, condition: F) -> (pos: Position<'a>)
        requires
            forall|ch: char| condition.requires((ch,)),
        ensures
            exists|n: nat|
                {
                    &&& n <= self@.rest.len()
                    &&& pos@ == #[trigger] self@.advance(n)
                    &&& forall|i: int|
                        0 <= i < n ==> condition.ensures((#[trigger] self@.rest[i],), true)
                    &&& n < self@.rest.len() ==> condition.ensures((self@.rest[n as int],), false)
                },
    {
        let mut cur: Position<'a> = *self;
        let ghost mut done: nat = 0;
        loop
            invariant
                forall|ch: char| condition.requires((ch,)),
                done <= self@.rest.len(),
                cur@ == self@.advance(done),
                cur@.rest == self@.rest.subrange(done as int, self@.rest.len() as int),
                forall|i: int| 0 <= i < done ==> condition.ensures((#[trigger] self@.rest[i],), true),
            decreases self@.rest.len() - done,
        {
            proof {
                lemma_advance_rest(self@, 0);
            }
            match cur.next() {
                Some((pos, ch)) => {
                    assert(ch == self@.rest[done as int]);
                    if condition(ch) {
                        proof {
                            lemma_advance_add(self@, done, 1);
                            assert(cur@.advance(1) == cur@.step().advance(0));
                            lemma_advance_rest(self@, done + 1);
                            done = done + 1;
                        }
                        cur = pos;
                    } else {
                        return cur;
                    }
                },
                None => {
                    return cur;
                },
            }
        }
    }
}

/// What `next_while` does when `condition` decides as the predicate `keep`
/// does: it skips exactly the run of characters that satisfy `keep`.
pub proof fn lemma_next_while_run(start: Place, end: Place, keep: spec_fn(char) -> bool, n: nat)
    requires
        n <= start.rest.len(),
        end == start.advance(n),
        forall|i: int| 0 <= i < n ==> keep(#[trigger] start.rest[i]),
        n < start.rest.len() ==> !keep(start.rest[n as int]),
    ensures
        end == start.advance(start.run(keep)),
{
    lemma_run_length_unique(start.rest, keep, n);
}

} // verus!
