//! Cursor-based reading of line-delimited JSON files, and the framing of
//! records written to them.
//!
//! A [`JsonlReader`] holds a byte offset into a file that only ever grows.
//! Whoever reads the file hands the reader the bytes from that offset to the
//! end; the reader takes the complete lines among them, advances past exactly
//! those, and returns their trimmed, non-empty contents for decoding. A line
//! that is still being written (no terminating newline yet) is left for a later
//! call.
use std::marker::PhantomData;
use vstd::prelude::*;

verus! {

/// The byte that ends a line.
pub const NEWLINE: u8 = 10;

/// A one-byte whitespace character: U+0009 to U+000D, or U+0020.
pub open spec fn is_space1(a: u8) -> bool {
    a == 0x20 || (0x09 <= a && a <= 0x0d)
}

/// The UTF-8 encoding of a two-byte whitespace character: U+0085 or U+00A0.
pub open spec fn is_space2(a: u8, b: u8) -> bool {
    a == 0xc2 && (b == 0x85 || b == 0xa0)
}

/// The UTF-8 encoding of a three-byte whitespace character: U+1680,
/// U+2000 to U+200A, U+2028, U+2029, U+202F, U+205F or U+3000.
pub open spec fn is_space3(a: u8, b: u8, c: u8) -> bool {
    (a == 0xe1 && b == 0x9a && c == 0x80) || (a == 0xe2 && b == 0x80 && ((0x80 <= c && c
        <= 0x8a) || c == 0xa8 || c == 0xa9 || c == 0xaf)) || (a == 0xe2 && b == 0x81 && c
        == 0x9f) || (a == 0xe3 && b == 0x80 && c == 0x80)
}

/// How many bytes the whitespace character that `s` starts with takes, or 0
/// where `s` does not start with one. Whitespace is Unicode's White_Space
/// property, as `str::trim` uses it.
pub open spec fn space_prefix_len(s: Seq<u8>) -> nat {
    if s.len() >= 1 && is_space1(s[0]) {
        1
    } else if s.len() >= 2 && is_space2(s[0], s[1]) {
        2
    } else if s.len() >= 3 && is_space3(s[0], s[1], s[2]) {
        3
    } else {
        0
    }
}

/// How many bytes the whitespace character that `s` ends with takes, or 0.
pub open spec fn space_suffix_len(s: Seq<u8>) -> nat {
    let n = s.len() as int;
    if n >= 1 && is_space1(s[n - 1]) {
        1
    } else if n >= 2 && is_space2(s[n - 2], s[n - 1]) {
        2
    } else if n >= 3 && is_space3(s[n - 3], s[n - 2], s[n - 1]) {
        3
    } else {
        0
    }
}

pub open spec fn strip_leading_space(s: Seq<u8>) -> Seq<u8>
    decreases s.len(),
{
    if space_prefix_len(s) > 0 {
        strip_leading_space(s.skip(space_prefix_len(s) as int))
    } else {
        s
    }
}

pub open spec fn strip_trailing_space(s: Seq<u8>) -> Seq<u8>
    decreases s.len(),
{
    if space_suffix_len(s) > 0 {
        strip_trailing_space(s.take(s.len() - space_suffix_len(s)))
    } else {
        s
    }
}

/// A line without the whitespace around it.
pub open spec fn trimmed(s: Seq<u8>) -> Seq<u8> {
    strip_trailing_space(strip_leading_space(s))
}

/// The newline-terminated lines of `b`, without their terminators, where
/// `cur` holds what precedes `b` on its first line. Bytes after the last
/// newline form no line.
pub open spec fn split_lines(b: Seq<u8>, cur: Seq<u8>) -> Seq<Seq<u8>>
    decreases b.len(),
{
    if b.len() == 0 {
        seq![]
    } else if b[0] == NEWLINE {
        seq![cur] + split_lines(b.drop_first(), seq![])
    } else {
        split_lines(b.drop_first(), cur.push(b[0]))
    }
}

/// The complete lines of `b`.
pub open spec fn lines_of(b: Seq<u8>) -> Seq<Seq<u8>> {
    split_lines(b, seq![])
}

/// The trimmed lines that hold something, in order.
pub open spec fn kept(lines: Seq<Seq<u8>>) -> Seq<Seq<u8>>
    decreases lines.len(),
{
    if lines.len() == 0 {
        seq![]
    } else {
        let t = trimmed(lines[0]);
        (if t.len() > 0 {
            seq![t]
        } else {
            seq![]
        }) + kept(lines.drop_first())
    }
}

/// What a read of `b` hands over for decoding.
pub open spec fn records(b: Seq<u8>) -> Seq<Seq<u8>> {
    kept(lines_of(b))
}

/// How many bytes of `b` its complete lines take: the length up to and
/// including its last newline, or 0 where it has none.
pub open spec fn complete_len(b: Seq<u8>) -> nat
    decreases b.len(),
{
    if b.len() == 0 {
        0
    } else if b.last() == NEWLINE {
        b.len()
    } else {
        complete_len(b.drop_last())
    }
}

/// The complete lines of `b` end at a newline within `b`, and no newline
/// follows them.
pub proof fn lemma_complete_len_bounds(b: Seq<u8>)
    ensures
        complete_len(b) <= b.len(),
        complete_len(b) == 0 || b[complete_len(b) - 1] == NEWLINE,
        forall|i: int| complete_len(b) <= i < b.len() ==> b[i] != NEWLINE,
    decreases b.len(),
{
    if b.len() > 0 && b.last() != NEWLINE {
        lemma_complete_len_bounds(b.drop_last());
        assert forall|i: int| complete_len(b) <= i < b.len() implies b[i] != NEWLINE by {
            if i < b.len() - 1 {
                assert(b[i] == b.drop_last()[i]);
            }
        }
    }
}

/// Whether `b` is empty or ends a line: a point at which a read may resume.
pub open spec fn at_line_boundary(b: Seq<u8>) -> bool {
    b.len() == 0 || b.last() == NEWLINE
}

/// Whether `b` holds no newline.
pub open spec fn no_newline(b: Seq<u8>) -> bool {
    forall|i: int| 0 <= i < b.len() ==> b[i] != NEWLINE
}

proof fn lemma_kept_append(x: Seq<Seq<u8>>, y: Seq<Seq<u8>>)
    ensures
        kept(x + y) == kept(x) + kept(y),
    decreases x.len(),
{
    if x.len() == 0 {
        assert(x + y =~= y);
    } else {
        lemma_kept_append(x.drop_first(), y);
        assert((x + y).drop_first() =~= x.drop_first() + y);
        assert((x + y)[0] == x[0]);
    }
}

proof fn lemma_split_after_line(a: Seq<u8>, b: Seq<u8>, cur: Seq<u8>)
    requires
        a.len() > 0,
        a.last() == NEWLINE,
    ensures
        split_lines(a + b, cur) == split_lines(a, cur) + split_lines(b, seq![]),
    decreases a.len(),
{
    assert((a + b).drop_first() =~= a.drop_first() + b);
    assert((a + b)[0] == a[0]);
    if a.len() == 1 {
        assert(a.drop_first() + b =~= b);
        assert(split_lines(a.drop_first(), seq![]) == Seq::<Seq<u8>>::empty());
        assert(split_lines(a, cur) =~= seq![cur]);
    } else if a[0] == NEWLINE {
        lemma_split_after_line(a.drop_first(), b, seq![]);
    } else {
        lemma_split_after_line(a.drop_first(), b, cur.push(a[0]));
    }
}

proof fn lemma_split_partial(a: Seq<u8>, p: Seq<u8>, cur: Seq<u8>)
    requires
        no_newline(p),
    ensures
        split_lines(a + p, cur) == split_lines(a, cur),
    decreases a.len() + p.len(),
{
    if a.len() == 0 {
        assert(a + p =~= p);
        if p.len() > 0 {
            assert(p[0] != NEWLINE);
            assert(no_newline(p.drop_first()));
            lemma_split_partial(a, p.drop_first(), cur.push(p[0]));
            assert(a + p.drop_first() =~= p.drop_first());
        }
    } else {
        assert((a + p).drop_first() =~= a.drop_first() + p);
        assert((a + p)[0] == a[0]);
        if a[0] == NEWLINE {
            lemma_split_partial(a.drop_first(), p, seq![]);
        } else {
            lemma_split_partial(a.drop_first(), p, cur.push(a[0]));
        }
    }
}

proof fn lemma_complete_len_after_line(a: Seq<u8>, b: Seq<u8>)
    requires
        at_line_boundary(a),
    ensures
        complete_len(a + b) == a.len() + complete_len(b),
    decreases b.len(),
{
    if b.len() == 0 {
        assert(a + b =~= a);
        if a.len() > 0 {
            assert(complete_len(a) == a.len());
        }
    } else {
        assert((a + b).last() == b.last());
        if b.last() != NEWLINE {
            assert((a + b).drop_last() =~= a + b.drop_last());
            lemma_complete_len_after_line(a, b.drop_last());
        }
    }
}

proof fn lemma_complete_len_partial(a: Seq<u8>, p: Seq<u8>)
    requires
        no_newline(p),
    ensures
        complete_len(a + p) == complete_len(a),
    decreases p.len(),
{
    if p.len() == 0 {
        assert(a + p =~= a);
    } else {
        assert((a + p).last() == p.last());
        assert((a + p).drop_last() =~= a + p.drop_last());
        lemma_complete_len_partial(a, p.drop_last());
    }
}

/// Resuming at a line boundary loses and repeats nothing: reading `a` and
/// then, from the offset reached, `b`, hands over the same records as one
/// read of `a + b`, and advances the offset by the same number of bytes.
pub proof fn lemma_resume_at_boundary(a: Seq<u8>, b: Seq<u8>)
    requires
        at_line_boundary(a),
    ensures
        records(a + b) == records(a) + records(b),
        complete_len(a) == a.len(),
        complete_len(a + b) == complete_len(a) + complete_len(b),
{
    if a.len() == 0 {
        assert(a + b =~= b);
        assert(records(a) == Seq::<Seq<u8>>::empty());
        assert(records(a) + records(b) =~= records(b));
    } else {
        lemma_split_after_line(a, b, seq![]);
        lemma_kept_append(lines_of(a), lines_of(b));
    }
    lemma_complete_len_after_line(a, Seq::<u8>::empty());
    assert(a + Seq::<u8>::empty() =~= a);
    lemma_complete_len_after_line(a, b);
}

/// A line still being written is not surfaced: bytes `p` without a newline
/// after `a` add no record and do not move the offset.
pub proof fn lemma_partial_line_deferred(a: Seq<u8>, p: Seq<u8>)
    requires
        no_newline(p),
    ensures
        records(a + p) == records(a),
        complete_len(a + p) == complete_len(a),
{
    lemma_split_partial(a, p, seq![]);
    lemma_complete_len_partial(a, p);
}

fn space3(a: u8, b: u8, c: u8) -> (r: bool)
    ensures
        r == is_space3(a, b, c),
{
    (a == 0xe1 && b == 0x9a && c == 0x80) || (a == 0xe2 && b == 0x80 && ((0x80 <= c && c <= 0x8a)
        || c == 0xa8 || c == 0xa9 || c == 0xaf)) || (a == 0xe2 && b == 0x81 && c == 0x9f) || (a
        == 0xe3 && b == 0x80 && c == 0x80)
}

/// The length of the whitespace character that `b[lo..hi]` starts with.
fn prefix_space_len(b: &[u8], lo: usize, hi: usize) -> (r: usize)
    requires
        lo <= hi <= b@.len(),
    ensures
        r == space_prefix_len(b@.subrange(lo as int, hi as int)),
{
    let n = hi - lo;
    if n >= 1 && (b[lo] == 0x20 || (0x09 <= b[lo] && b[lo] <= 0x0d)) {
        1
    } else if n >= 2 && b[lo] == 0xc2 && (b[lo + 1] == 0x85 || b[lo + 1] == 0xa0) {
        2
    } else if n >= 3 && space3(b[lo], b[lo + 1], b[lo + 2]) {
        3
    } else {
        0
    }
}

/// The length of the whitespace character that `b[lo..hi]` ends with.
fn suffix_space_len(b: &[u8], lo: usize, hi: usize) -> (r: usize)
    requires
        lo <= hi <= b@.len(),
    ensures
        r == space_suffix_len(b@.subrange(lo as int, hi as int)),
{
    let n = hi - lo;
    if n >= 1 && (b[hi - 1] == 0x20 || (0x09 <= b[hi - 1] && b[hi - 1] <= 0x0d)) {
        1
    } else if n >= 2 && b[hi - 2] == 0xc2 && (b[hi - 1] == 0x85 || b[hi - 1] == 0xa0) {
        2
    } else if n >= 3 && space3(b[hi - 3], b[hi - 2], b[hi - 1]) {
        3
    } else {
        0
    }
}

/// Polling keeps the offset on a line boundary and never moves it back:
/// where the file holds `content` and the offset `o` ends a line of it (or is
/// 0), the offset after reading `content[o..]` is no less than `o`, no more
/// than the length of `content`, and again ends a line of it.
pub proof fn lemma_offset_stays_on_line_boundary(content: Seq<u8>, o: nat)
    requires
        o <= content.len(),
        o == 0 || content[o - 1] == NEWLINE,
    ensures
        o <= o + complete_len(content.skip(o as int)) <= content.len(),
        o + complete_len(content.skip(o as int)) == 0 || content[o + complete_len(
            content.skip(o as int),
        ) - 1] == NEWLINE,
{
    let tail = content.skip(o as int);
    lemma_complete_len_bounds(tail);
    if complete_len(tail) > 0 {
        assert(content[o + complete_len(tail) - 1] == tail[complete_len(tail) - 1]);
    }
}

/// The bytes `b[lo..hi]` without the whitespace around them.
fn trimmed_range(b: &[u8], lo: usize, hi: usize) -> (r: Vec<u8>)
    requires
        lo <= hi <= b@.len(),
    ensures
        r@ == trimmed(b@.subrange(lo as int, hi as int)),
{
    let ghost s = b@.subrange(lo as int, hi as int);
    let mut start: usize = lo;
    let mut k = prefix_space_len(b, start, hi);
    while k > 0
        invariant
            lo <= start <= hi <= b@.len(),
            k == space_prefix_len(b@.subrange(start as int, hi as int)),
            strip_leading_space(s) == strip_leading_space(b@.subrange(start as int, hi as int)),
        decreases hi - start,
    {
        assert(b@.subrange(start as int, hi as int).skip(k as int) =~= b@.subrange(
            start as int + k,
            hi as int,
        ));
        start = start + k;
        k = prefix_space_len(b, start, hi);
    }
    let mut end: usize = hi;
    let mut k = suffix_space_len(b, start, end);
    while k > 0
        invariant
            lo <= start <= end <= hi <= b@.len(),
            k == space_suffix_len(b@.subrange(start as int, end as int)),
            trimmed(s) == strip_trailing_space(b@.subrange(start as int, end as int)),
        decreases end - start,
    {
        assert(b@.subrange(start as int, end as int).take(end - start - k) =~= b@.subrange(
            start as int,
            end - k,
        ));
        end = end - k;
        k = suffix_space_len(b, start, end);
    }
    let mut r: Vec<u8> = Vec::new();
    let mut i: usize = start;
    while i < end
        invariant
            start <= i <= end <= b@.len(),
            r@ =~= b@.subrange(start as int, i as int),
        decreases end - i,
    {
        r.push(b[i]);
        i = i + 1;
    }
    r
}

/// Reads newly appended records of a line-delimited JSON file, tracking the
/// byte offset up to which the file has been consumed.
pub struct JsonlReader<T> {
    path: String,
    offset: u64,
    marker: PhantomData<T>,
}

impl<T> JsonlReader<T> {
    /// The path of the file read.
    pub closed spec fn path_view(&self) -> Seq<char> {
        self.path@
    }

    /// The byte offset up to which the file has been consumed.
    pub closed spec fn cursor(&self) -> u64 {
        self.offset
    }

    /// A reader for `path`, starting at byte offset 0.
    pub fn new(path: &str) -> (r: Self)
        ensures
            r.path_view() == path@,
            r.cursor() == 0,
    {
        JsonlReader { path: path.to_string(), offset: 0, marker: PhantomData }
    }

    /// A reader for `path`, resuming at a byte offset saved earlier.
    pub fn with_offset(path: &str, offset: u64) -> (r: Self)
        ensures
            r.path_view() == path@,
            r.cursor() == offset,
    {
        JsonlReader { path: path.to_string(), offset, marker: PhantomData }
    }

    /// The path of the file read.
    pub fn path(&self) -> (r: &str)
        ensures
            r@ == self.path_view(),
    {
        self.path.as_str()
    }

    /// The current byte offset.
    pub fn offset(&self) -> (r: u64)
        ensures
            r == self.cursor(),
    {
        self.offset
    }

    /// Overwrite the byte offset, without checking it against the file.
    pub fn set_offset(&mut self, offset: u64)
        ensures
            final(self).cursor() == offset,
            final(self).path_view() == old(self).path_view(),
    {
        self.offset = offset;
    }

    /// Move the offset to the end of the file, whose length is `file_len`, or
    /// to 0 where the file does not exist. Returns the new offset.
    pub fn skip_to_end(&mut self, file_len: Option<u64>) -> (r: u64)
        ensures
            r == match file_len {
                Some(n) => n,
                None => 0,
            },
            final(self).cursor() == r,
            final(self).path_view() == old(self).path_view(),
    {
        self.offset = match file_len {
            Some(n) => n,
            None => 0,
        };
        self.offset
    }

    /// Whether a file of length `file_len` (`None`: there is no file) holds
    /// bytes past the offset. Where it does not, nothing is read and the
    /// offset stays: a file shorter than the offset is not rewound.
    pub fn needs_read(&self, file_len: Option<u64>) -> (r: bool)
        ensures
            r == (file_len matches Some(n) && n > self.cursor()),
    {
        match file_len {
            Some(n) => n > self.offset,
            None => false,
        }
    }

    /// Consume the complete lines of `tail`, the bytes of the file from the
    /// offset to its end, and return their trimmed, non-empty contents in
    /// file order.
    ///
    /// The offset advances past every complete line, blank or not, and stops
    /// at the end of the last one: bytes after the last newline are a line
    /// still being written and are left for a later call.
    pub fn consume(&mut self, tail: &[u8]) -> (r: Vec<Vec<u8>>)
        requires
            old(self).cursor() + tail@.len() <= u64::MAX,
        ensures
            r.deep_view() == records(tail@),
            final(self).cursor() == old(self).cursor() + complete_len(tail@),
            final(self).path_view() == old(self).path_view(),
            complete_len(tail@) == 0 || tail@[complete_len(tail@) - 1] == NEWLINE,
            forall|i: int| complete_len(tail@) <= i < tail@.len() ==> tail@[i] != NEWLINE,
    {
        let ghost b = tail@;
        let mut out: Vec<Vec<u8>> = Vec::new();
        let mut start: usize = 0;
        let mut k: usize = 0;
        proof {
            assert(b.skip(0) =~= b);
            assert(b.subrange(0, 0) =~= Seq::<u8>::empty());
            assert(b.take(0) =~= Seq::<u8>::empty());
        }
        while k < tail.len()
            invariant
                b == tail@,
                start <= k <= b.len(),
                out.deep_view() + kept(split_lines(b.skip(k as int), b.subrange(start as int, k as int)))
                    == records(b),
                complete_len(b.take(k as int)) == start,
            decreases b.len() - k,
        {
            let ghost cur = b.subrange(start as int, k as int);
            let ghost rest = b.skip(k as int);
            assert(rest.drop_first() =~= b.skip(k as int + 1));
            assert(b.take(k as int + 1).drop_last() =~= b.take(k as int));
            if tail[k] == NEWLINE {
                let t = trimmed_range(tail, start, k);
                let ghost later = split_lines(b.skip(k as int + 1), seq![]);
                assert(split_lines(rest, cur) == seq![cur] + later);
                assert((seq![cur] + later).drop_first() =~= later);
                assert((seq![cur] + later)[0] == cur);
                let ghost before = out.deep_view();
                if t.len() > 0 {
                    let ghost tv = t@;
                    assert(t.deep_view() =~= tv);
                    out.push(t);
                    assert(out.deep_view() =~= before.push(tv));
                    assert(before + kept(seq![cur] + later) =~= out.deep_view() + kept(later));
                } else {
                    assert(before + kept(seq![cur] + later) =~= out.deep_view() + kept(later));
                }
                start = k + 1;
                assert(b.subrange(start as int, k as int + 1) =~= Seq::<u8>::empty());
            } else {
                assert(cur.push(b[k as int]) =~= b.subrange(start as int, k as int + 1));
            }
            k = k + 1;
        }
        proof {
            assert(b.take(b.len() as int) =~= b);
            assert(split_lines(b.skip(k as int), b.subrange(start as int, k as int)) == Seq::<Seq<u8>>::empty());
            assert(out.deep_view() =~= records(b));
            lemma_complete_len_bounds(b);
        }
        self.offset = self.offset + start as u64;
        out
    }
}

proof fn lemma_split_one_line(e: Seq<u8>, cur: Seq<u8>)
    requires
        no_newline(e),
    ensures
        split_lines(e.push(NEWLINE), cur) == seq![cur + e],
    decreases e.len(),
{
    if e.len() == 0 {
        assert(e.push(NEWLINE).drop_first() =~= Seq::<u8>::empty());
        assert(e.push(NEWLINE)[0] == NEWLINE);
        assert(split_lines(Seq::<u8>::empty(), seq![]) == Seq::<Seq<u8>>::empty());
        assert(cur + e =~= cur);
        assert(seq![cur] + Seq::<Seq<u8>>::empty() =~= seq![cur]);
    } else {
        assert(e.push(NEWLINE).drop_first() =~= e.drop_first().push(NEWLINE));
        assert(e.push(NEWLINE)[0] == e[0]);
        assert(e[0] != NEWLINE);
        assert(no_newline(e.drop_first()));
        lemma_split_one_line(e.drop_first(), cur.push(e[0]));
        assert(cur.push(e[0]) + e.drop_first() =~= cur + e);
    }
}

/// A line made by [`frame_line`] reads back: appended at a line boundary,
/// it is the next line a reader sees, trimmed, and the offset moves past it.
pub proof fn lemma_framed_line_read_back(a: Seq<u8>, e: Seq<u8>)
    requires
        at_line_boundary(a),
        no_newline(e),
    ensures
        records(a + e.push(NEWLINE)) == records(a) + (if trimmed(e).len() > 0 {
            seq![trimmed(e)]
        } else {
            seq![]
        }),
        complete_len(a + e.push(NEWLINE)) == a.len() + e.len() + 1,
{
    lemma_resume_at_boundary(a, e.push(NEWLINE));
    lemma_split_one_line(e, seq![]);
    assert(Seq::<u8>::empty() + e =~= e);
    let l = seq![e];
    assert(l.drop_first() =~= Seq::<Seq<u8>>::empty());
    assert(kept(l.drop_first()) == Seq::<Seq<u8>>::empty());
    assert(kept(l) =~= (if trimmed(e).len() > 0 {
        seq![trimmed(e)]
    } else {
        seq![]
    }));
}

/// A deferred line is surfaced once it is completed: where a read stopped
/// before the unfinished bytes `q`, and `x` and a newline (then any further
/// bytes `more`) were appended since, the next read hands over the completed
/// line `q + x`, trimmed, first, and moves the offset past its newline.
pub proof fn lemma_completed_line_surfaces(q: Seq<u8>, x: Seq<u8>, more: Seq<u8>)
    requires
        no_newline(q),
        no_newline(x),
    ensures
        records((q + x).push(NEWLINE) + more) == (if trimmed(q + x).len() > 0 {
            seq![trimmed(q + x)]
        } else {
            seq![]
        }) + records(more),
        complete_len((q + x).push(NEWLINE) + more) == q.len() + x.len() + 1 + complete_len(more),
{
    let e = q + x;
    assert forall|i: int| 0 <= i < e.len() implies e[i] != NEWLINE by {
        if i < q.len() {
            assert(e[i] == q[i]);
        } else {
            assert(e[i] == x[i - q.len()]);
        }
    }
    let a = Seq::<u8>::empty();
    lemma_framed_line_read_back(a, e);
    assert(a + e.push(NEWLINE) =~= e.push(NEWLINE));
    assert(records(a) == Seq::<Seq<u8>>::empty());
    lemma_resume_at_boundary(e.push(NEWLINE), more);
    assert(records(a) + (if trimmed(e).len() > 0 {
        seq![trimmed(e)]
    } else {
        seq![]
    }) =~= (if trimmed(e).len() > 0 {
        seq![trimmed(e)]
    } else {
        seq![]
    }));
}

/// One record's encoded bytes as a line of the file: the bytes and a
/// newline. `None` where the encoding itself holds a newline, which would
/// split the record across lines.
pub fn frame_line(encoded: &[u8]) -> (r: Option<Vec<u8>>)
    ensures
        r is Some <==> no_newline(encoded@),
        r matches Some(line) ==> line@ == encoded@.push(NEWLINE),
{
    let mut line: Vec<u8> = Vec::new();
    let mut i: usize = 0;
    while i < encoded.len()
        invariant
            i <= encoded@.len(),
            line@ =~= encoded@.take(i as int),
            no_newline(encoded@.take(i as int)),
        decreases encoded@.len() - i,
    {
        if encoded[i] == NEWLINE {
            assert(encoded@[i as int] == NEWLINE);
            return None;
        }
        line.push(encoded[i]);
        i = i + 1;
        assert(encoded@.take(i as int).drop_last() =~= encoded@.take(i as int - 1));
    }
    assert(encoded@.take(i as int) =~= encoded@);
    line.push(NEWLINE);
    Some(line)
}

/// Appends records to a line-delimited JSON file, one line each.
pub struct JsonlWriter<T> {
    path: String,
    marker: PhantomData<T>,
}

impl<T> JsonlWriter<T> {
    /// The path of the file written.
    pub closed spec fn path_view(&self) -> Seq<char> {
        self.path@
    }

    /// A writer for `path`.
    pub fn new(path: &str) -> (r: Self)
        ensures
            r.path_view() == path@,
    {
        JsonlWriter { path: path.to_string(), marker: PhantomData }
    }

    /// The path of the file written.
    pub fn path(&self) -> (r: &str)
        ensures
            r@ == self.path_view(),
    {
        self.path.as_str()
    }
}

} // verus!
