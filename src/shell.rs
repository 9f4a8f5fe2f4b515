//! Shell quoting and sanitization helpers.
use vstd::prelude::*;

verus! {

/// The body of a single-quoted shell word: each `'` becomes `'\''`.
pub open spec fn escaped(s: Seq<char>) -> Seq<char>
    decreases s.len(),
{
    if s.len() == 0 {
        seq![]
    } else if s.last() == '\'' {
        escaped(s.drop_last()) + seq!['\'', '\\', '\'', '\'']
    } else {
        escaped(s.drop_last()).push(s.last())
    }
}

/// `s` as one single-quoted shell word.
pub open spec fn quoted(s: Seq<char>) -> Seq<char> {
    seq!['\''] + escaped(s) + seq!['\'']
}

/// Relies on String::push: appends one character at the end.
#[verifier::external_body]
fn push_char(s: &mut String, c: char)
    ensures
        final(s)@ == old(s)@.push(c),
{
    s.push(c)
}

/// Wrap a string in single quotes for safe embedding in a shell command.
///
/// Single quotes inside the string are written as `'\''`: close the quoted
/// segment, emit an escaped quote, and open a new segment.
pub fn shell_quote(s: &str) -> (r: String)
    ensures
        r@ == quoted(s@),
{
    let mut out = String::new();
    push_char(&mut out, '\'');
    for c in it: s.chars()
        invariant
            it.seq() == s@,
            out@ == seq!['\''] + escaped(s@.take(it.index() as int)),
    {
        proof {
            let t = s@.take(it.index() as int + 1);
            assert(t.drop_last() =~= s@.take(it.index() as int));
        }
        if c == '\'' {
            push_char(&mut out, '\'');
            push_char(&mut out, '\\');
            push_char(&mut out, '\'');
            push_char(&mut out, '\'');
        } else {
            push_char(&mut out, c);
        }
        assert(out@ =~= seq!['\''] + escaped(s@.take(it.index() as int + 1)));
    }
    assert(s@.take(s@.len() as int) =~= s@);
    push_char(&mut out, '\'');
    assert(out@ =~= quoted(s@));
    out
}

/// Characters that survive sanitizing unchanged: ASCII letters and digits.
pub open spec fn is_ascii_alnum(c: char) -> bool {
    ('a' <= c && c <= 'z') || ('A' <= c && c <= 'Z') || ('0' <= c && c <= '9')
}

/// `c`, or a hyphen where `c` is not an ASCII letter or digit.
pub open spec fn hyphen_for(c: char) -> char {
    if is_ascii_alnum(c) {
        c
    } else {
        '-'
    }
}

pub open spec fn hyphenated(s: Seq<char>) -> Seq<char> {
    s.map_values(|c: char| hyphen_for(c))
}

pub open spec fn strip_leading_hyphens(s: Seq<char>) -> Seq<char>
    decreases s.len(),
{
    if s.len() > 0 && s[0] == '-' {
        strip_leading_hyphens(s.drop_first())
    } else {
        s
    }
}

pub open spec fn strip_trailing_hyphens(s: Seq<char>) -> Seq<char>
    decreases s.len(),
{
    if s.len() > 0 && s.last() == '-' {
        strip_trailing_hyphens(s.drop_last())
    } else {
        s
    }
}

/// The longest length a sanitized name may have.
pub const MAX_NAME_LEN: usize = 40;

/// The sanitized form of text that is already lowercased: non-alphanumerics
/// become hyphens, hyphens at either end go, and at most 40 characters stay.
pub open spec fn sanitized(lowered: Seq<char>) -> Seq<char> {
    let t = strip_trailing_hyphens(strip_leading_hyphens(hyphenated(lowered)));
    if t.len() > MAX_NAME_LEN {
        t.take(MAX_NAME_LEN as int)
    } else {
        t
    }
}

/// What `str::to_lowercase` makes of a string.
pub uninterp spec fn lowercase_of(s: Seq<char>) -> Seq<char>;

/// Relies on str::to_lowercase: the result is a function of the characters
/// alone, and the empty string stays empty.
#[verifier::external_body]
fn lowercase(s: &str) -> (r: String)
    ensures
        r@ == lowercase_of(s@),
        s@.len() == 0 ==> r@.len() == 0,
{
    s.to_lowercase()
}

/// Sanitize text that has already been lowercased.
pub fn sanitize_lowered(lowered: &str) -> (r: String)
    ensures
        r@ == sanitized(lowered@),
        r@.len() <= MAX_NAME_LEN,
{
    let mut v: Vec<char> = Vec::new();
    for c in it: lowered.chars()
        invariant
            it.seq() == lowered@,
            v@ =~= hyphenated(lowered@.take(it.index() as int)),
    {
        let h = if ('a' <= c && c <= 'z') || ('A' <= c && c <= 'Z') || ('0' <= c && c <= '9') {
            c
        } else {
            '-'
        };
        v.push(h);
        assert(v@ =~= hyphenated(lowered@.take(it.index() as int + 1)));
    }
    assert(lowered@.take(lowered@.len() as int) =~= lowered@);
    let ghost h = hyphenated(lowered@);
    let len = v.len();
    let mut start: usize = 0;
    assert(h.subrange(0, len as int) =~= h);
    while start < len && v[start] == '-'
        invariant
            v@ == h,
            len == h.len(),
            start <= len,
            strip_leading_hyphens(h) == strip_leading_hyphens(h.subrange(start as int, len as int)),
        decreases len - start,
    {
        assert(h.subrange(start as int, len as int).drop_first() =~= h.subrange(start as int + 1, len as int));
        start = start + 1;
    }
    assert(strip_leading_hyphens(h) == h.subrange(start as int, len as int));
    let mut end: usize = len;
    while end > start && v[end - 1] == '-'
        invariant
            v@ == h,
            len == h.len(),
            start <= end <= len,
            strip_trailing_hyphens(strip_leading_hyphens(h)) == strip_trailing_hyphens(h.subrange(start as int, end as int)),
        decreases end - start,
    {
        assert(h.subrange(start as int, end as int).drop_last() =~= h.subrange(start as int, end as int - 1));
        end = end - 1;
    }
    let ghost t = h.subrange(start as int, end as int);
    assert(strip_trailing_hyphens(t) == t);
    let stop: usize = if end - start > MAX_NAME_LEN {
        start + MAX_NAME_LEN
    } else {
        end
    };
    let mut out = String::new();
    let mut i: usize = start;
    while i < stop
        invariant
            v@ == h,
            start <= i <= stop <= end <= len,
            len == h.len(),
            out@ =~= h.subrange(start as int, i as int),
        decreases stop - i,
    {
        push_char(&mut out, v[i]);
        i = i + 1;
    }
    assert(out@ =~= sanitized(lowered@));
    out
}

/// Sanitize a string for use as a branch name or directory name.
///
/// Lowercases everything, replaces characters other than ASCII letters and
/// digits with hyphens, strips leading and trailing hyphens, and keeps at
/// most 40 characters.
pub fn sanitize(s: &str) -> (r: String)
    ensures
        r@ == sanitized(lowercase_of(s@)),
        r@.len() <= MAX_NAME_LEN,
        s@.len() == 0 ==> r@.len() == 0,
{
    let lowered = lowercase(s);
    proof {
        if s@.len() == 0 {
            assert(hyphenated(lowered@) =~= Seq::<char>::empty());
        }
    }
    sanitize_lowered(lowered.as_str())
}

} // verus!
