use crate::text::{chars_of, text_of};
use vstd::prelude::*;

verus! {

/// White space, as Unicode defines the property.
pub open spec fn is_blank(c: char) -> bool {
    let n = c as u32;
    ||| 0x09 <= n <= 0x0d
    ||| n == 0x20
    ||| n == 0x85
    ||| n == 0xa0
    ||| n == 0x1680
    ||| 0x2000 <= n <= 0x200a
    ||| n == 0x2028
    ||| n == 0x2029
    ||| n == 0x202f
    ||| n == 0x205f
    ||| n == 0x3000
}

/// Whether a character is white space.
pub fn blank(c: char) -> (b: bool)
    ensures
        b == is_blank(c),
{
    let n: u32 = c as u32;
    (0x09 <= n && n <= 0x0d) || n == 0x20 || n == 0x85 || n == 0xa0 || n == 0x1680 || (0x2000 <= n
        && n <= 0x200a) || n == 0x2028 || n == 0x2029 || n == 0x202f || n == 0x205f || n == 0x3000
}

/// A test on one character that ends a scan. The character that meets it is
/// not part of what the scan yields.
#[derive(Clone, Copy, Debug)]
pub enum Stop {
    /// Met by the given character.
    At(char),
    /// Met by either of two characters.
    AtEither(char, char),
    /// Met by any of three characters.
    AtAny(char, char, char),
    /// Met by every character but the given one.
    Past(char),
    /// Met by every character that is not white space.
    PastBlank,
}

impl Stop {
    /// Whether the character ends the scan.
    pub open spec fn holds(self, c: char) -> bool {
        match self {
            Stop::At(a) => c == a,
            Stop::AtEither(a, b) => c == a || c == b,
            Stop::AtAny(a, b, d) => c == a || c == b || c == d,
            Stop::Past(a) => c != a,
            Stop::PastBlank => !is_blank(c),
        }
    }

    /// Whether the character ends the scan.
    pub fn test(&self, c: char) -> (r: bool)
        ensures
            r == self.holds(c),
    {
        match *self {
            Stop::At(a) => c == a,
            Stop::AtEither(a, b) => c == a || c == b,
            Stop::AtAny(a, b, d) => c == a || c == b || c == d,
            Stop::Past(a) => c != a,
            Stop::PastBlank => !blank(c),
        }
    }
}

/// `pos` moved `n` characters to the right, held at the end of a text of
/// length `len`.
pub open spec fn step(len: int, pos: int, n: int) -> int {
    if pos + n <= len {
        pos + n
    } else {
        len
    }
}

/// The offset that `step` describes.
pub fn advance(len: usize, pos: usize, n: usize) -> (next: usize)
    ensures
        next == step(len as int, pos as int, n as int),
        next <= len,
        pos <= len ==> pos <= next,
{
    if pos <= len && n <= len - pos {
        pos + n
    } else {
        len
    }
}

/// Where a scan to the right from `from` ends: at the first character that
/// meets `stop`, or at the end of the text.
pub open spec fn scan_end(s: Seq<char>, from: int, stop: Stop) -> int
    decreases s.len() - from,
{
    if 0 <= from < s.len() && !stop.holds(s[from]) {
        scan_end(s, from + 1, stop)
    } else {
        from
    }
}

/// Where a scan to the left from `to` ends: just after the nearest character
/// before `to` that meets `stop`, or at the start of the text.
pub open spec fn scan_start(s: Seq<char>, to: int, stop: Stop) -> int
    decreases to,
{
    if 0 < to <= s.len() && !stop.holds(s[to - 1]) {
        scan_start(s, to - 1, stop)
    } else {
        to
    }
}

/// A scan to the right stays in the text, passes over no character that
/// meets `stop`, and ends at one that does or at the end of the text.
pub proof fn lemma_scan_end(s: Seq<char>, from: int, stop: Stop)
    requires
        0 <= from <= s.len(),
    ensures
        from <= scan_end(s, from, stop) <= s.len(),
        forall|k: int| from <= k < scan_end(s, from, stop) ==> !stop.holds(#[trigger] s[k]),
        scan_end(s, from, stop) < s.len() ==> stop.holds(s[scan_end(s, from, stop)]),
    decreases s.len() - from,
{
    if from < s.len() && !stop.holds(s[from]) {
        lemma_scan_end(s, from + 1, stop);
    }
}

/// The end of a scan to the right is the only place with those properties.
pub proof fn lemma_scan_end_is(s: Seq<char>, from: int, stop: Stop, end: int)
    requires
        0 <= from <= end <= s.len(),
        forall|k: int| from <= k < end ==> !stop.holds(#[trigger] s[k]),
        end < s.len() ==> stop.holds(s[end]),
    ensures
        scan_end(s, from, stop) == end,
    decreases end - from,
{
    if from < end {
        lemma_scan_end_is(s, from + 1, stop, end);
    }
}

/// A scan to the left stays in the text, passes over no character that meets
/// `stop`, and ends just after one that does or at the start of the text.
pub proof fn lemma_scan_start(s: Seq<char>, to: int, stop: Stop)
    requires
        0 <= to <= s.len(),
    ensures
        0 <= scan_start(s, to, stop) <= to,
        forall|k: int| scan_start(s, to, stop) <= k < to ==> !stop.holds(#[trigger] s[k]),
        scan_start(s, to, stop) > 0 ==> stop.holds(s[scan_start(s, to, stop) - 1]),
    decreases to,
{
    if 0 < to && !stop.holds(s[to - 1]) {
        lemma_scan_start(s, to - 1, stop);
    }
}

/// The start of a scan to the left is the only place with those properties.
pub proof fn lemma_scan_start_is(s: Seq<char>, to: int, stop: Stop, start: int)
    requires
        0 <= start <= to <= s.len(),
        forall|k: int| start <= k < to ==> !stop.holds(#[trigger] s[k]),
        start > 0 ==> stop.holds(s[start - 1]),
    ensures
        scan_start(s, to, stop) == start,
    decreases to - start,
{
    if start < to {
        lemma_scan_start_is(s, to - 1, stop, start);
    }
}

/// The first offset at or after `from` whose character meets `stop`, or the
/// length of the buffer where none does. A scan that starts past the end of
/// the buffer does not move.
pub fn find_stop(buf: &Vec<char>, from: usize, stop: Stop) -> (end: usize)
    ensures
        end == scan_end(buf@, from as int, stop),
        from <= end,
        from <= buf.len() ==> end <= buf.len(),
        forall|k: int| from <= k < end ==> !stop.holds(#[trigger] buf@[k]),
        end < buf.len() ==> stop.holds(buf@[end as int]),
{
    proof {
        if from <= buf.len() {
            lemma_scan_end(buf@, from as int, stop);
        }
    }
    let mut i: usize = from;
    while i < buf.len() && !stop.test(buf[i])
        invariant
            from <= i,
            scan_end(buf@, from as int, stop) == scan_end(buf@, i as int, stop),
        decreases buf.len() - i,
    {
        i += 1;
    }
    i
}

/// The offset just after the nearest character before `to` that meets `stop`,
/// or 0 where none does. A scan that starts past the end of the buffer does
/// not move.
pub fn find_stop_back(buf: &Vec<char>, to: usize, stop: Stop) -> (start: usize)
    ensures
        start == scan_start(buf@, to as int, stop),
        start <= to,
        to <= buf.len() ==> forall|k: int| start <= k < to ==> !stop.holds(#[trigger] buf@[k]),
        to <= buf.len() && start > 0 ==> stop.holds(buf@[start - 1]),
{
    if to > buf.len() {
        return to;
    }
    proof {
        lemma_scan_start(buf@, to as int, stop);
    }
    let mut i: usize = to;
    while i > 0 && !stop.test(buf[i - 1])
        invariant
            i <= to <= buf.len(),
            scan_start(buf@, to as int, stop) == scan_start(buf@, i as int, stop),
        decreases i,
    {
        i -= 1;
    }
    i
}

/// `s` without the white space at its two ends.
pub open spec fn trimmed(s: Seq<char>) -> Seq<char> {
    stripped(s, Stop::PastBlank)
}

/// `s` without the characters at its two ends that come before the first and
/// after the last one that meets `stop`; empty where none meets it.
pub open spec fn stripped(s: Seq<char>, stop: Stop) -> Seq<char> {
    let from = scan_end(s, 0, stop);
    let to = scan_start(s, s.len() as int, stop);
    if from <= to {
        s.subrange(from, to)
    } else {
        Seq::empty()
    }
}

/// A copy of `src` without the characters at its two ends that come before
/// the first and after the last one that meets `stop`.
pub fn strip(src: &str, stop: Stop) -> (out: String)
    ensures
        out@ == stripped(src@, stop),
{
    let text = chars_of(src);
    let from = find_stop(&text, 0, stop);
    let to = find_stop_back(&text, text.len(), stop);
    if from <= to {
        text_of(&text, from, to)
    } else {
        String::new()
    }
}

/// A copy of `src` without the white space at its two ends.
pub fn trim(src: &str) -> (out: String)
    ensures
        out@ == trimmed(src@),
{
    strip(src, Stop::PastBlank)
}

/// What a scan from `from` yields: the characters up to the one that meets
/// `stop`, or up to the end of the text. A scan that starts past the end
/// starts at the end.
pub open spec fn scanned(s: Seq<char>, from: int, stop: Stop) -> Seq<char> {
    let at = step(s.len() as int, 0, from);
    s.subrange(at, scan_end(s, at, stop))
}

/// Where the cursor stands after a scan from `from`: `skip` characters after
/// the end of what the scan yields, and never past the end of the text.
pub open spec fn cursor_after(s: Seq<char>, from: int, skip: int, stop: Stop) -> int {
    let at = step(s.len() as int, 0, from);
    step(s.len() as int, scan_end(s, at, stop), skip)
}

/// Whether a scan from `from` meets a character that ends it, and not the
/// end of the text.
pub open spec fn stopped(s: Seq<char>, from: int, stop: Stop) -> bool {
    scan_end(s, step(s.len() as int, 0, from), stop) < s.len()
}

/// Scans `buf` to the right from `from` and returns the characters before the
/// first one that meets `stop`, the cursor's next position, `skip` characters
/// after them, and whether a character that meets `stop` was found. Depth is
/// not counted: the first character that meets `stop` ends the scan, whatever
/// was opened before it.
pub fn collect_until(buf: &Vec<char>, from: usize, skip: usize, stop: Stop) -> (res: (
    String,
    usize,
    bool,
))
    ensures
        res.0@ == scanned(buf@, from as int, stop),
        res.1 == cursor_after(buf@, from as int, skip as int, stop),
        res.2 == stopped(buf@, from as int, stop),
        res.1 <= buf.len(),
{
    let at = advance(buf.len(), 0, from);
    let end = find_stop(buf, at, stop);
    (text_of(buf, at, end), advance(buf.len(), end, skip), end < buf.len())
}

/// Scans `buf` to the left from `to` and returns the characters after the
/// nearest one that meets `stop`, with the offset where they begin.
pub fn collect_back_until(buf: &Vec<char>, to: usize, stop: Stop) -> (res: (String, usize))
    ensures
        res.0@ == scanned_back(buf@, to as int, stop),
        res.1 == scan_start(buf@, step(buf@.len() as int, 0, to as int), stop),
        res.1 <= buf.len(),
{
    let at = advance(buf.len(), 0, to);
    let start = find_stop_back(buf, at, stop);
    (text_of(buf, start, at), start)
}

/// What a scan to the left from `to` yields: the characters after the nearest
/// one that meets `stop`, or from the start of the text. A scan that starts
/// past the end starts at the end.
pub open spec fn scanned_back(s: Seq<char>, to: int, stop: Stop) -> Seq<char> {
    let at = step(s.len() as int, 0, to);
    s.subrange(scan_start(s, at, stop), at)
}

} // verus!
