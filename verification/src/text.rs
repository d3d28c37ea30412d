use vstd::prelude::*;
use vstd::string::StringExecFns;

verus! {

/// `String::push` of the standard library appends one character to the end of
/// the string and leaves what was there in place.
pub assume_specification[ String::push ](s: &mut String, c: char)
    ensures
        final(s)@ == old(s)@.push(c),
;

/// The characters of a string slice, in order.
pub fn chars_of(s: &str) -> (v: Vec<char>)
    ensures
        v@ == s@,
{
    let mut v: Vec<char> = Vec::new();
    push_str(&mut v, s);
    v
}

/// Copies the characters of a string slice onto the end of a buffer.
pub fn push_str(buf: &mut Vec<char>, s: &str)
    ensures
        final(buf)@ == old(buf)@ + s@,
{
    let ghost before = buf@;
    for c in it: s.chars()
        invariant
            buf@ == before + it.seq().take(it.index() as int),
    {
        buf.push(c);
    }
}

/// Copies `src[from..to]` onto the end of `dst`.
pub fn push_range(dst: &mut Vec<char>, src: &Vec<char>, from: usize, to: usize)
    requires
        from <= to <= src.len(),
    ensures
        final(dst)@ == old(dst)@ + src@.subrange(from as int, to as int),
{
    let ghost before = dst@;
    let mut i: usize = from;
    while i < to
        invariant
            from <= i <= to <= src.len(),
            dst@ == before + src@.subrange(from as int, i as int),
        decreases to - i,
    {
        dst.push(src[i]);
        i += 1;
    }
}

/// The string that holds `src[from..to]`.
pub fn text_of(src: &Vec<char>, from: usize, to: usize) -> (s: String)
    requires
        from <= to <= src.len(),
    ensures
        s@ == src@.subrange(from as int, to as int),
{
    let mut s = String::new();
    let mut i: usize = from;
    while i < to
        invariant
            from <= i <= to <= src.len(),
            s@ == src@.subrange(from as int, i as int),
        decreases to - i,
    {
        s.push(src[i]);
        i += 1;
    }
    s
}

/// The string that holds the given characters, in order.
pub fn string_of(v: &Vec<char>) -> (s: String)
    ensures
        s@ == v@,
{
    let s = text_of(v, 0, v.len());
    assert(v@.subrange(0, v.len() as int) == v@);
    s
}

/// The two strings one after the other.
pub fn joined(a: &str, b: &str) -> (s: String)
    ensures
        s@ == a@ + b@,
{
    let mut s = String::from_str(a);
    s.append(b);
    s
}

/// Whether `pat` stands in `s` at position `i`.
pub open spec fn matches_at(s: Seq<char>, pat: Seq<char>, i: int) -> bool {
    0 <= i && i + pat.len() <= s.len() && s.subrange(i, i + pat.len()) == pat
}

/// The positions at or after `from` where `pat` stands in `s`, found from left
/// to right; a match is passed over whole before the search goes on, so no two
/// of them overlap. An empty pattern is found nowhere.
pub open spec fn find_all(s: Seq<char>, pat: Seq<char>, from: int) -> Seq<int>
    decreases s.len() - from,
{
    if pat.len() == 0 || from < 0 || from + pat.len() > s.len() {
        Seq::empty()
    } else if matches_at(s, pat, from) {
        seq![from] + find_all(s, pat, from + pat.len())
    } else {
        find_all(s, pat, from + 1)
    }
}

/// What is found from `from` on lies at or after `from`, at a place where the
/// pattern stands in the text.
pub proof fn lemma_found(s: Seq<char>, pat: Seq<char>, from: int)
    ensures
        forall|k: int|
            0 <= k < find_all(s, pat, from).len() ==> from <= #[trigger] find_all(s, pat, from)[k]
                && matches_at(s, pat, find_all(s, pat, from)[k]),
    decreases s.len() - from,
{
    let hits = find_all(s, pat, from);
    if !(pat.len() == 0 || from < 0 || from + pat.len() > s.len()) {
        if matches_at(s, pat, from) {
            let later = find_all(s, pat, from + pat.len());
            lemma_found(s, pat, from + pat.len());
            assert forall|k: int| 0 <= k < hits.len() implies from <= #[trigger] hits[k]
                && matches_at(s, pat, hits[k]) by {
                if k > 0 {
                    assert(hits[k] == later[k - 1]);
                }
            }
        } else {
            let later = find_all(s, pat, from + 1);
            lemma_found(s, pat, from + 1);
            assert(hits == later);
            assert forall|k: int| 0 <= k < hits.len() implies from <= #[trigger] hits[k]
                && matches_at(s, pat, hits[k]) by {
                assert(hits[k] == later[k]);
            }
        }
    } else {
        assert(hits.len() == 0);
    }
}

/// The places found lie apart: each begins where the one before it has
/// ended, or later.
pub proof fn lemma_found_apart(s: Seq<char>, pat: Seq<char>, from: int)
    ensures
        forall|j: int, k: int|
            0 <= j < k < find_all(s, pat, from).len() ==> (#[trigger] find_all(s, pat, from)[j])
                + pat.len() <= #[trigger] find_all(s, pat, from)[k],
    decreases s.len() - from,
{
    let hits = find_all(s, pat, from);
    if !(pat.len() == 0 || from < 0 || from + pat.len() > s.len()) {
        if matches_at(s, pat, from) {
            let later = find_all(s, pat, from + pat.len());
            lemma_found_apart(s, pat, from + pat.len());
            lemma_found(s, pat, from + pat.len());
            assert forall|j: int, k: int| 0 <= j < k < hits.len() implies (#[trigger] hits[j])
                + pat.len() <= #[trigger] hits[k] by {
                assert(hits[k] == later[k - 1]);
                if j > 0 {
                    assert(hits[j] == later[j - 1]);
                }
            }
        } else {
            let later = find_all(s, pat, from + 1);
            lemma_found_apart(s, pat, from + 1);
            assert(hits == later);
        }
    } else {
        assert(hits.len() == 0);
    }
}

/// No place is passed over: wherever the pattern stands at or after `from`,
/// one of the places found begins there or covers the place.
pub proof fn law_no_place_is_passed_over(s: Seq<char>, pat: Seq<char>, from: int, i: int)
    requires
        pat.len() > 0,
        0 <= from <= i,
        matches_at(s, pat, i),
    ensures
        exists|k: int|
            0 <= k < find_all(s, pat, from).len() && (#[trigger] find_all(s, pat, from)[k]) <= i
                < find_all(s, pat, from)[k] + pat.len(),
    decreases s.len() - from,
{
    let hits = find_all(s, pat, from);
    if matches_at(s, pat, from) {
        let later = find_all(s, pat, from + pat.len());
        assert(hits == seq![from] + later);
        if i < from + pat.len() {
            assert(hits[0] == from);
        } else {
            law_no_place_is_passed_over(s, pat, from + pat.len(), i);
            let k = choose|k: int|
                0 <= k < later.len() && (#[trigger] later[k]) <= i < later[k] + pat.len();
            assert(hits[k + 1] == later[k]);
        }
    } else {
        let later = find_all(s, pat, from + 1);
        assert(hits == later);
        law_no_place_is_passed_over(s, pat, from + 1, i);
    }
}

/// The offsets of a list, as integers.
pub open spec fn positions(hits: Seq<usize>) -> Seq<int> {
    hits.map_values(|h: usize| h as int)
}

/// Whether `pat` stands in `buf` at position `i`.
pub fn is_at(buf: &Vec<char>, pat: &Vec<char>, i: usize) -> (r: bool)
    ensures
        r == matches_at(buf@, pat@, i as int),
{
    if pat.len() > buf.len() || i > buf.len() - pat.len() {
        return false;
    }
    let mut k: usize = 0;
    while k < pat.len()
        invariant
            k <= pat.len(),
            i + pat.len() <= buf.len(),
            buf@.subrange(i as int, i + k) == pat@.take(k as int),
        decreases pat.len() - k,
    {
        if buf[i + k] != pat[k] {
            assert(buf@.subrange(i as int, i + pat.len())[k as int] != pat@[k as int]);
            return false;
        }
        assert(buf@.subrange(i as int, i + k + 1) == buf@.subrange(i as int, i + k).push(
            buf@[i + k],
        ));
        assert(pat@.take(k + 1) == pat@.take(k as int).push(pat@[k as int]));
        k += 1;
    }
    assert(pat@.take(pat.len() as int) == pat@);
    true
}

/// The places where `pat` stands in `buf`, from left to right, each found
/// behind the end of the one before it.
pub fn occurrences(buf: &Vec<char>, pat: &Vec<char>) -> (hits: Vec<usize>)
    ensures
        positions(hits@) == find_all(buf@, pat@, 0),
        forall|k: int| 0 <= k < hits.len() ==> matches_at(buf@, pat@, #[trigger] hits[k] as int),
        forall|j: int, k: int|
            0 <= j < k < hits.len() ==> (#[trigger] hits[j]) + pat.len() <= #[trigger] hits[k],
{
    let mut hits: Vec<usize> = Vec::new();
    if pat.len() == 0 || pat.len() > buf.len() {
        assert(positions(hits@) == Seq::<int>::empty());
        return hits;
    }
    let last: usize = buf.len() - pat.len();
    let mut i: usize = 0;
    while i <= last
        invariant
            0 < pat.len() <= buf.len(),
            last == buf.len() - pat.len(),
            find_all(buf@, pat@, 0) == positions(hits@) + find_all(buf@, pat@, i as int),
        decreases buf.len() + 1 - i,
    {
        if is_at(buf, pat, i) {
            let ghost before = positions(hits@);
            hits.push(i);
            assert(positions(hits@) == before + seq![i as int]);
            i += pat.len();
        } else {
            i += 1;
        }
    }
    proof {
        assert(find_all(buf@, pat@, i as int) == Seq::<int>::empty());
        assert(positions(hits@) + Seq::<int>::empty() == positions(hits@));
        lemma_found(buf@, pat@, 0);
        lemma_found_apart(buf@, pat@, 0);
        assert forall|k: int| 0 <= k < hits.len() implies matches_at(
            buf@,
            pat@,
            #[trigger] hits[k] as int,
        ) by {
            assert(positions(hits@)[k] == hits[k] as int);
        }
        assert forall|j: int, k: int| 0 <= j < k < hits.len() implies (#[trigger] hits[j])
            + pat.len() <= #[trigger] hits[k] by {
            assert(positions(hits@)[j] == hits[j] as int);
            assert(positions(hits@)[k] == hits[k] as int);
        }
    }
    hits
}

/// `s` from `from` on, with `with` in place of each `pat`, the matches found
/// from left to right without overlap. An empty pattern changes nothing.
pub open spec fn replace_from(s: Seq<char>, pat: Seq<char>, with: Seq<char>, from: int) -> Seq<
    char,
>
    decreases s.len() - from,
{
    if from < 0 || from >= s.len() {
        Seq::empty()
    } else if pat.len() > 0 && matches_at(s, pat, from) {
        with + replace_from(s, pat, with, from + pat.len())
    } else {
        seq![s[from]] + replace_from(s, pat, with, from + 1)
    }
}

/// `s` with `with` in place of each `pat`.
pub open spec fn replace_all(s: Seq<char>, pat: Seq<char>, with: Seq<char>) -> Seq<char> {
    replace_from(s, pat, with, 0)
}

/// A copy of `src` with `with` in place of each `pat`.
pub fn replace(src: &str, pat: &str, with: &str) -> (out: String)
    ensures
        out@ == replace_all(src@, pat@, with@),
{
    let text = chars_of(src);
    let key = chars_of(pat);
    let mut out = String::new();
    let mut i: usize = 0;
    while i < text.len()
        invariant
            i <= text.len(),
            text@ == src@,
            key@ == pat@,
            replace_all(src@, pat@, with@) == out@ + replace_from(src@, pat@, with@, i as int),
        decreases text.len() - i,
    {
        let ghost before = out@;
        if key.len() > 0 && is_at(&text, &key, i) {
            out.append(with);
            assert(before + (with@ + replace_from(src@, pat@, with@, i + key.len())) == (before
                + with@) + replace_from(src@, pat@, with@, i + key.len()));
            i += key.len();
        } else {
            out.push(text[i]);
            assert(before + (seq![src@[i as int]] + replace_from(src@, pat@, with@, i + 1))
                == before.push(src@[i as int]) + replace_from(src@, pat@, with@, i + 1));
            i += 1;
        }
    }
    assert(out@ + Seq::<char>::empty() == out@);
    out
}

} // verus!
