use crate::text::{push_range, push_str};
use vstd::prelude::*;

verus! {

/// A replacement that was found during a scan and is carried out later: the
/// characters from `start` up to `end` give way to `text`.
#[derive(Debug)]
pub struct PendingEdit {
    pub start: usize,
    pub end: usize,
    pub text: String,
}

/// What a pending edit stands for.
pub ghost struct Edit {
    pub start: int,
    pub end: int,
    pub text: Seq<char>,
}

impl View for PendingEdit {
    type V = Edit;

    open spec fn view(&self) -> Edit {
        Edit { start: self.start as int, end: self.end as int, text: self.text@ }
    }
}

/// What a list of pending edits stands for.
pub open spec fn edits_of(list: Seq<PendingEdit>) -> Seq<Edit> {
    list.map_values(|e: PendingEdit| e@)
}

/// `x` held between `lo` and `hi`.
pub open spec fn clamp(x: int, lo: int, hi: int) -> int {
    if x < lo {
        lo
    } else if x > hi {
        hi
    } else {
        x
    }
}

/// The text with one edit carried out. An edit that reaches past the end of
/// the text is cut off there, and one that ends before it starts removes
/// nothing.
pub open spec fn spliced(s: Seq<char>, e: Edit) -> Seq<char> {
    let from = clamp(e.start, 0, s.len() as int);
    let to = clamp(e.end, from, s.len() as int);
    s.subrange(0, from) + e.text + s.subrange(to, s.len() as int)
}

/// The text with all the edits carried out, the last of the list first.
pub open spec fn apply_edits(s: Seq<char>, edits: Seq<Edit>) -> Seq<char>
    decreases edits.len(),
{
    if edits.len() == 0 {
        s
    } else {
        apply_edits(spliced(s, edits.last()), edits.drop_last())
    }
}

/// Whether the edits lie within a text of length `len`, each ending no later
/// than the next begins.
pub open spec fn disjoint(edits: Seq<Edit>, len: int) -> bool {
    &&& forall|k: int| 0 <= k < edits.len() ==> 0 <= (#[trigger] edits[k]).start <= edits[k].end <= len
    &&& forall|j: int, k: int|
        0 <= j < k < edits.len() ==> (#[trigger] edits[j]).end <= (#[trigger] edits[k]).start
}

/// The text from `from` on with the edits from the `k`-th on carried out all at
/// once: what lies between two edits stays, and each edit's range gives way to
/// its text.
pub open spec fn rewritten_from(s: Seq<char>, edits: Seq<Edit>, k: int, from: int) -> Seq<char>
    decreases edits.len() - k,
{
    if k < 0 || k >= edits.len() {
        s.subrange(from, s.len() as int)
    } else {
        s.subrange(from, edits[k].start) + edits[k].text + rewritten_from(
            s,
            edits,
            k + 1,
            edits[k].end,
        )
    }
}

/// The text with the edits carried out all at once.
pub open spec fn rewritten(s: Seq<char>, edits: Seq<Edit>) -> Seq<char> {
    rewritten_from(s, edits, 0, 0)
}

/// A copy of `buf` with one edit carried out.
pub fn splice(buf: &Vec<char>, edit: &PendingEdit) -> (out: Vec<char>)
    ensures
        out@ == spliced(buf@, edit@),
{
    let len = buf.len();
    let from = if edit.start > len {
        len
    } else {
        edit.start
    };
    let to = if edit.end < from {
        from
    } else if edit.end > len {
        len
    } else {
        edit.end
    };
    let mut out: Vec<char> = Vec::new();
    push_range(&mut out, buf, 0, from);
    push_str(&mut out, edit.text.as_str());
    push_range(&mut out, buf, to, len);
    out
}

/// What the edits, carried out all at once, give up to the place where the
/// text of the `k`-th begins: the texts of those before it, and what stood
/// between them.
pub open spec fn rewritten_up_to(s: Seq<char>, edits: Seq<Edit>, k: int) -> Seq<char>
    decreases k,
{
    if k <= 0 {
        s.subrange(0, edits[0].start)
    } else {
        rewritten_up_to(s, edits, k - 1) + edits[k - 1].text + s.subrange(
            edits[k - 1].end,
            edits[k].start,
        )
    }
}

/// What the edits, carried out all at once, give behind the text of the
/// `k`-th: what stood behind its range, with the later edits carried out.
pub open spec fn rewritten_behind(s: Seq<char>, edits: Seq<Edit>, k: int) -> Seq<char> {
    rewritten_from(s, edits, k + 1, edits[k].end)
}

/// Each edit's text stands in what the edits give all at once: between what
/// they give up to it and what they give behind it.
pub proof fn law_each_edit_stands_in_place(s: Seq<char>, edits: Seq<Edit>, k: int)
    requires
        0 <= k < edits.len(),
    ensures
        rewritten(s, edits) == rewritten_up_to(s, edits, k) + edits[k].text + rewritten_behind(
            s,
            edits,
            k,
        ),
    decreases k,
{
    if k > 0 {
        law_each_edit_stands_in_place(s, edits, k - 1);
        let front = rewritten_up_to(s, edits, k - 1) + edits[k - 1].text;
        let gap = s.subrange(edits[k - 1].end, edits[k].start);
        let rest = edits[k].text + rewritten_from(s, edits, k + 1, edits[k].end);
        assert(rewritten_from(s, edits, k, edits[k - 1].end) == gap + edits[k].text
            + rewritten_from(s, edits, k + 1, edits[k].end));
        assert(front + (gap + edits[k].text + rewritten_from(s, edits, k + 1, edits[k].end))
            =~= front + gap + edits[k].text + rewritten_from(s, edits, k + 1, edits[k].end));
    }
}

/// Edits that all begin at or after a place leave what stands before the
/// place as it is.
pub proof fn lemma_edits_keep_what_is_before(s: Seq<char>, edits: Seq<Edit>, n: int)
    requires
        0 <= n <= s.len(),
        forall|k: int| 0 <= k < edits.len() ==> n <= (#[trigger] edits[k]).start,
    ensures
        n <= apply_edits(s, edits).len(),
        apply_edits(s, edits).subrange(0, n) == s.subrange(0, n),
    decreases edits.len(),
{
    if edits.len() > 0 {
        let last = edits.last();
        let after = spliced(s, last);
        let rest = edits.drop_last();
        let from = clamp(last.start, 0, s.len() as int);
        assert(n <= from);
        assert(after.subrange(0, n) =~= s.subrange(0, n));
        assert forall|k: int| 0 <= k < rest.len() implies n <= (#[trigger] rest[k]).start by {
            assert(rest[k] == edits[k]);
        }
        lemma_edits_keep_what_is_before(after, rest, n);
    }
}

/// Carrying out the last edit first leaves the earlier ones where they were:
/// what they rewrite all at once is the same in the text before and after.
proof fn lemma_last_edit_moves_none(s: Seq<char>, edits: Seq<Edit>, k: int, from: int)
    requires
        edits.len() > 0,
        disjoint(edits, s.len() as int),
        0 <= k < edits.len(),
        0 <= from <= edits[k].start,
    ensures
        rewritten_from(spliced(s, edits.last()), edits.drop_last(), k, from) == rewritten_from(
            s,
            edits,
            k,
            from,
        ),
    decreases edits.len() - k,
{
    let last = edits.last();
    let after = spliced(s, last);
    let rest = edits.drop_last();
    assert(after == s.subrange(0, last.start) + last.text + s.subrange(last.end, s.len() as int));
    if k == edits.len() - 1 {
        assert(rewritten_from(s, edits, k + 1, last.end) == s.subrange(last.end, s.len() as int));
        assert(after.subrange(from, after.len() as int) =~= s.subrange(from, last.start)
            + last.text + s.subrange(last.end, s.len() as int));
    } else {
        assert(rest[k] == edits[k]);
        assert(edits[k].end <= edits[k + 1].start);
        assert(edits[k].end <= last.start);
        lemma_last_edit_moves_none(s, edits, k + 1, edits[k].end);
        assert(after.subrange(from, edits[k].start) =~= s.subrange(from, edits[k].start));
    }
}

/// Edits that lie apart do not disturb each other: carried out one by one,
/// the last first, they give what they give all at once.
pub proof fn law_edits_apart_do_not_disturb(s: Seq<char>, edits: Seq<Edit>)
    requires
        disjoint(edits, s.len() as int),
    ensures
        apply_edits(s, edits) == rewritten(s, edits),
    decreases edits.len(),
{
    if edits.len() == 0 {
        assert(s.subrange(0, s.len() as int) == s);
    } else {
        let last = edits.last();
        let after = spliced(s, last);
        let rest = edits.drop_last();
        assert(after == s.subrange(0, last.start) + last.text + s.subrange(
            last.end,
            s.len() as int,
        ));
        assert(disjoint(rest, after.len() as int)) by {
            assert forall|k: int| 0 <= k < rest.len() implies 0 <= (#[trigger] rest[k]).start
                <= rest[k].end <= after.len() by {
                assert(rest[k] == edits[k]);
                assert(edits[k].end <= edits[edits.len() - 1].start);
            }
            assert forall|j: int, k: int| 0 <= j < k < rest.len() implies (#[trigger] rest[j]).end
                <= (#[trigger] rest[k]).start by {
                assert(rest[j] == edits[j]);
                assert(rest[k] == edits[k]);
            }
        }
        law_edits_apart_do_not_disturb(after, rest);
        lemma_last_edit_moves_none(s, edits, 0, 0);
    }
}

} // verus!
