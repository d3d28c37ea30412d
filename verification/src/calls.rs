use crate::edits::{apply_edits, edits_of, Edit, PendingEdit};
use crate::issues::{fault_if, faults_of, note_all, note_if, Fault, Issue};
use crate::laws::law_nothing_is_lost;
use crate::parser::{Parser, Program};
use crate::scanner::{
    advance, collect_back_until, collect_until, cursor_after, scan_start, scanned, scanned_back,
    step, stopped, Stop,
};
use crate::templates::{call_text, emit_call};
use crate::text::{chars_of, find_all, occurrences, positions, push_str};
use vstd::prelude::*;

verus! {

/// What marks a call of the method through a receiver.
pub open spec fn call_pattern(method: Seq<char>) -> Seq<char> {
    "->"@ + method
}

/// What ends a receiver, read to the left from the arrow.
pub open spec fn receiver_stop() -> Stop {
    Stop::AtAny(' ', '\n', ',')
}

/// A call that was found: the edit that rewrites it, and what was amiss.
pub ghost struct CallSite {
    pub edit: Edit,
    pub faults: Seq<Fault>,
}

/// The call whose arrow stands at `i`: the receiver is what stands before the
/// arrow back to the nearest space, line break or comma; one character after
/// the method's name is passed over as the opening bracket; the arguments are
/// what follows up to the first closing bracket. The edit reaches from the
/// receiver's first character to that closing bracket. A call without a
/// closing bracket is unterminated.
pub open spec fn call_site(s: Seq<char>, method: Seq<char>, i: int) -> CallSite {
    let len = s.len() as int;
    let at = step(len, 0, i);
    let args_from = step(len, at, call_pattern(method).len() as int + 1);
    CallSite {
        edit: Edit {
            start: scan_start(s, at, receiver_stop()),
            end: cursor_after(s, args_from, 1, Stop::At(')')),
            text: call_text(
                method,
                scanned_back(s, i, receiver_stop()),
                scanned(s, args_from, Stop::At(')')),
            ),
        },
        faults: fault_if(
            !stopped(s, args_from, Stop::At(')')),
            Fault::UnterminatedBlock { at: i },
        ),
    }
}

/// The edits for the calls whose arrows stand at `hits`.
pub open spec fn call_edits(s: Seq<char>, method: Seq<char>, hits: Seq<int>) -> Seq<Edit> {
    hits.map_values(|i: int| call_site(s, method, i).edit)
}

/// What was amiss with the calls whose arrows stand at `hits`, in their
/// order.
pub open spec fn call_faults(s: Seq<char>, method: Seq<char>, hits: Seq<int>) -> Seq<Fault>
    decreases hits.len(),
{
    if hits.len() == 0 {
        Seq::empty()
    } else {
        call_faults(s, method, hits.drop_last()) + call_site(s, method, hits.last()).faults
    }
}

/// The program with every call of the method through a receiver turned into
/// a call that takes the receiver first. The table stays as it is.
pub open spec fn rewrite_calls(p: Program, method: Seq<char>) -> Program {
    let hits = find_all(p.text, call_pattern(method), 0);
    Program {
        text: apply_edits(p.text, call_edits(p.text, method, hits)),
        table: p.table,
        issues: p.issues + call_faults(p.text, method, hits),
    }
}

/// The call whose arrow stands at `i`: its edit, and what was amiss.
pub fn call_site_edit(buf: &Vec<char>, method: &str, i: usize) -> (res: (PendingEdit, Vec<Issue>))
    ensures
        res.0@ == call_site(buf@, method@, i as int).edit,
        faults_of(res.1@) == call_site(buf@, method@, i as int).faults,
{
    proof {
        reveal_strlit("->");
    }
    let len = buf.len();
    let at = advance(len, 0, i);
    let (receiver, start) = collect_back_until(buf, i, Stop::AtAny(' ', '\n', ','));
    let name_from = advance(len, at, 2);
    let args_from = advance(len, advance(len, name_from, chars_of(method).len()), 1);
    let (args, end, closed) = collect_until(buf, args_from, 1, Stop::At(')'));
    let mut found: Vec<Issue> = Vec::new();
    assert(faults_of(found@) == Seq::<Fault>::empty());
    note_if(&mut found, !closed, Issue::UnterminatedBlock { at: i });
    (PendingEdit { start, end, text: emit_call(method, receiver.as_str(), args.as_str()) }, found)
}

impl Parser {
    /// Turns every call of the method through a receiver, wherever in the text
    /// it stands, into a call that takes the receiver as its first argument,
    /// and notes the calls that have no closing bracket.
    pub fn parse_call(&mut self, method: String)
        ensures
            final(self).program() == rewrite_calls(old(self).program(), method@),
            final(self).classes == old(self).classes,
            old(self).program().issues.is_prefix_of(final(self).program().issues),
    {
        proof {
            law_nothing_is_lost(self.program(), method@);
        }
        let buf = chars_of(self.src.as_str());
        let mut pat = chars_of("->");
        push_str(&mut pat, method.as_str());
        let hits = occurrences(&buf, &pat);
        let ghost before = faults_of(self.issues@);
        let mut edits: Vec<PendingEdit> = Vec::new();
        let mut k: usize = 0;
        assert(before + Seq::<Fault>::empty() == before);
        while k < hits.len()
            invariant
                k <= hits.len(),
                self.src == old(self).src,
                self.classes == old(self).classes,
                edits_of(edits@) == call_edits(buf@, method@, positions(hits@).take(k as int)),
                faults_of(self.issues@) == before + call_faults(
                    buf@,
                    method@,
                    positions(hits@).take(k as int),
                ),
            decreases hits.len() - k,
        {
            let (edit, found) = call_site_edit(&buf, method.as_str(), hits[k]);
            let ghost waiting = edits_of(edits@);
            let ghost seen = positions(hits@).take(k as int);
            let ghost next = positions(hits@).take(k + 1);
            edits.push(edit);
            note_all(&mut self.issues, found);
            proof {
                assert(edits_of(edits@) =~= waiting.push(edit@));
                assert(next =~= seen.push(hits@[k as int] as int));
                assert(next.drop_last() == seen);
                assert(call_edits(buf@, method@, next) =~= call_edits(buf@, method@, seen).push(
                    edit@,
                ));
                assert(before + (call_faults(buf@, method@, seen) + faults_of(found@)) == before
                    + call_faults(buf@, method@, seen) + faults_of(found@));
            }
            k += 1;
        }
        assert(positions(hits@).take(hits.len() as int) == positions(hits@));
        self.insert(edits);
    }
}

} // verus!
