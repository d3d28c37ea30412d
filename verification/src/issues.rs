use vstd::prelude::*;

verus! {

/// What a scan could not do as the source asked. The rewriting goes on
/// after each of them, and the text that comes out may not be what was
/// meant; `at` is the offset at which the construct stood in the text in
/// which it was read.
#[derive(Debug, PartialEq, Eq)]
pub enum Issue {
    /// A construct whose closing mark is missing: a scan for a mark ran to
    /// the end of the text.
    UnterminatedBlock { at: usize },
    /// A construction of a class that the table does not have: its arguments
    /// were passed on without the class's functions.
    UnknownClass { at: usize, name: String },
    /// A class declared under a name that the table had already: it was
    /// entered a second time.
    DuplicateClass { at: usize, name: String },
}

/// What an issue stands for.
pub ghost enum Fault {
    UnterminatedBlock { at: int },
    UnknownClass { at: int, name: Seq<char> },
    DuplicateClass { at: int, name: Seq<char> },
}

impl View for Issue {
    type V = Fault;

    open spec fn view(&self) -> Fault {
        match *self {
            Issue::UnterminatedBlock { at } => Fault::UnterminatedBlock { at: at as int },
            Issue::UnknownClass { at, name } => Fault::UnknownClass { at: at as int, name: name@ },
            Issue::DuplicateClass { at, name } => Fault::DuplicateClass {
                at: at as int,
                name: name@,
            },
        }
    }
}

/// What a list of issues stands for.
pub open spec fn faults_of(list: Seq<Issue>) -> Seq<Fault> {
    list.map_values(|i: Issue| i@)
}

/// The fault alone where the condition holds, and nothing where it does not.
pub open spec fn fault_if(cond: bool, fault: Fault) -> Seq<Fault> {
    if cond {
        seq![fault]
    } else {
        Seq::empty()
    }
}

/// Notes the issue where the condition holds.
pub fn note_if(issues: &mut Vec<Issue>, cond: bool, issue: Issue)
    ensures
        faults_of(final(issues)@) == faults_of(old(issues)@) + fault_if(cond, issue@),
{
    if cond {
        issues.push(issue);
        assert(faults_of(issues@) =~= faults_of(old(issues)@) + seq![issue@]);
    } else {
        assert(faults_of(issues@) =~= faults_of(old(issues)@) + Seq::<Fault>::empty());
    }
}

/// Moves the issues found onto the end of the list.
pub fn note_all(issues: &mut Vec<Issue>, found: Vec<Issue>)
    ensures
        faults_of(final(issues)@) == faults_of(old(issues)@) + faults_of(found@),
{
    let ghost added = faults_of(found@);
    let mut found = found;
    issues.append(&mut found);
    assert(faults_of(issues@) =~= faults_of(old(issues)@) + added);
}

} // verus!
