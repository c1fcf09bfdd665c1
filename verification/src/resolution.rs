//! The resolution loop: group by group, the operator is shown the files that
//! share a fingerprint and may have one of them removed.
//!
//! The loop is a state machine. The caller does what an [`Action`] asks for
//! (print, read a line, remove a file) and hands back what happened as an
//! [`Event`]; [`Resolver::advance`] decides what comes next.

use vstd::prelude::*;
use std::path::PathBuf;
use crate::path::{clone_path, path_debug};
use crate::index::{GroupView, Index, distinct, is_surfaced, without};
use crate::report::{
    delete_failed_line,
    delete_failed_text,
    deleted_line,
    deleted_text,
    no_answer_line,
    no_answer_text,
    parse_error_line,
    parse_error_text,
    present,
    presentation,
    selected_line,
    selected_text,
    wrong_selection_line,
    wrong_selection_text,
};
use crate::scanner::texts;
use crate::selection::{Selection, select, selection_of};

verus! {

/// Where the loop stands.
#[derive(Clone, Copy, Debug, PartialEq, Eq, Structural)]
pub enum Phase {
    /// Between groups: nothing is on show.
    Idle,
    /// A group is on show and the operator's answer is awaited.
    AwaitingInput,
    /// The removal of this member of the group on show has been asked for,
    /// and its outcome is awaited.
    Deleting(usize),
}

/// What happened outside since the last action.
#[derive(Debug)]
pub enum Event {
    /// The lines of the last action, if any, are printed.
    Ready,
    /// The operator's answer.
    Line(String),
    /// No answer could be read; the text says why.
    NoLine(String),
    /// The file is removed.
    Removed,
    /// The file could not be removed; the text says why.
    RemoveFailed(String),
}

/// What the caller is to do next.
#[derive(Debug)]
pub enum Action {
    /// Print the lines, read one line, and come back with it.
    Ask(Vec<String>),
    /// Print the lines, remove the file at `path`, and come back with the
    /// outcome.
    Remove { lines: Vec<String>, path: PathBuf },
    /// Print the lines and come back.
    Report(Vec<String>),
    /// Every group has had its turn.
    Stop,
    /// The event does not belong to the phase; nothing has changed.
    Rejected,
}

/// What an [`Action`] stands for in contracts.
pub enum ActionView {
    Ask(Seq<Seq<char>>),
    Remove { lines: Seq<Seq<char>>, path: Seq<char> },
    Report(Seq<Seq<char>>),
    Stop,
    Rejected,
}

impl View for Action {
    type V = ActionView;

    open spec fn view(&self) -> ActionView {
        match *self {
            Action::Ask(lines) => ActionView::Ask(texts(lines@)),
            Action::Remove { lines, path } => ActionView::Remove {
                lines: texts(lines@),
                path: path_debug(path),
            },
            Action::Report(lines) => ActionView::Report(texts(lines@)),
            Action::Stop => ActionView::Stop,
            Action::Rejected => ActionView::Rejected,
        }
    }
}

/// What a [`Resolver`] stands for in contracts.
pub struct ResolverView {
    /// The groups of the index, surfaced or not.
    pub groups: Seq<GroupView>,
    /// The group on show, or the first that has not had its turn.
    pub cursor: nat,
    pub phase: Phase,
}

/// The resolution loop over one index.
pub struct Resolver {
    index: Index,
    cursor: usize,
    phase: Phase,
}

/// Whether a state can be reached: no two groups have the same fingerprint,
/// a group on show is a group of the index with two members or more, and a
/// removal that is awaited is that of one of its members.
pub open spec fn valid(state: ResolverView) -> bool {
    &&& distinct(state.groups)
    &&& state.cursor <= state.groups.len()
    &&& state.phase != Phase::Idle ==> state.cursor < state.groups.len() && is_surfaced(
        state.groups[state.cursor as int],
    )
    &&& state.phase matches Phase::Deleting(member) ==> member
        < state.groups[state.cursor as int].members.len()
}

/// The first group at or behind `from` that is shown to the operator, or the
/// number of groups where there is none.
pub open spec fn next_surfaced(groups: Seq<GroupView>, from: int) -> int
    decreases groups.len() - from,
{
    if from >= groups.len() {
        groups.len() as int
    } else if is_surfaced(groups[from]) {
        from
    } else {
        next_surfaced(groups, from + 1)
    }
}

/// `state` once the group on show has had its turn.
pub open spec fn passed(state: ResolverView) -> ResolverView {
    ResolverView { groups: state.groups, cursor: state.cursor + 1, phase: Phase::Idle }
}

/// What an answer leads to while a group is on show.
pub open spec fn answered(state: ResolverView, line: Seq<char>) -> (ResolverView, ActionView) {
    let group = state.groups[state.cursor as int];
    match selection_of(group.members.len(), line) {
        Selection::Member(member) => (
            ResolverView {
                groups: state.groups,
                cursor: state.cursor,
                phase: Phase::Deleting(member),
            },
            ActionView::Remove {
                lines: seq![selected_text(line)],
                path: group.members[member as int].path,
            },
        ),
        Selection::OutOfRange => (
            passed(state),
            ActionView::Report(seq![selected_text(line), wrong_selection_text()]),
        ),
        Selection::Unparsable(failure) => (
            passed(state),
            ActionView::Report(seq![selected_text(line), parse_error_text(failure)]),
        ),
    }
}

/// The state and the action that follow from a state and an event.
///
/// * Between groups, `Ready` puts the next group with two members or more on
///   show, or stops where there is none.
/// * With a group on show, an answer that names a member asks for that
///   member's file to be removed; any other answer, or none, is reported and
///   passes the group by.
/// * With a removal awaited, its success strikes the member from its group,
///   and its failure leaves the index as it is; either way the group has had
///   its turn.
/// * An event that does not belong to the phase is rejected.
pub open spec fn step(state: ResolverView, event: Event) -> (ResolverView, ActionView) {
    match state.phase {
        Phase::Idle => match event {
            Event::Ready => {
                let at = next_surfaced(state.groups, state.cursor as int);
                if at < state.groups.len() {
                    (
                        ResolverView {
                            groups: state.groups,
                            cursor: at as nat,
                            phase: Phase::AwaitingInput,
                        },
                        ActionView::Ask(presentation(state.groups[at])),
                    )
                } else {
                    (
                        ResolverView {
                            groups: state.groups,
                            cursor: at as nat,
                            phase: Phase::Idle,
                        },
                        ActionView::Stop,
                    )
                }
            },
            _ => (state, ActionView::Rejected),
        },
        Phase::AwaitingInput => match event {
            Event::Line(line) => answered(state, line@),
            Event::NoLine(reason) => (
                passed(state),
                ActionView::Report(seq![no_answer_text(reason@)]),
            ),
            _ => (state, ActionView::Rejected),
        },
        Phase::Deleting(member) => {
            let group = state.groups[state.cursor as int];
            match event {
                Event::Removed => (
                    ResolverView {
                        groups: state.groups.update(
                            state.cursor as int,
                            without(group, member as int),
                        ),
                        cursor: state.cursor + 1,
                        phase: Phase::Idle,
                    },
                    ActionView::Report(seq![deleted_text(group.members[member as int].path)]),
                ),
                Event::RemoveFailed(reason) => (
                    passed(state),
                    ActionView::Report(seq![delete_failed_text(reason@)]),
                ),
                _ => (state, ActionView::Rejected),
            }
        },
    }
}

/// The search for the next group on show may begin behind any groups that
/// are not shown.
proof fn lemma_next_surfaced_skip(groups: Seq<GroupView>, from: int, to: int)
    requires
        0 <= from <= to <= groups.len(),
        forall|k: int| from <= k < to ==> !is_surfaced(#[trigger] groups[k]),
    ensures
        next_surfaced(groups, from) == next_surfaced(groups, to),
    decreases to - from,
{
    if from < to {
        lemma_next_surfaced_skip(groups, from + 1, to);
    }
}

impl View for Resolver {
    type V = ResolverView;

    closed spec fn view(&self) -> ResolverView {
        ResolverView { groups: self.index@, cursor: self.cursor as nat, phase: self.phase }
    }
}

impl Resolver {
    #[verifier::type_invariant]
    spec fn well_formed(self) -> bool {
        valid(self@)
    }

    /// The loop over `index`, before its first group.
    pub fn new(index: Index) -> (resolver: Self)
        ensures
            resolver@ == (ResolverView { groups: index@, cursor: 0, phase: Phase::Idle }),
    {
        proof {
            use_type_invariant(&index);
        }
        Resolver { index, cursor: 0, phase: Phase::Idle }
    }

    /// Where the loop stands.
    pub fn phase(&self) -> (phase: Phase)
        ensures
            phase == self@.phase,
            valid(self@),
    {
        proof {
            use_type_invariant(self);
        }
        self.phase
    }

    /// The position of the group on show, or of the first group that has not
    /// had its turn.
    pub fn cursor(&self) -> (cursor: usize)
        ensures
            cursor == self@.cursor,
    {
        self.cursor
    }

    /// The index as it stands now.
    pub fn index(&self) -> (index: &Index)
        ensures
            index@ == self@.groups,
    {
        &self.index
    }

    /// Gives the index back as the loop leaves it.
    pub fn into_index(self) -> (index: Index)
        ensures
            index@ == self@.groups,
    {
        self.index
    }

    /// Takes the loop one step on: the state and the action that follow
    /// from the state it is in and from what happened outside.
    pub fn advance(self, event: Event) -> (next: (Self, Action))
        ensures
            (next.0@, next.1@) == step(self@, event),
    {
        proof {
            use_type_invariant(&self);
        }
        let ghost before = self@;
        let Resolver { index, cursor, phase } = self;
        let count = index.len();
        match phase {
            Phase::Idle => match event {
                Event::Ready => {
                    let mut at: usize = cursor;
                    while at < count && !index.group(at).unwrap().is_surfaced()
                        invariant
                            cursor <= at <= count == index@.len(),
                            forall|k: int| cursor <= k < at ==> !is_surfaced(#[trigger] index@[k]),
                        decreases index@.len() - at,
                    {
                        at = at + 1;
                    }
                    proof {
                        lemma_next_surfaced_skip(index@, cursor as int, at as int);
                    }
                    if at < count {
                        let lines = present(index.group(at).unwrap());
                        (
                            Resolver { index, cursor: at, phase: Phase::AwaitingInput },
                            Action::Ask(lines),
                        )
                    } else {
                        (Resolver { index, cursor: at, phase: Phase::Idle }, Action::Stop)
                    }
                },
                _ => (Resolver { index, cursor, phase }, Action::Rejected),
            },
            Phase::AwaitingInput => match event {
                Event::Line(line) => {
                    let group = index.group(cursor).unwrap();
                    let mut lines: Vec<String> = Vec::new();
                    lines.push(selected_line(line.as_str()));
                    match select(group.len(), line.as_str()) {
                        Selection::Member(member) => {
                            let path = clone_path(&group.member(member).unwrap().path);
                            assert(texts(lines@) =~= seq![selected_text(line@)]);
                            (
                                Resolver { index, cursor, phase: Phase::Deleting(member) },
                                Action::Remove { lines, path },
                            )
                        },
                        Selection::OutOfRange => {
                            lines.push(wrong_selection_line());
                            assert(texts(lines@) =~= seq![
                                selected_text(line@),
                                wrong_selection_text(),
                            ]);
                            (
                                Resolver { index, cursor: cursor + 1, phase: Phase::Idle },
                                Action::Report(lines),
                            )
                        },
                        Selection::Unparsable(failure) => {
                            lines.push(parse_error_line(failure));
                            assert(texts(lines@) =~= seq![
                                selected_text(line@),
                                parse_error_text(failure),
                            ]);
                            (
                                Resolver { index, cursor: cursor + 1, phase: Phase::Idle },
                                Action::Report(lines),
                            )
                        },
                    }
                },
                Event::NoLine(reason) => {
                    let mut lines: Vec<String> = Vec::new();
                    lines.push(no_answer_line(reason.as_str()));
                    assert(texts(lines@) =~= seq![no_answer_text(reason@)]);
                    (
                        Resolver { index, cursor: cursor + 1, phase: Phase::Idle },
                        Action::Report(lines),
                    )
                },
                _ => (Resolver { index, cursor, phase }, Action::Rejected),
            },
            Phase::Deleting(member) => match event {
                Event::Removed => {
                    let mut index = index;
                    let struck = index.remove_member(cursor, member).unwrap();
                    proof {
                        use_type_invariant(&index);
                    }
                    let mut lines: Vec<String> = Vec::new();
                    lines.push(deleted_line(&struck.path));
                    assert(texts(lines@) =~= seq![deleted_text(struck@.path)]);
                    (
                        Resolver { index, cursor: cursor + 1, phase: Phase::Idle },
                        Action::Report(lines),
                    )
                },
                Event::RemoveFailed(reason) => {
                    let mut lines: Vec<String> = Vec::new();
                    lines.push(delete_failed_line(reason.as_str()));
                    assert(texts(lines@) =~= seq![delete_failed_text(reason@)]);
                    (
                        Resolver { index, cursor: cursor + 1, phase: Phase::Idle },
                        Action::Report(lines),
                    )
                },
                _ => (Resolver { index, cursor, phase }, Action::Rejected),
            },
        }
    }
}

/// The next group on show is a group with two members or more, unless the
/// groups are exhausted.
pub proof fn lemma_next_surfaced(groups: Seq<GroupView>, from: int)
    requires
        0 <= from <= groups.len(),
    ensures
        from <= next_surfaced(groups, from) <= groups.len(),
        next_surfaced(groups, from) < groups.len() ==> is_surfaced(
            groups[next_surfaced(groups, from)],
        ),
        forall|k: int| from <= k < next_surfaced(groups, from) ==> !is_surfaced(#[trigger] groups[k]),
    decreases groups.len() - from,
{
    if from < groups.len() && !is_surfaced(groups[from]) {
        lemma_next_surfaced(groups, from + 1);
    }
}

/// Every step leads from a state that can be reached to one that can, and
/// keeps the number of groups and their fingerprints.
pub proof fn lemma_step_valid(state: ResolverView, event: Event)
    requires
        valid(state),
    ensures
        valid(step(state, event).0),
        step(state, event).0.groups.len() == state.groups.len(),
        forall|g: int|
            0 <= g < state.groups.len() ==> (#[trigger] step(state, event).0.groups[g]).fingerprint
                == state.groups[g].fingerprint,
        state.cursor <= step(state, event).0.cursor,
{
    lemma_next_surfaced(state.groups, state.cursor as int);
}

/// An answer that names no member of the group on show removes nothing: no
/// removal is asked for, and the index stays as it is.
pub proof fn lemma_other_answers_remove_nothing(state: ResolverView, line: String)
    requires
        valid(state),
        state.phase == Phase::AwaitingInput,
        !(selection_of(state.groups[state.cursor as int].members.len(), line@) is Member),
    ensures
        step(state, Event::Line(line)).1 is Report,
        step(state, Event::Line(line)).0.groups == state.groups,
        step(state, Event::Line(line)).0.phase == Phase::Idle,
{
}

/// An answer that names a member of the group on show removes exactly that
/// member: the removal of its file, and of no other, is asked for; when it
/// has succeeded the member is struck from its group, and every other member
/// of the group and every other group stay as they are; when it has failed
/// nothing is struck. No further removal is asked for before the next group
/// is on show.
pub proof fn lemma_answer_removes_one(state: ResolverView, line: String, member: usize)
    requires
        valid(state),
        state.phase == Phase::AwaitingInput,
        selection_of(state.groups[state.cursor as int].members.len(), line@) == Selection::Member(
            member,
        ),
    ensures
        member < state.groups[state.cursor as int].members.len(),
        step(state, Event::Line(line)).1 matches ActionView::Remove { path, .. } && path
            == state.groups[state.cursor as int].members[member as int].path,
        step(state, Event::Line(line)).0.groups == state.groups,
        ({
            let asked = step(state, Event::Line(line)).0;
            let struck = step(asked, Event::Removed).0.groups;
            &&& struck.len() == state.groups.len()
            &&& forall|g: int|
                0 <= g < struck.len() && g != state.cursor ==> #[trigger] struck[g]
                    == state.groups[g]
            &&& struck[state.cursor as int].fingerprint
                == state.groups[state.cursor as int].fingerprint
            &&& struck[state.cursor as int].members
                == state.groups[state.cursor as int].members.remove(member as int)
            &&& forall|reason: String|
                (#[trigger] step(asked, Event::RemoveFailed(reason))).0.groups == state.groups
            &&& forall|event: Event| !((#[trigger] step(asked, event)).1 is Remove)
        }),
{
}

/// No removal is asked for but on the operator's answer to the group on
/// show.
pub proof fn lemma_removal_needs_answer(state: ResolverView, event: Event)
    requires
        step(state, event).1 is Remove,
    ensures
        state.phase == Phase::AwaitingInput,
        event is Line,
{
}

} // verus!
