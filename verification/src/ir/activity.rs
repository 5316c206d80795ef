//! Activity diagram IR: a statement tree. Order is encoded by position in
//! the tree; there are no edges.

use vstd::prelude::*;
use crate::ir::common::{LayoutDirection, NotePosition, Skinparam};
use crate::text::{ascii_lower, chars_eq, normalize_keyword, trimmed};

verus! {

#[derive(Debug)]
pub struct ActivityDiagram {
    pub name: Option<String>,
    pub title: Option<String>,
    /// Top-level statement sequence.
    pub body: Vec<ActivityStmt>,
    pub skinparams: Vec<Skinparam>,
    /// `left to right direction`.
    pub direction: LayoutDirection,
}

impl Default for ActivityDiagram {
    fn default() -> (r: Self)
        ensures
            r.name is None,
            r.title is None,
            r.body@.len() == 0,
            r.skinparams@.len() == 0,
            r.direction == LayoutDirection::TopToBottom,
    {
        ActivityDiagram {
            name: None,
            title: None,
            body: Vec::new(),
            skinparams: Vec::new(),
            direction: LayoutDirection::default(),
        }
    }
}

#[derive(Debug)]
pub enum ActivityStmt {
    /// `:label;`, a plain action; `label` is already split on `\n`.
    Action {
        label: Vec<String>,
        kind: ActionKind,
        color: Option<String>,
        url: Option<String>,
        notes: Vec<NoteAttach>,
        /// Label on the incoming edge (`-> foo;` right before the action).
        edge_label: Option<String>,
        line: usize,
    },
    Start { line: usize },
    Stop { line: usize },
    /// `end`, distinct from `stop`.
    End { line: usize },
    /// `detach` / `kill`.
    Detach { line: usize },
    /// `break`: early loop exit.
    Break { line: usize },
    /// `label NAME`: a jump target.
    GotoLabel { name: String, line: usize },
    /// `goto NAME`: unconditional jump.
    Goto { name: String, line: usize },
    If {
        cond: String,
        then_label: Option<String>,
        then_branch: Vec<ActivityStmt>,
        elseifs: Vec<ElseIfBranch>,
        else_label: Option<String>,
        else_branch: Option<Vec<ActivityStmt>>,
        line: usize,
    },
    /// `repeat … repeat while (cond) [is (yes) not (no)]`.
    Repeat {
        body: Vec<ActivityStmt>,
        /// `backward :label;` block on the back edge.
        backward: Option<Vec<ActivityStmt>>,
        /// `None` for an unconditional `repeat`.
        cond: Option<String>,
        is_label: Option<String>,
        not_label: Option<String>,
        line: usize,
    },
    /// `while (cond) [is (yes)] … endwhile [(no)]`.
    While {
        cond: String,
        is_label: Option<String>,
        not_label: Option<String>,
        body: Vec<ActivityStmt>,
        line: usize,
    },
    /// `fork … fork again … end fork [merge|no merge]`.
    Fork { branches: Vec<Vec<ActivityStmt>>, merge: bool, line: usize },
    /// `split … split again … end split`.
    Split { branches: Vec<Vec<ActivityStmt>>, merge: bool, line: usize },
    Switch { cond: String, cases: Vec<SwitchCase>, line: usize },
    /// `partition Name [#color] { … }` (also `package`, `rectangle`,
    /// `card`, `group`).
    Partition {
        kind: PartitionKind,
        label: String,
        color: Option<String>,
        body: Vec<ActivityStmt>,
        line: usize,
    },
    /// `|Lane|` / `|#color| Lane |`: switch the active swimlane.
    SwimlaneSwitch { label: String, color: Option<String>, line: usize },
}

/// Shape selector for `:label;` actions.
#[derive(Copy, Clone, Debug, PartialEq, Eq, Structural)]
pub enum ActionKind {
    Rectangle,
    Input,
    Output,
    SendSignal,
    ReceiveSignal,
    Procedure,
    Load,
    Save,
    Continuous,
    Task,
    Object,
    ObjectSignal,
    Trigger,
    AcceptEvent,
    TimeEvent,
}

impl Default for ActionKind {
    fn default() -> (r: Self)
        ensures
            r == ActionKind::Rectangle,
    {
        ActionKind::Rectangle
    }
}

/// The shape a normalized stereotype keyword selects.
pub open spec fn action_kind_for(n: Seq<char>) -> ActionKind {
    if n == "input"@ {
        ActionKind::Input
    } else if n == "output"@ {
        ActionKind::Output
    } else if n == "sendsignal"@ || n == "send-signal"@ {
        ActionKind::SendSignal
    } else if n == "receivesignal"@ || n == "acceptevent"@ || n == "accept-event"@ {
        ActionKind::ReceiveSignal
    } else if n == "procedure"@ {
        ActionKind::Procedure
    } else if n == "load"@ {
        ActionKind::Load
    } else if n == "save"@ {
        ActionKind::Save
    } else if n == "continuous"@ {
        ActionKind::Continuous
    } else if n == "task"@ {
        ActionKind::Task
    } else if n == "object"@ {
        ActionKind::Object
    } else if n == "objectsignal"@ || n == "object-signal"@ {
        ActionKind::ObjectSignal
    } else if n == "trigger"@ {
        ActionKind::Trigger
    } else if n == "timeevent"@ || n == "time-event"@ {
        ActionKind::TimeEvent
    } else {
        ActionKind::Rectangle
    }
}

impl ActionKind {
    /// Map a stereotype keyword (case-insensitive, surrounding white space
    /// ignored) to its shape; `Rectangle` for an unknown keyword.
    pub fn from_stereotype(s: &str) -> (r: Self)
        ensures
            r == action_kind_for(ascii_lower(trimmed(s@))),
    {
        let n = normalize_keyword(s);
        if chars_eq(&n, "input") {
            ActionKind::Input
        } else if chars_eq(&n, "output") {
            ActionKind::Output
        } else if chars_eq(&n, "sendsignal") || chars_eq(&n, "send-signal") {
            ActionKind::SendSignal
        } else if chars_eq(&n, "receivesignal") || chars_eq(&n, "acceptevent") || chars_eq(
            &n,
            "accept-event",
        ) {
            ActionKind::ReceiveSignal
        } else if chars_eq(&n, "procedure") {
            ActionKind::Procedure
        } else if chars_eq(&n, "load") {
            ActionKind::Load
        } else if chars_eq(&n, "save") {
            ActionKind::Save
        } else if chars_eq(&n, "continuous") {
            ActionKind::Continuous
        } else if chars_eq(&n, "task") {
            ActionKind::Task
        } else if chars_eq(&n, "object") {
            ActionKind::Object
        } else if chars_eq(&n, "objectsignal") || chars_eq(&n, "object-signal") {
            ActionKind::ObjectSignal
        } else if chars_eq(&n, "trigger") {
            ActionKind::Trigger
        } else if chars_eq(&n, "timeevent") || chars_eq(&n, "time-event") {
            ActionKind::TimeEvent
        } else {
            ActionKind::Rectangle
        }
    }
}

#[derive(Copy, Clone, Debug, PartialEq, Eq, Structural)]
pub enum PartitionKind {
    Partition,
    Package,
    Rectangle,
    Card,
    Group,
}

#[derive(Debug)]
pub struct ElseIfBranch {
    pub cond: String,
    /// `elseif (c) then (label)`: the `(label)` portion.
    pub label: Option<String>,
    pub branch: Vec<ActivityStmt>,
    pub line: usize,
}

#[derive(Debug)]
pub struct SwitchCase {
    /// `case (value)`: the body of the parentheses.
    pub value: String,
    pub branch: Vec<ActivityStmt>,
    pub line: usize,
}

/// Note attached to the previous action of a statement list, left or
/// right of it.
#[derive(Clone, Debug)]
pub struct NoteAttach {
    pub position: NotePosition,
    pub text: Vec<String>,
    pub line: usize,
}

} // verus!
