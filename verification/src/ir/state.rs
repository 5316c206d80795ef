//! State diagram IR: a flat node table, a transition list and side
//! tables for nesting (`StateNode.parent` / `.children`) and concurrent
//! regions ([`RegionGroup`]).

use vstd::prelude::*;
use crate::ir::common::{Direction, LayoutDirection, LineStyle, NotePosition, Skinparam};
use crate::text::{ascii_lower, chars_eq, normalize_keyword, trimmed};

verus! {

#[derive(Clone, Debug)]
pub struct StateDiagram {
    pub name: Option<String>,
    pub title: Option<String>,
    /// All states in declaration order: simple states, composite shells
    /// and pseudostates. Nesting is expressed by `StateNode.parent`.
    pub nodes: Vec<StateNode>,
    pub transitions: Vec<Transition>,
    /// Concurrent partitions inside composite states, one entry per
    /// composite that has a `--` / `||` divider.
    pub regions: Vec<RegionGroup>,
    pub notes: Vec<StateNote>,
    pub skinparams: Vec<Skinparam>,
    pub hide_empty_description: bool,
    pub direction: LayoutDirection,
}

impl Default for StateDiagram {
    fn default() -> (r: Self)
        ensures
            r.name is None,
            r.title is None,
            r.nodes@.len() == 0,
            r.transitions@.len() == 0,
            r.regions@.len() == 0,
            r.notes@.len() == 0,
            r.skinparams@.len() == 0,
            !r.hide_empty_description,
            r.direction == LayoutDirection::TopToBottom,
    {
        StateDiagram {
            name: None,
            title: None,
            nodes: Vec::new(),
            transitions: Vec::new(),
            regions: Vec::new(),
            notes: Vec::new(),
            skinparams: Vec::new(),
            hide_empty_description: false,
            direction: LayoutDirection::default(),
        }
    }
}

#[derive(Clone, Debug)]
pub struct StateNode {
    /// Canonical id used by transitions: the alias of `state "X" as Foo`,
    /// else the display text.
    pub id: String,
    pub display: String,
    pub kind: StateKind,
    /// `entry / exit / do` body rows, in declaration order, trimmed.
    pub body: Vec<String>,
    /// Raw color spec (`#LightBlue`, `#ABC`).
    pub fill: Option<String>,
    pub border_style: Option<BorderStyle>,
    /// Raw border color spec from `##[style]color` / `##color`.
    pub border_color: Option<String>,
    pub stereotype: Option<String>,
    /// Child node ids; non-empty only for composites.
    pub children: Vec<String>,
    /// Parent composite id; `None` for top-level nodes.
    pub parent: Option<String>,
    pub line: usize,
}

#[derive(Copy, Clone, Debug, PartialEq, Eq, Structural)]
pub enum StateKind {
    /// Simple state: rounded rectangle, optional `entry/exit/do` body.
    Simple,
    /// Composite state: rounded outer frame around a nested subgraph.
    Composite,
    /// `[*]` on the left of an arrow, or `<<start>>`.
    Initial,
    /// `[*]` on the right of an arrow, or `<<end>>`.
    Final,
    /// `<<choice>>`: diamond.
    Choice,
    /// `<<fork>>`: solid bar.
    Fork,
    /// `<<join>>`: solid bar, kept distinct from `Fork`.
    Join,
    /// `[H]` / `<<history>>`.
    History,
    /// `[H*]` / `<<history*>>`.
    DeepHistory,
    /// `==Name==`: short thick bar synchronizing concurrent regions.
    SynchroBar,
    /// `<<entryPoint>>`: hollow circle on a composite's border.
    EntryPoint,
    /// `<<exitPoint>>`: hollow circle with an X on a composite's border.
    ExitPoint,
}

/// The painter keyword of each state kind.
pub open spec fn state_keyword(k: StateKind) -> Seq<char> {
    match k {
        StateKind::Simple => "simple"@,
        StateKind::Composite => "composite"@,
        StateKind::Initial => "initial"@,
        StateKind::Final => "final"@,
        StateKind::Choice => "choice"@,
        StateKind::Fork => "fork"@,
        StateKind::Join => "join"@,
        StateKind::History => "history"@,
        StateKind::DeepHistory => "deep-history"@,
        StateKind::SynchroBar => "synchro-bar"@,
        StateKind::EntryPoint => "entry-point"@,
        StateKind::ExitPoint => "exit-point"@,
    }
}

/// Distinct kinds have distinct keywords.
pub proof fn lemma_keywords_distinct(k1: StateKind, k2: StateKind)
    requires
        k1 != k2,
    ensures
        state_keyword(k1) != state_keyword(k2),
{
    reveal_strlit("simple");
    reveal_strlit("composite");
    reveal_strlit("initial");
    reveal_strlit("final");
    reveal_strlit("choice");
    reveal_strlit("fork");
    reveal_strlit("join");
    reveal_strlit("history");
    reveal_strlit("deep-history");
    reveal_strlit("synchro-bar");
    reveal_strlit("entry-point");
    reveal_strlit("exit-point");
    let w1 = state_keyword(k1);
    let w2 = state_keyword(k2);
    assert(w1.len() != w2.len() || w1[0] != w2[0]);
}

/// The pseudostate a normalized stereotype names, if any.
pub open spec fn state_kind_for(n: Seq<char>) -> Option<StateKind> {
    if n == "choice"@ {
        Some(StateKind::Choice)
    } else if n == "fork"@ {
        Some(StateKind::Fork)
    } else if n == "join"@ {
        Some(StateKind::Join)
    } else if n == "start"@ {
        Some(StateKind::Initial)
    } else if n == "end"@ {
        Some(StateKind::Final)
    } else if n == "history"@ {
        Some(StateKind::History)
    } else if n == "history*"@ {
        Some(StateKind::DeepHistory)
    } else if n == "entrypoint"@ {
        Some(StateKind::EntryPoint)
    } else if n == "exitpoint"@ {
        Some(StateKind::ExitPoint)
    } else {
        None
    }
}

impl StateKind {
    /// Whether the node is a pseudostate (fixed-size glyph) rather than a
    /// text-bearing rounded rectangle.
    pub fn is_pseudo(self) -> (r: bool)
        ensures
            r == !(self is Simple || self is Composite),
    {
        !matches!(self, StateKind::Simple | StateKind::Composite)
    }

    /// Keyword written into the painter's `kind:` slot.
    pub fn keyword(self) -> (r: &'static str)
        ensures
            r@ == state_keyword(self),
    {
        match self {
            StateKind::Simple => "simple",
            StateKind::Composite => "composite",
            StateKind::Initial => "initial",
            StateKind::Final => "final",
            StateKind::Choice => "choice",
            StateKind::Fork => "fork",
            StateKind::Join => "join",
            StateKind::History => "history",
            StateKind::DeepHistory => "deep-history",
            StateKind::SynchroBar => "synchro-bar",
            StateKind::EntryPoint => "entry-point",
            StateKind::ExitPoint => "exit-point",
        }
    }

    /// Map a stereotype (case-insensitive, surrounding white space
    /// ignored, angle brackets already stripped) to a pseudostate kind;
    /// `None` for an ordinary stereotype that doesn't pick a shape.
    pub fn from_stereotype(s: &str) -> (r: Option<Self>)
        ensures
            r == state_kind_for(ascii_lower(trimmed(s@))),
    {
        let n = normalize_keyword(s);
        if chars_eq(&n, "choice") {
            Some(StateKind::Choice)
        } else if chars_eq(&n, "fork") {
            Some(StateKind::Fork)
        } else if chars_eq(&n, "join") {
            Some(StateKind::Join)
        } else if chars_eq(&n, "start") {
            Some(StateKind::Initial)
        } else if chars_eq(&n, "end") {
            Some(StateKind::Final)
        } else if chars_eq(&n, "history") {
            Some(StateKind::History)
        } else if chars_eq(&n, "history*") {
            Some(StateKind::DeepHistory)
        } else if chars_eq(&n, "entrypoint") {
            Some(StateKind::EntryPoint)
        } else if chars_eq(&n, "exitpoint") {
            Some(StateKind::ExitPoint)
        } else {
            None
        }
    }
}

#[derive(Clone, Debug)]
pub struct Transition {
    pub from: String,
    pub to: String,
    /// `event [guard] / action`: each of the three parts is optional.
    pub event: Option<String>,
    pub guard: Option<String>,
    pub action: Option<String>,
    pub line_style: LineStyle,
    /// Raw color spec from `-[#color]->`.
    pub color: Option<String>,
    /// User-supplied direction hint (`-up->`, `-l->`).
    pub direction: Option<Direction>,
    /// A single-dash arrow or a left/right hint is a horizontal link:
    /// source and target sit on the same rank.
    pub horizontal: bool,
    /// Minimum rank span: `-->` is 1, `--->` is 2, and so on; 1 for
    /// horizontal links.
    pub min_rank: usize,
    pub line: usize,
}

/// Concurrent partitions inside one composite state: `partitions[i]` is
/// the list of node ids in region `i`, in declaration order.
#[derive(Clone, Debug)]
pub struct RegionGroup {
    pub composite_id: String,
    pub orientation: RegionOrient,
    pub partitions: Vec<Vec<String>>,
}

#[derive(Copy, Clone, Debug, PartialEq, Eq, Structural)]
pub enum RegionOrient {
    /// `--` divider: regions stacked top to bottom.
    Horizontal,
    /// `||` divider: regions side by side.
    Vertical,
}

#[derive(Clone, Debug)]
pub struct StateNote {
    pub anchor: NoteAnchor,
    pub body: String,
    pub line: usize,
}

#[derive(Clone, Debug)]
pub enum NoteAnchor {
    /// `note left of Foo` / `note right of Foo`.
    OfNode { node_id: String, side: NotePosition },
    /// `note on link`, bound to a transition by its index.
    OnLink { transition_idx: usize },
    /// `note "..." as Nx`: a standalone note, with the state ids it was
    /// connected to by `Nx .. State` lines.
    Floating { id: String, links: Vec<String> },
}

#[derive(Copy, Clone, Debug, PartialEq, Eq, Structural)]
pub enum BorderStyle {
    Solid,
    Dashed,
    Bold,
    Dotted,
}

} // verus!
