use typstuml::ir::activity::{ActionKind, ActivityDiagram};
use typstuml::ir::common::LayoutDirection;
use typstuml::ir::cuca::{
    ClassFamilyKind, Container, CucaDiagram, EntityKindData, Member, USymbol, Visibility,
};
use typstuml::ir::flowchart::FlowchartDiagram;
use typstuml::ir::state::{StateDiagram, StateKind};
use typstuml::ir::tree::MapDirection;

#[test]
fn pseudo_states() {
    assert!(!StateKind::Simple.is_pseudo());
    assert!(!StateKind::Composite.is_pseudo());
    for k in [
        StateKind::Initial,
        StateKind::Final,
        StateKind::Choice,
        StateKind::Fork,
        StateKind::Join,
        StateKind::History,
        StateKind::DeepHistory,
        StateKind::SynchroBar,
        StateKind::EntryPoint,
        StateKind::ExitPoint,
    ] {
        assert!(k.is_pseudo());
    }
}

#[test]
fn state_keywords() {
    assert_eq!(StateKind::Simple.keyword(), "simple");
    assert_eq!(StateKind::DeepHistory.keyword(), "deep-history");
    assert_eq!(StateKind::SynchroBar.keyword(), "synchro-bar");
    assert_eq!(StateKind::EntryPoint.keyword(), "entry-point");
    assert_eq!(StateKind::ExitPoint.keyword(), "exit-point");
}

#[test]
fn state_stereotypes_ignore_case_and_surrounding_space() {
    assert_eq!(StateKind::from_stereotype("choice"), Some(StateKind::Choice));
    assert_eq!(StateKind::from_stereotype("  ChOiCe \t"), Some(StateKind::Choice));
    assert_eq!(StateKind::from_stereotype("start"), Some(StateKind::Initial));
    assert_eq!(StateKind::from_stereotype("END"), Some(StateKind::Final));
    assert_eq!(StateKind::from_stereotype("History*"), Some(StateKind::DeepHistory));
    assert_eq!(StateKind::from_stereotype("entryPoint"), Some(StateKind::EntryPoint));
    assert_eq!(StateKind::from_stereotype("exitpoint\n"), Some(StateKind::ExitPoint));
    assert_eq!(StateKind::from_stereotype("fork"), Some(StateKind::Fork));
    assert_eq!(StateKind::from_stereotype("join"), Some(StateKind::Join));
    assert_eq!(StateKind::from_stereotype("history"), Some(StateKind::History));
    assert_eq!(StateKind::from_stereotype("entity"), None);
    assert_eq!(StateKind::from_stereotype("cho ice"), None);
    assert_eq!(StateKind::from_stereotype(""), None);
}

#[test]
fn action_stereotypes() {
    assert_eq!(ActionKind::from_stereotype("input"), ActionKind::Input);
    assert_eq!(ActionKind::from_stereotype(" Output "), ActionKind::Output);
    assert_eq!(ActionKind::from_stereotype("send-signal"), ActionKind::SendSignal);
    assert_eq!(ActionKind::from_stereotype("SendSignal"), ActionKind::SendSignal);
    assert_eq!(ActionKind::from_stereotype("acceptEvent"), ActionKind::ReceiveSignal);
    assert_eq!(ActionKind::from_stereotype("accept-event"), ActionKind::ReceiveSignal);
    assert_eq!(ActionKind::from_stereotype("receivesignal"), ActionKind::ReceiveSignal);
    assert_eq!(ActionKind::from_stereotype("object-signal"), ActionKind::ObjectSignal);
    assert_eq!(ActionKind::from_stereotype("time-event"), ActionKind::TimeEvent);
    assert_eq!(ActionKind::from_stereotype("procedure"), ActionKind::Procedure);
    assert_eq!(ActionKind::from_stereotype("load"), ActionKind::Load);
    assert_eq!(ActionKind::from_stereotype("save"), ActionKind::Save);
    assert_eq!(ActionKind::from_stereotype("continuous"), ActionKind::Continuous);
    assert_eq!(ActionKind::from_stereotype("task"), ActionKind::Task);
    assert_eq!(ActionKind::from_stereotype("object"), ActionKind::Object);
    assert_eq!(ActionKind::from_stereotype("trigger"), ActionKind::Trigger);
    assert_eq!(ActionKind::from_stereotype("whatever"), ActionKind::Rectangle);
    assert_eq!(ActionKind::default(), ActionKind::Rectangle);
}

#[test]
fn class_family_keywords_and_markers() {
    assert_eq!(ClassFamilyKind::Class.keyword(), "class");
    assert_eq!(ClassFamilyKind::EntityShape.keyword(), "entity");
    assert_eq!(ClassFamilyKind::Class.marker_letter(), Some('C'));
    assert_eq!(ClassFamilyKind::Struct.marker_letter(), Some('C'));
    assert_eq!(ClassFamilyKind::Exception.marker_letter(), Some('C'));
    assert_eq!(ClassFamilyKind::Interface.marker_letter(), Some('I'));
    assert_eq!(ClassFamilyKind::Protocol.marker_letter(), Some('I'));
    assert_eq!(ClassFamilyKind::Abstract.marker_letter(), Some('A'));
    assert_eq!(ClassFamilyKind::Enum.marker_letter(), Some('E'));
    assert_eq!(ClassFamilyKind::Annotation.marker_letter(), Some('@'));
    assert_eq!(ClassFamilyKind::EntityShape.marker_letter(), Some('E'));
}

#[test]
fn usymbol_keywords() {
    assert_eq!(USymbol::NoSymbol.keyword(), "none");
    assert_eq!(USymbol::ComponentRectangle.keyword(), "component-rect");
    assert_eq!(USymbol::UseCase.keyword(), "usecase");
    assert_eq!(USymbol::EntityDomain.keyword(), "entity-domain");
    assert_eq!(USymbol::Diamond.keyword(), "diamond");
}

#[test]
fn visibility_glyphs_round_trip() {
    for v in [Visibility::Public, Visibility::Private, Visibility::Protected, Visibility::Package] {
        let c = v.glyph().chars().next().unwrap();
        assert_eq!(Visibility::from_char(c), Some(v));
    }
    assert_eq!(Visibility::NoVisibility.glyph(), "");
    assert_eq!(Visibility::from_char('x'), None);
}

fn member(body: &str) -> Member {
    Member {
        visibility: Visibility::Public,
        is_static: false,
        is_abstract: false,
        body: body.to_string(),
        line: 1,
    }
}

#[test]
fn entity_kind_accessors() {
    let c = EntityKindData::Compartment {
        kind: ClassFamilyKind::Class,
        generic: Some("T".to_string()),
        fields: vec![member("x: int")],
        methods: vec![member("f()")],
    };
    assert_eq!(c.fields().len(), 1);
    assert_eq!(c.methods()[0].body, "f()");
    assert_eq!(c.generic(), Some("T"));
    assert_eq!(c.note_body(), None);

    let p = EntityKindData::Plain { members: vec![member("a"), member("b")] };
    assert_eq!(p.fields().len(), 2);
    assert!(p.methods().is_empty());
    assert_eq!(p.generic(), None);

    let n = EntityKindData::Note { body: "hello".to_string() };
    assert!(n.fields().is_empty());
    assert_eq!(n.note_body(), Some("hello"));
}

#[test]
fn label_band() {
    let mut c = Container {
        usymbol: USymbol::Package,
        together: false,
        label: "pkg".to_string(),
        stereotype: None,
        children_entities: Vec::new(),
        children_containers: Vec::new(),
        line: 1,
    };
    assert!(c.has_label_band());
    c.together = true;
    assert!(!c.has_label_band());
    c.together = false;
    c.label.clear();
    assert!(!c.has_label_band());
}

#[test]
fn defaults() {
    assert_eq!(LayoutDirection::default(), LayoutDirection::TopToBottom);
    assert_eq!(MapDirection::default(), MapDirection::LeftToRight);
    let d = CucaDiagram::default();
    assert!(d.entities.is_empty() && !d.hide.circle && !d.hide.members);
    let s = StateDiagram::default();
    assert!(s.nodes.is_empty() && !s.hide_empty_description);
    let a = ActivityDiagram::default();
    assert!(a.body.is_empty());
    let f = FlowchartDiagram::default();
    assert!(f.nodes.is_empty() && !f.reverse_rank);
}

#[test]
fn state_keywords_are_distinct() {
    let kinds = [
        StateKind::Simple,
        StateKind::Composite,
        StateKind::Initial,
        StateKind::Final,
        StateKind::Choice,
        StateKind::Fork,
        StateKind::Join,
        StateKind::History,
        StateKind::DeepHistory,
        StateKind::SynchroBar,
        StateKind::EntryPoint,
        StateKind::ExitPoint,
    ];
    for (i, a) in kinds.iter().enumerate() {
        for b in &kinds[i + 1..] {
            assert_ne!(a.keyword(), b.keyword());
        }
    }
}
