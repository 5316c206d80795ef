//! Cuca diagram IR: the class, component, deployment, use-case and object
//! families in one IR. The shape of each entity is chosen by its
//! [`USymbol`]; class-family extras live in
//! [`EntityKindData::Compartment`].

use vstd::prelude::*;
use crate::ir::common::{Direction, LayoutDirection, LineStyle, Skinparam};

verus! {

#[derive(Clone, Debug)]
pub struct CucaDiagram {
    pub name: Option<String>,
    pub title: Option<String>,
    pub entities: Vec<Entity>,
    pub relations: Vec<Relation>,
    pub containers: Vec<Container>,
    pub skinparams: Vec<Skinparam>,
    pub hide: HideOptions,
    pub direction: LayoutDirection,
}

impl Default for CucaDiagram {
    fn default() -> (r: Self)
        ensures
            r.name is None,
            r.title is None,
            r.entities@.len() == 0,
            r.relations@.len() == 0,
            r.containers@.len() == 0,
            r.skinparams@.len() == 0,
            r.hide == HideOptions::spec_default(),
            r.direction == LayoutDirection::TopToBottom,
    {
        CucaDiagram {
            name: None,
            title: None,
            entities: Vec::new(),
            relations: Vec::new(),
            containers: Vec::new(),
            skinparams: Vec::new(),
            hide: HideOptions::default(),
            direction: LayoutDirection::default(),
        }
    }
}

/// `hide …` / `show …` global filters.
#[derive(Copy, Clone, Debug, PartialEq, Eq, Structural)]
pub struct HideOptions {
    /// `hide circle`: no marker chip on any entity.
    pub circle: bool,
    /// `hide stereotype`: no `<<…>>` line above the name.
    pub stereotype: bool,
    /// `hide members`: neither fields nor methods.
    pub members: bool,
    /// `hide methods`: no methods compartment.
    pub methods: bool,
    /// `hide fields` / `hide attributes`: no fields compartment.
    pub fields: bool,
}

impl HideOptions {
    /// Nothing hidden.
    pub open spec fn spec_default() -> HideOptions {
        HideOptions { circle: false, stereotype: false, members: false, methods: false, fields: false }
    }
}

impl Default for HideOptions {
    fn default() -> (r: Self)
        ensures
            r == HideOptions::spec_default(),
    {
        HideOptions { circle: false, stereotype: false, members: false, methods: false, fields: false }
    }
}

#[derive(Clone, Debug)]
pub struct Entity {
    /// Visual shape selector; `USymbol::NoSymbol` is the class-family
    /// compartment box.
    pub usymbol: USymbol,
    /// Canonical id used by relations: the alias of `class A as Foo`,
    /// else `display`.
    pub id: String,
    pub display: String,
    /// `<<...>>` text without the angle brackets and without the custom
    /// marker prefix.
    pub stereotype: Option<String>,
    /// Custom marker `(letter, color)` from `<<(L, #color) text>>`.
    pub stereotype_marker: Option<StereotypeMarker>,
    /// Raw color spec (`#LightBlue`, `#ABC`).
    pub fill: Option<String>,
    pub line: usize,
    /// Shape-specific extras.
    pub kind_data: EntityKindData,
}

/// Custom stereotype marker, overriding the default kind-letter chip.
#[derive(Clone, Debug)]
pub struct StereotypeMarker {
    pub letter: String,
    pub color: Option<String>,
}

/// Shape-specific data carried by an [`Entity`], fixed at declaration.
#[derive(Clone, Debug)]
pub enum EntityKindData {
    /// Class-family node, painted as a compartment box.
    Compartment { kind: ClassFamilyKind, generic: Option<String>, fields: Vec<Member>, methods: Vec<Member> },
    /// Free-text sticky note.
    Note { body: String },
    /// Object entity: `name = value` rows.
    Object { fields: Vec<ObjectField> },
    /// Description-family shape with optional inline members.
    Plain { members: Vec<Member> },
}

/// The field rows of an entity: the fields of a compartment, the members
/// of a plain shape, none otherwise.
pub open spec fn field_rows(d: EntityKindData) -> Seq<Member> {
    match d {
        EntityKindData::Compartment { fields, .. } => fields@,
        EntityKindData::Plain { members } => members@,
        _ => Seq::empty(),
    }
}

impl EntityKindData {
    /// The field rows of entities that have them, empty otherwise.
    pub fn fields(&self) -> (r: &[Member])
        ensures
            r@ == field_rows(*self),
    {
        match self {
            EntityKindData::Compartment { fields, .. } => fields.as_slice(),
            EntityKindData::Plain { members } => members.as_slice(),
            _ => &[],
        }
    }

    /// The method rows of a compartment, empty otherwise.
    pub fn methods(&self) -> (r: &[Member])
        ensures
            self matches EntityKindData::Compartment { methods, .. } ==> r@ == methods@,
            !(self is Compartment) ==> r@.len() == 0,
    {
        match self {
            EntityKindData::Compartment { methods, .. } => methods.as_slice(),
            _ => &[],
        }
    }

    /// The generic parameter list (`<T, U>`) of a compartment.
    pub fn generic(&self) -> (r: Option<&str>)
        ensures
            self matches EntityKindData::Compartment { generic, .. } ==> (r is Some <==> generic is Some)
                && (r is Some ==> r->0@ == generic->0@),
            !(self is Compartment) ==> r is None,
    {
        match self {
            EntityKindData::Compartment { generic, .. } => match generic {
                Some(g) => Some(g.as_str()),
                None => None,
            },
            _ => None,
        }
    }

    /// The body of a note.
    pub fn note_body(&self) -> (r: Option<&str>)
        ensures
            self matches EntityKindData::Note { body } ==> r is Some && r->0@ == body@,
            !(self is Note) ==> r is None,
    {
        match self {
            EntityKindData::Note { body } => Some(body.as_str()),
            _ => None,
        }
    }
}

/// Class-family sub-shape: picks the marker glyph and the stroke style.
#[derive(Copy, Clone, Debug, PartialEq, Eq, Structural)]
pub enum ClassFamilyKind {
    Class,
    Interface,
    Abstract,
    Enum,
    Annotation,
    Struct,
    Exception,
    Protocol,
    /// `entity` keyword in class flavor (ER-style entity).
    EntityShape,
}

/// The declaration keyword of each class-family kind.
pub open spec fn class_keyword(k: ClassFamilyKind) -> Seq<char> {
    match k {
        ClassFamilyKind::Class => "class"@,
        ClassFamilyKind::Interface => "interface"@,
        ClassFamilyKind::Abstract => "abstract"@,
        ClassFamilyKind::Enum => "enum"@,
        ClassFamilyKind::Annotation => "annotation"@,
        ClassFamilyKind::Struct => "struct"@,
        ClassFamilyKind::Exception => "exception"@,
        ClassFamilyKind::Protocol => "protocol"@,
        ClassFamilyKind::EntityShape => "entity"@,
    }
}

/// The letter in the marker circle of each class-family kind.
pub open spec fn marker_of(k: ClassFamilyKind) -> char {
    match k {
        ClassFamilyKind::Class | ClassFamilyKind::Struct | ClassFamilyKind::Exception => 'C',
        ClassFamilyKind::Interface | ClassFamilyKind::Protocol => 'I',
        ClassFamilyKind::Abstract => 'A',
        ClassFamilyKind::Enum => 'E',
        ClassFamilyKind::Annotation => '@',
        ClassFamilyKind::EntityShape => 'E',
    }
}

impl ClassFamilyKind {
    /// The declaration keyword.
    pub fn keyword(self) -> (r: &'static str)
        ensures
            r@ == class_keyword(self),
    {
        match self {
            ClassFamilyKind::Class => "class",
            ClassFamilyKind::Interface => "interface",
            ClassFamilyKind::Abstract => "abstract",
            ClassFamilyKind::Enum => "enum",
            ClassFamilyKind::Annotation => "annotation",
            ClassFamilyKind::Struct => "struct",
            ClassFamilyKind::Exception => "exception",
            ClassFamilyKind::Protocol => "protocol",
            ClassFamilyKind::EntityShape => "entity",
        }
    }

    /// Single-letter glyph for the stereotype circle (`C`, `I`, `A`,
    /// `E`, `@`); every kind has one.
    pub fn marker_letter(self) -> (r: Option<char>)
        ensures
            r == Some(marker_of(self)),
    {
        Some(
            match self {
                ClassFamilyKind::Class | ClassFamilyKind::Struct | ClassFamilyKind::Exception => 'C',
                ClassFamilyKind::Interface | ClassFamilyKind::Protocol => 'I',
                ClassFamilyKind::Abstract => 'A',
                ClassFamilyKind::Enum => 'E',
                ClassFamilyKind::Annotation => '@',
                ClassFamilyKind::EntityShape => 'E',
            },
        )
    }
}

/// Object-field row (`name = value`).
#[derive(Clone, Debug)]
pub struct ObjectField {
    pub name: String,
    pub value: String,
    pub line: usize,
}

/// Visual shape registry shared by entities and containers.
#[derive(Copy, Clone, Debug, PartialEq, Eq, Structural)]
pub enum USymbol {
    /// No symbol: the class-family compartment box.
    NoSymbol,
    Component,
    ComponentUml1,
    ComponentRectangle,
    /// Lollipop interface.
    Interface,
    Port,
    PortIn,
    PortOut,
    Node,
    Database,
    Cloud,
    Queue,
    Stack,
    Storage,
    Artifact,
    Actor,
    ActorBusiness,
    ActorAwesome,
    ActorHollow,
    UseCase,
    UseCaseBusiness,
    Package,
    Rectangle,
    Card,
    Folder,
    Frame,
    File,
    Hexagon,
    Agent,
    Person,
    Collections,
    Action,
    Process,
    Label,
    Boundary,
    Control,
    EntityDomain,
    Note,
    Diamond,
}

/// The painter keyword of each shape.
pub open spec fn usymbol_keyword(u: USymbol) -> Seq<char> {
    match u {
        USymbol::NoSymbol => "none"@,
        USymbol::Component => "component"@,
        USymbol::ComponentUml1 => "component-uml1"@,
        USymbol::ComponentRectangle => "component-rect"@,
        USymbol::Interface => "interface"@,
        USymbol::Port => "port"@,
        USymbol::PortIn => "port-in"@,
        USymbol::PortOut => "port-out"@,
        USymbol::Node => "node"@,
        USymbol::Database => "database"@,
        USymbol::Cloud => "cloud"@,
        USymbol::Queue => "queue"@,
        USymbol::Stack => "stack"@,
        USymbol::Storage => "storage"@,
        USymbol::Artifact => "artifact"@,
        USymbol::Actor => "actor"@,
        USymbol::ActorBusiness => "actor-business"@,
        USymbol::ActorAwesome => "actor-awesome"@,
        USymbol::ActorHollow => "actor-hollow"@,
        USymbol::UseCase => "usecase"@,
        USymbol::UseCaseBusiness => "usecase-business"@,
        USymbol::Package => "package"@,
        USymbol::Rectangle => "rectangle"@,
        USymbol::Card => "card"@,
        USymbol::Folder => "folder"@,
        USymbol::Frame => "frame"@,
        USymbol::File => "file"@,
        USymbol::Hexagon => "hexagon"@,
        USymbol::Agent => "agent"@,
        USymbol::Person => "person"@,
        USymbol::Collections => "collections"@,
        USymbol::Action => "action"@,
        USymbol::Process => "process"@,
        USymbol::Label => "label"@,
        USymbol::Boundary => "boundary"@,
        USymbol::Control => "control"@,
        USymbol::EntityDomain => "entity-domain"@,
        USymbol::Note => "note"@,
        USymbol::Diamond => "diamond"@,
    }
}

impl USymbol {
    /// Keyword written into the painter's `usymbol:` slot.
    pub fn keyword(self) -> (r: &'static str)
        ensures
            r@ == usymbol_keyword(self),
    {
        match self {
            USymbol::NoSymbol => "none",
            USymbol::Component => "component",
            USymbol::ComponentUml1 => "component-uml1",
            USymbol::ComponentRectangle => "component-rect",
            USymbol::Interface => "interface",
            USymbol::Port => "port",
            USymbol::PortIn => "port-in",
            USymbol::PortOut => "port-out",
            USymbol::Node => "node",
            USymbol::Database => "database",
            USymbol::Cloud => "cloud",
            USymbol::Queue => "queue",
            USymbol::Stack => "stack",
            USymbol::Storage => "storage",
            USymbol::Artifact => "artifact",
            USymbol::Actor => "actor",
            USymbol::ActorBusiness => "actor-business",
            USymbol::ActorAwesome => "actor-awesome",
            USymbol::ActorHollow => "actor-hollow",
            USymbol::UseCase => "usecase",
            USymbol::UseCaseBusiness => "usecase-business",
            USymbol::Package => "package",
            USymbol::Rectangle => "rectangle",
            USymbol::Card => "card",
            USymbol::Folder => "folder",
            USymbol::Frame => "frame",
            USymbol::File => "file",
            USymbol::Hexagon => "hexagon",
            USymbol::Agent => "agent",
            USymbol::Person => "person",
            USymbol::Collections => "collections",
            USymbol::Action => "action",
            USymbol::Process => "process",
            USymbol::Label => "label",
            USymbol::Boundary => "boundary",
            USymbol::Control => "control",
            USymbol::EntityDomain => "entity-domain",
            USymbol::Note => "note",
            USymbol::Diamond => "diamond",
        }
    }
}

#[derive(Clone, Debug)]
pub struct Member {
    pub visibility: Visibility,
    pub is_static: bool,
    pub is_abstract: bool,
    /// Body after the visibility character and any `{static}` /
    /// `{abstract}` modifier, such as `getName(): String`.
    pub body: String,
    pub line: usize,
}

#[derive(Copy, Clone, Debug, PartialEq, Eq, Structural)]
pub enum Visibility {
    Public,
    Private,
    Protected,
    Package,
    /// No visibility mark.
    NoVisibility,
}

/// The prefix glyph of each visibility.
pub open spec fn visibility_glyph(v: Visibility) -> Seq<char> {
    match v {
        Visibility::Public => "+"@,
        Visibility::Private => "-"@,
        Visibility::Protected => "#"@,
        Visibility::Package => "~"@,
        Visibility::NoVisibility => ""@,
    }
}

/// The visibility a leading character announces.
pub open spec fn visibility_of_char(c: char) -> Option<Visibility> {
    if c == '+' {
        Some(Visibility::Public)
    } else if c == '-' {
        Some(Visibility::Private)
    } else if c == '#' {
        Some(Visibility::Protected)
    } else if c == '~' {
        Some(Visibility::Package)
    } else {
        None
    }
}

impl Visibility {
    /// Single-glyph prefix used by codegen.
    pub fn glyph(self) -> (r: &'static str)
        ensures
            r@ == visibility_glyph(self),
    {
        match self {
            Visibility::Public => "+",
            Visibility::Private => "-",
            Visibility::Protected => "#",
            Visibility::Package => "~",
            Visibility::NoVisibility => "",
        }
    }

    /// The visibility a member's leading character announces.
    pub fn from_char(c: char) -> (r: Option<Self>)
        ensures
            r == visibility_of_char(c),
    {
        match c {
            '+' => Some(Visibility::Public),
            '-' => Some(Visibility::Private),
            '#' => Some(Visibility::Protected),
            '~' => Some(Visibility::Package),
            _ => None,
        }
    }
}

#[derive(Clone, Debug)]
pub struct Relation {
    pub from: String,
    pub to: String,
    /// Couple-link (association class) syntax: `from_couple = Some((A, B))`
    /// and `from` empty; the edge starts at the midpoint of the link
    /// between A and B.
    pub from_couple: Option<(String, String)>,
    /// `A::field` port: the edge anchors at the named member row.
    pub from_port: Option<String>,
    pub to_port: Option<String>,
    /// Decoration on the `from` side of the link.
    pub head_from: ArrowHead,
    /// Decoration on the `to` side.
    pub head_to: ArrowHead,
    pub line_style: LineStyle,
    /// User-supplied direction hint (`-up->`, `-left->`).
    pub direction: Option<Direction>,
    pub label: Option<String>,
    pub mult_from: Option<String>,
    pub mult_to: Option<String>,
    pub role_from: Option<String>,
    pub role_to: Option<String>,
    pub stereotype: Option<String>,
    pub color: Option<String>,
    /// Body of a `note on link` attached to this relation.
    pub note: Option<String>,
    pub line: usize,
}

#[derive(Copy, Clone, Debug, PartialEq, Eq, Structural)]
pub enum ArrowHead {
    /// No decoration.
    NoHead,
    /// `<|` / `|>`: generalization.
    TriangleOpen,
    /// `<` / `>`: directed association.
    ArrowOpen,
    /// `o`: aggregation.
    DiamondOpen,
    /// `*`: composition.
    DiamondFilled,
    /// `x`: non-navigable.
    Cross,
    /// `+`: private internal.
    Plus,
    /// `(0` / `0)` / `(0)`: middle circle.
    CircleConnect,
    /// `(`: provides-interface socket.
    SocketOpen,
    /// `)`: consumes-interface socket.
    SocketClosed,
}

/// A `package { }`, `namespace { }`, `together { }`, `folder { }`,
/// `frame { }`, `node { }` or `cloud { }` block, or another
/// description-family container.
#[derive(Clone, Debug)]
pub struct Container {
    /// Shape, shared with entities.
    pub usymbol: USymbol,
    /// A `together { … }` group: anonymous and borderless.
    pub together: bool,
    pub label: String,
    pub stereotype: Option<String>,
    pub children_entities: Vec<String>,
    pub children_containers: Vec<usize>,
    pub line: usize,
}

impl Container {
    /// Whether this container draws a label band that needs measuring:
    /// every container but `together` with a non-empty label.
    pub fn has_label_band(&self) -> (r: bool)
        ensures
            r == (!self.together && self.label@.len() > 0),
    {
        !self.together && !self.label.as_str().is_empty()
    }
}

} // verus!
