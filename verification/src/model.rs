//! Typed models of FSBerlin frontmatter: the card types with their
//! type-specialised status fields, agents, and the project configuration.

use vstd::prelude::*;

verus! {

/// The `type:` discriminator carried by every card.
#[derive(Debug, Clone, Copy, PartialEq, Eq, Structural)]
pub enum CardType {
    Card,
    Adr,
    Phase,
    Waypoint,
}

/// Execution lifecycle for work cards (`type: card`).
#[derive(Debug, Clone, Copy, PartialEq, Eq, Structural)]
pub enum BuildingStatus {
    Pending,
    InProgress,
    Review,
    Done,
    Blocked,
    Archived,
}

/// Ratification lifecycle for ADR cards.
#[derive(Debug, Clone, Copy, PartialEq, Eq, Structural)]
pub enum PlanningStatus {
    Proposed,
    InDiscussion,
    Accepted,
    Superseded,
    Withdrawn,
}

/// Human-intent lifecycle for waypoints. "Reached" is derived, never stored.
#[derive(Debug, Clone, Copy, PartialEq, Eq, Structural)]
pub enum WaypointStatus {
    Planned,
    Active,
    Abandoned,
}

/// Priority, shared across card types.
#[derive(Debug, Clone, Copy, PartialEq, Eq, Structural)]
pub enum Priority {
    Low,
    Medium,
    High,
    Critical,
}

/// The frontmatter spelling of a card type.
pub open spec fn card_type_name(t: CardType) -> Seq<char> {
    match t {
        CardType::Card => "card"@,
        CardType::Adr => "adr"@,
        CardType::Phase => "phase"@,
        CardType::Waypoint => "waypoint"@,
    }
}

/// The frontmatter spelling (kebab-case) of a building status.
pub open spec fn building_status_name(s: BuildingStatus) -> Seq<char> {
    match s {
        BuildingStatus::Pending => "pending"@,
        BuildingStatus::InProgress => "in-progress"@,
        BuildingStatus::Review => "review"@,
        BuildingStatus::Done => "done"@,
        BuildingStatus::Blocked => "blocked"@,
        BuildingStatus::Archived => "archived"@,
    }
}

/// The frontmatter spelling (kebab-case) of a planning status.
pub open spec fn planning_status_name(s: PlanningStatus) -> Seq<char> {
    match s {
        PlanningStatus::Proposed => "proposed"@,
        PlanningStatus::InDiscussion => "in-discussion"@,
        PlanningStatus::Accepted => "accepted"@,
        PlanningStatus::Superseded => "superseded"@,
        PlanningStatus::Withdrawn => "withdrawn"@,
    }
}

/// The frontmatter spelling of a waypoint status.
pub open spec fn waypoint_status_name(s: WaypointStatus) -> Seq<char> {
    match s {
        WaypointStatus::Planned => "planned"@,
        WaypointStatus::Active => "active"@,
        WaypointStatus::Abandoned => "abandoned"@,
    }
}

/// The frontmatter spelling of a priority.
pub open spec fn priority_name(p: Priority) -> Seq<char> {
    match p {
        Priority::Low => "low"@,
        Priority::Medium => "medium"@,
        Priority::High => "high"@,
        Priority::Critical => "critical"@,
    }
}

impl CardType {
    /// The lowercase string form used in frontmatter and the index.
    pub fn as_str(self) -> (s: &'static str)
        ensures
            s@ == card_type_name(self),
    {
        match self {
            CardType::Card => "card",
            CardType::Adr => "adr",
            CardType::Phase => "phase",
            CardType::Waypoint => "waypoint",
        }
    }
}

impl BuildingStatus {
    /// The frontmatter string form (kebab-case).
    pub fn as_str(self) -> (s: &'static str)
        ensures
            s@ == building_status_name(self),
    {
        match self {
            BuildingStatus::Pending => "pending",
            BuildingStatus::InProgress => "in-progress",
            BuildingStatus::Review => "review",
            BuildingStatus::Done => "done",
            BuildingStatus::Blocked => "blocked",
            BuildingStatus::Archived => "archived",
        }
    }
}

impl PlanningStatus {
    /// The frontmatter string form (kebab-case).
    pub fn as_str(self) -> (s: &'static str)
        ensures
            s@ == planning_status_name(self),
    {
        match self {
            PlanningStatus::Proposed => "proposed",
            PlanningStatus::InDiscussion => "in-discussion",
            PlanningStatus::Accepted => "accepted",
            PlanningStatus::Superseded => "superseded",
            PlanningStatus::Withdrawn => "withdrawn",
        }
    }
}

impl WaypointStatus {
    /// The frontmatter string form (lowercase).
    pub fn as_str(self) -> (s: &'static str)
        ensures
            s@ == waypoint_status_name(self),
    {
        match self {
            WaypointStatus::Planned => "planned",
            WaypointStatus::Active => "active",
            WaypointStatus::Abandoned => "abandoned",
        }
    }
}

impl Priority {
    /// The frontmatter string form (lowercase).
    pub fn as_str(self) -> (s: &'static str)
        ensures
            s@ == priority_name(self),
    {
        match self {
            Priority::Low => "low",
            Priority::Medium => "medium",
            Priority::High => "high",
            Priority::Critical => "critical",
        }
    }
}

} // verus!

verus! {

/// A work card (`type: card`): execution lifecycle only.
#[derive(Debug, Clone, PartialEq)]
pub struct WorkCard {
    pub id: String,
    pub title: String,
    pub card_type: CardType,
    pub created: String,
    pub building_status: BuildingStatus,
    pub assignee: Option<String>,
    pub skills: Vec<String>,
    pub priority: Option<Priority>,
    pub depends_on: Vec<String>,
    pub blocks: Vec<String>,
    pub linked: Vec<String>,
    pub waypoints: Vec<String>,
    pub phase: Option<u32>,
    pub updated: Option<String>,
    pub tags: Vec<String>,
}

/// An ADR card (`type: adr`): ratification lifecycle, with clause-granular
/// supersession references such as `adr-002§002`.
#[derive(Debug, Clone, PartialEq)]
pub struct AdrCard {
    pub id: String,
    pub title: String,
    pub card_type: CardType,
    pub created: String,
    pub adr_number: u32,
    pub planning_status: PlanningStatus,
    pub supersedes: Vec<String>,
    pub superseded_by: Vec<String>,
    pub assignee: Option<String>,
    pub skills: Vec<String>,
    pub priority: Option<Priority>,
    pub depends_on: Vec<String>,
    pub blocks: Vec<String>,
    pub linked: Vec<String>,
    pub waypoints: Vec<String>,
    pub phase: Option<u32>,
    pub updated: Option<String>,
    pub tags: Vec<String>,
}

/// A phase card (`type: phase`): a gate over a `criteria` list. The "met"
/// state is derived from the criteria cards, never stored here.
///
/// `estimated_weeks_bits` holds the IEEE-754 bit pattern of the optional
/// `estimated_weeks` number, so the value is kept exactly without the library
/// computing on it.
#[derive(Debug, Clone, PartialEq)]
pub struct PhaseCard {
    pub id: String,
    pub title: String,
    pub card_type: CardType,
    pub created: String,
    pub phase_number: u32,
    pub criteria: Vec<String>,
    pub estimated_weeks_bits: Option<u64>,
    pub assignee: Option<String>,
    pub skills: Vec<String>,
    pub priority: Option<Priority>,
    pub depends_on: Vec<String>,
    pub blocks: Vec<String>,
    pub linked: Vec<String>,
    pub waypoints: Vec<String>,
    pub phase: Option<u32>,
    pub updated: Option<String>,
    pub tags: Vec<String>,
}

/// A waypoint card (`type: waypoint`): a milestone projection. `status` is
/// human intent; whether it is reached is derived from `criteria`.
#[derive(Debug, Clone, PartialEq)]
pub struct WaypointCard {
    pub id: String,
    pub title: String,
    pub card_type: CardType,
    pub created: String,
    pub slug: String,
    pub status: WaypointStatus,
    pub criteria: Vec<String>,
    pub target_date: Option<String>,
    pub reached_date: Option<String>,
    pub description: Option<String>,
    pub assignee: Option<String>,
    pub skills: Vec<String>,
    pub priority: Option<Priority>,
    pub depends_on: Vec<String>,
    pub blocks: Vec<String>,
    pub linked: Vec<String>,
    pub phase: Option<u32>,
    pub updated: Option<String>,
    pub tags: Vec<String>,
}

/// A parsed card of any type.
#[derive(Debug, Clone, PartialEq)]
pub enum Card {
    Work(WorkCard),
    Adr(AdrCard),
    Phase(PhaseCard),
    Waypoint(WaypointCard),
}

impl Card {
    /// The `id` of a card.
    pub open spec fn id_of(self) -> String {
        match self {
            Card::Work(c) => c.id,
            Card::Adr(c) => c.id,
            Card::Phase(c) => c.id,
            Card::Waypoint(c) => c.id,
        }
    }

    /// The `title` of a card.
    pub open spec fn title_of(self) -> String {
        match self {
            Card::Work(c) => c.title,
            Card::Adr(c) => c.title,
            Card::Phase(c) => c.title,
            Card::Waypoint(c) => c.title,
        }
    }

    /// The `type:` of a card.
    pub open spec fn type_of(self) -> CardType {
        match self {
            Card::Work(c) => c.card_type,
            Card::Adr(c) => c.card_type,
            Card::Phase(c) => c.card_type,
            Card::Waypoint(c) => c.card_type,
        }
    }

    /// The `created` date of a card.
    pub open spec fn created_of(self) -> String {
        match self {
            Card::Work(c) => c.created,
            Card::Adr(c) => c.created,
            Card::Phase(c) => c.created,
            Card::Waypoint(c) => c.created,
        }
    }

    /// The `depends_on` slugs of a card.
    pub open spec fn depends_on_of(self) -> Seq<String> {
        match self {
            Card::Work(c) => c.depends_on@,
            Card::Adr(c) => c.depends_on@,
            Card::Phase(c) => c.depends_on@,
            Card::Waypoint(c) => c.depends_on@,
        }
    }

    /// The `blocks` slugs of a card.
    pub open spec fn blocks_of(self) -> Seq<String> {
        match self {
            Card::Work(c) => c.blocks@,
            Card::Adr(c) => c.blocks@,
            Card::Phase(c) => c.blocks@,
            Card::Waypoint(c) => c.blocks@,
        }
    }

    /// The `linked` slugs of a card.
    pub open spec fn linked_of(self) -> Seq<String> {
        match self {
            Card::Work(c) => c.linked@,
            Card::Adr(c) => c.linked@,
            Card::Phase(c) => c.linked@,
            Card::Waypoint(c) => c.linked@,
        }
    }

    /// The `criteria` slugs of a card (empty for work and ADR cards).
    pub open spec fn criteria_of(self) -> Seq<String> {
        match self {
            Card::Phase(c) => c.criteria@,
            Card::Waypoint(c) => c.criteria@,
            _ => Seq::empty(),
        }
    }

    /// The `priority` of a card.
    pub open spec fn priority_of(self) -> Option<Priority> {
        match self {
            Card::Work(c) => c.priority,
            Card::Adr(c) => c.priority,
            Card::Phase(c) => c.priority,
            Card::Waypoint(c) => c.priority,
        }
    }

    /// The `phase` a card belongs to.
    pub open spec fn phase_of(self) -> Option<u32> {
        match self {
            Card::Work(c) => c.phase,
            Card::Adr(c) => c.phase,
            Card::Phase(c) => c.phase,
            Card::Waypoint(c) => c.phase,
        }
    }

    /// The stable ULID `id` of this card.
    pub fn id(&self) -> (r: &String)
        ensures
            *r == self.id_of(),
            self matches Card::Work(c) ==> *r == c.id,
            self matches Card::Adr(c) ==> *r == c.id,
            self matches Card::Phase(c) ==> *r == c.id,
            self matches Card::Waypoint(c) ==> *r == c.id,
    {
        match self {
            Card::Work(c) => &c.id,
            Card::Adr(c) => &c.id,
            Card::Phase(c) => &c.id,
            Card::Waypoint(c) => &c.id,
        }
    }

    /// The human title of this card.
    pub fn title(&self) -> (r: &String)
        ensures
            *r == self.title_of(),
            self matches Card::Work(c) ==> *r == c.title,
            self matches Card::Adr(c) ==> *r == c.title,
            self matches Card::Phase(c) ==> *r == c.title,
            self matches Card::Waypoint(c) ==> *r == c.title,
    {
        match self {
            Card::Work(c) => &c.title,
            Card::Adr(c) => &c.title,
            Card::Phase(c) => &c.title,
            Card::Waypoint(c) => &c.title,
        }
    }

    /// The `type:` of this card.
    pub fn card_type(&self) -> (r: CardType)
        ensures
            r == self.type_of(),
            self matches Card::Work(c) ==> r == c.card_type,
            self matches Card::Adr(c) ==> r == c.card_type,
            self matches Card::Phase(c) ==> r == c.card_type,
            self matches Card::Waypoint(c) ==> r == c.card_type,
    {
        match self {
            Card::Work(c) => c.card_type,
            Card::Adr(c) => c.card_type,
            Card::Phase(c) => c.card_type,
            Card::Waypoint(c) => c.card_type,
        }
    }

    /// Cards this card depends on (slugs).
    pub fn depends_on(&self) -> (r: &[String])
        ensures
            r@ == self.depends_on_of(),
            self matches Card::Work(c) ==> r@ == c.depends_on@,
            self matches Card::Adr(c) ==> r@ == c.depends_on@,
            self matches Card::Phase(c) ==> r@ == c.depends_on@,
            self matches Card::Waypoint(c) ==> r@ == c.depends_on@,
    {
        match self {
            Card::Work(c) => c.depends_on.as_slice(),
            Card::Adr(c) => c.depends_on.as_slice(),
            Card::Phase(c) => c.depends_on.as_slice(),
            Card::Waypoint(c) => c.depends_on.as_slice(),
        }
    }

    /// Cards blocked by this card (slugs).
    pub fn blocks(&self) -> (r: &[String])
        ensures
            r@ == self.blocks_of(),
            self matches Card::Work(c) ==> r@ == c.blocks@,
            self matches Card::Adr(c) ==> r@ == c.blocks@,
            self matches Card::Phase(c) ==> r@ == c.blocks@,
            self matches Card::Waypoint(c) ==> r@ == c.blocks@,
    {
        match self {
            Card::Work(c) => c.blocks.as_slice(),
            Card::Adr(c) => c.blocks.as_slice(),
            Card::Phase(c) => c.blocks.as_slice(),
            Card::Waypoint(c) => c.blocks.as_slice(),
        }
    }

    /// Related-but-not-blocking cards (slugs).
    pub fn linked(&self) -> (r: &[String])
        ensures
            r@ == self.linked_of(),
            self matches Card::Work(c) ==> r@ == c.linked@,
            self matches Card::Adr(c) ==> r@ == c.linked@,
            self matches Card::Phase(c) ==> r@ == c.linked@,
            self matches Card::Waypoint(c) ==> r@ == c.linked@,
    {
        match self {
            Card::Work(c) => c.linked.as_slice(),
            Card::Adr(c) => c.linked.as_slice(),
            Card::Phase(c) => c.linked.as_slice(),
            Card::Waypoint(c) => c.linked.as_slice(),
        }
    }

    /// Criteria slugs (phase and waypoint cards only; empty otherwise).
    pub fn criteria(&self) -> (r: &[String])
        ensures
            r@ == self.criteria_of(),
            self matches Card::Work(c) ==> r@.len() == 0,
            self matches Card::Adr(c) ==> r@.len() == 0,
            self matches Card::Phase(c) ==> r@ == c.criteria@,
            self matches Card::Waypoint(c) ==> r@ == c.criteria@,
    {
        match self {
            Card::Phase(c) => c.criteria.as_slice(),
            Card::Waypoint(c) => c.criteria.as_slice(),
            _ => &[],
        }
    }

    /// The creation date.
    pub fn created(&self) -> (r: &String)
        ensures
            *r == self.created_of(),
            self matches Card::Work(c) ==> *r == c.created,
            self matches Card::Adr(c) ==> *r == c.created,
            self matches Card::Phase(c) ==> *r == c.created,
            self matches Card::Waypoint(c) ==> *r == c.created,
    {
        match self {
            Card::Work(c) => &c.created,
            Card::Adr(c) => &c.created,
            Card::Phase(c) => &c.created,
            Card::Waypoint(c) => &c.created,
        }
    }

    /// The card's priority, if set.
    pub fn priority(&self) -> (r: Option<Priority>)
        ensures
            r == self.priority_of(),
            self matches Card::Work(c) ==> r == c.priority,
            self matches Card::Adr(c) ==> r == c.priority,
            self matches Card::Phase(c) ==> r == c.priority,
            self matches Card::Waypoint(c) ==> r == c.priority,
    {
        match self {
            Card::Work(c) => c.priority,
            Card::Adr(c) => c.priority,
            Card::Phase(c) => c.priority,
            Card::Waypoint(c) => c.priority,
        }
    }

    /// The phase number this card belongs to, if set.
    pub fn phase(&self) -> (r: Option<u32>)
        ensures
            r == self.phase_of(),
            self matches Card::Work(c) ==> r == c.phase,
            self matches Card::Adr(c) ==> r == c.phase,
            self matches Card::Phase(c) ==> r == c.phase,
            self matches Card::Waypoint(c) ==> r == c.phase,
    {
        match self {
            Card::Work(c) => c.phase,
            Card::Adr(c) => c.phase,
            Card::Phase(c) => c.phase,
            Card::Waypoint(c) => c.phase,
        }
    }
}

/// Agent kind.
#[derive(Debug, Clone, Copy, PartialEq, Eq, Structural)]
pub enum AgentType {
    Human,
    Ai,
}

/// An agent definition (`agents/<id>.yaml`).
#[derive(Debug, Clone, PartialEq)]
pub struct Agent {
    pub id: String,
    pub agent_type: AgentType,
    pub role: String,
    pub why: String,
    pub default_model: String,
    pub permitted_models: Vec<String>,
    pub read_scope: Vec<String>,
    pub write_scope: Vec<String>,
    pub description: Option<String>,
    pub prompt_path: Option<String>,
    pub schedule: Option<String>,
    pub sandbox: Option<bool>,
    pub network_access: Option<bool>,
}

} // verus!

verus! {

/// A YAML value carried through untouched (`serde_yaml::Value`); the library
/// never looks inside one.
#[verifier::external_type_specification]
#[verifier::external_body]
pub struct ExYamlValue(serde_yaml::Value);

/// Project config (`.fsberlin/config.yaml`).
#[derive(Debug, Clone, PartialEq)]
pub struct Project {
    pub project_id: String,
    pub name: String,
    pub created: String,
    pub schema_version: String,
    pub description: Option<String>,
    pub stewards: Vec<String>,
    pub opaque_paths: Vec<String>,
    pub validators_config: Option<serde_yaml::Value>,
    pub watcher_config: Option<serde_yaml::Value>,
}

} // verus!

verus! {

/// Distinct card types have distinct spellings, so the index's `type`
/// column identifies the card type.
pub proof fn lemma_card_type_names_distinct(a: CardType, b: CardType)
    requires
        a != b,
    ensures
        card_type_name(a) != card_type_name(b),
{
    reveal_strlit("card");
    reveal_strlit("adr");
    reveal_strlit("phase");
    reveal_strlit("waypoint");
    assert(card_type_name(a)[0] != card_type_name(b)[0] || card_type_name(a).len() != card_type_name(
        b,
    ).len());
}

/// Distinct building statuses have distinct spellings.
pub proof fn lemma_building_status_names_distinct(a: BuildingStatus, b: BuildingStatus)
    requires
        a != b,
    ensures
        building_status_name(a) != building_status_name(b),
{
    reveal_strlit("pending");
    reveal_strlit("in-progress");
    reveal_strlit("review");
    reveal_strlit("done");
    reveal_strlit("blocked");
    reveal_strlit("archived");
    assert(building_status_name(a)[0] != building_status_name(b)[0]);
}

/// Distinct planning statuses have distinct spellings.
pub proof fn lemma_planning_status_names_distinct(a: PlanningStatus, b: PlanningStatus)
    requires
        a != b,
    ensures
        planning_status_name(a) != planning_status_name(b),
{
    reveal_strlit("proposed");
    reveal_strlit("in-discussion");
    reveal_strlit("accepted");
    reveal_strlit("superseded");
    reveal_strlit("withdrawn");
    assert(planning_status_name(a)[0] != planning_status_name(b)[0]);
}

/// Distinct waypoint statuses have distinct spellings.
pub proof fn lemma_waypoint_status_names_distinct(a: WaypointStatus, b: WaypointStatus)
    requires
        a != b,
    ensures
        waypoint_status_name(a) != waypoint_status_name(b),
{
    reveal_strlit("planned");
    reveal_strlit("active");
    reveal_strlit("abandoned");
    assert(waypoint_status_name(a)[1] != waypoint_status_name(b)[1] || waypoint_status_name(a)[0]
        != waypoint_status_name(b)[0]);
}

/// Distinct priorities have distinct spellings.
pub proof fn lemma_priority_names_distinct(a: Priority, b: Priority)
    requires
        a != b,
    ensures
        priority_name(a) != priority_name(b),
{
    reveal_strlit("low");
    reveal_strlit("medium");
    reveal_strlit("high");
    reveal_strlit("critical");
    assert(priority_name(a)[0] != priority_name(b)[0]);
}

} // verus!

verus! {

/// Each field of a card is the field of that name of its variant: the
/// relation lists (`depends_on`, `blocks`, `linked`) of every card type, the
/// `criteria` of phase and waypoint cards (none for work and ADR cards), and
/// the common fields.
pub proof fn lemma_card_fields(card: Card)
    ensures
        card matches Card::Work(c) ==> card.depends_on_of() == c.depends_on@ && card.blocks_of()
            == c.blocks@ && card.linked_of() == c.linked@ && card.criteria_of().len() == 0
            && card.id_of() == c.id && card.title_of() == c.title && card.type_of() == c.card_type
            && card.created_of() == c.created && card.priority_of() == c.priority && card.phase_of()
            == c.phase,
        card matches Card::Adr(c) ==> card.depends_on_of() == c.depends_on@ && card.blocks_of()
            == c.blocks@ && card.linked_of() == c.linked@ && card.criteria_of().len() == 0
            && card.id_of() == c.id && card.title_of() == c.title && card.type_of() == c.card_type
            && card.created_of() == c.created && card.priority_of() == c.priority && card.phase_of()
            == c.phase,
        card matches Card::Phase(c) ==> card.depends_on_of() == c.depends_on@ && card.blocks_of()
            == c.blocks@ && card.linked_of() == c.linked@ && card.criteria_of() == c.criteria@
            && card.id_of() == c.id && card.title_of() == c.title && card.type_of() == c.card_type
            && card.created_of() == c.created && card.priority_of() == c.priority && card.phase_of()
            == c.phase,
        card matches Card::Waypoint(c) ==> card.depends_on_of() == c.depends_on@ && card.blocks_of()
            == c.blocks@ && card.linked_of() == c.linked@ && card.criteria_of() == c.criteria@
            && card.id_of() == c.id && card.title_of() == c.title && card.type_of() == c.card_type
            && card.created_of() == c.created && card.priority_of() == c.priority && card.phase_of()
            == c.phase,
{
}

} // verus!
