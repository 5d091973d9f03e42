//! Authored scenario content: people, maps, smart objects, conducts and plans.

use vstd::prelude::*;

use crate::clock::TimeOfDay;
use crate::identity::DefinitionId;
use crate::ord_map::OrdKey;

verus! {

/// A resident definition authored in the people content domain.
#[derive(Clone, Debug, Eq, PartialEq)]
pub struct PersonDefinition {
    pub id: DefinitionId,
    pub display_name: String,
    pub needs: Vec<NeedDefinition>,
    pub conducts: Vec<DefinitionId>,
}

/// The intentionally small first need schema. More needs will use the same
/// authored shape once Cottage Contention is proven.
#[derive(Clone, Copy, Debug, Eq, PartialEq, Structural)]
pub struct NeedDefinition {
    pub kind: NeedKind,
    pub initial: u8,
    pub decay_per_tick: u8,
    pub activate_at: u8,
    pub retain_above: u8,
    pub recovery: u8,
    /// The value at or above which an autonomous need escalates to the Urgent
    /// band and preempts the household's player task queue. A need that omits
    /// it never escalates, however large it grows.
    pub urgent_at: Option<u8>,
}

/// The urgency threshold of a need that does not author one: none.
pub fn default_urgent_at() -> (r: Option<u8>)
    ensures
        r is None,
{
    None
}

#[derive(Clone, Copy, Debug, Eq, PartialEq, Structural)]
pub enum NeedKind {
    Toilet,
}

/// All people definitions loaded for one scenario.
#[derive(Clone, Debug, Eq, PartialEq)]
pub struct PeopleAsset {
    pub people: Vec<PersonDefinition>,
}

/// A scenario authored separately from its people definitions.
#[derive(Clone, Debug, Eq, PartialEq)]
pub struct ScenarioDefinition {
    pub id: DefinitionId,
    pub seed: u64,
    pub people: Vec<DefinitionId>,
    pub map: DefinitionId,
    pub objects: Vec<DefinitionId>,
    pub placements: Vec<ResidentPlacement>,
    /// The in-world time the scenario begins at.
    pub start_time_of_day: TimeOfDay,
}

/// An authored starting tile for a resident in a scenario.
#[derive(Clone, Debug, Eq, PartialEq)]
pub struct ResidentPlacement {
    pub person: DefinitionId,
    pub position: TilePosition,
}

/// A tile in the layered authoritative map.
#[derive(Clone, Copy, Debug, Eq, Ord, PartialEq, PartialOrd, Structural)]
pub struct TilePosition {
    pub floor: u8,
    pub x: i32,
    pub y: i32,
}

impl View for TilePosition {
    type V = TilePosition;

    open spec fn view(&self) -> TilePosition {
        *self
    }
}

impl OrdKey for TilePosition {
    open spec fn before(a: TilePosition, b: TilePosition) -> bool {
        a.floor < b.floor || (a.floor == b.floor && (a.x < b.x || (a.x == b.x && a.y < b.y)))
    }

    proof fn order_laws() {
    }

    fn precedes(&self, other: &Self) -> (r: bool) {
        self.floor < other.floor || (self.floor == other.floor && (self.x < other.x || (self.x
            == other.x && self.y < other.y)))
    }

    fn copy_key(&self) -> (r: Self) {
        *self
    }
}

/// A single floor's navigable bounds and non-walkable tiles.
#[derive(Clone, Debug, Eq, PartialEq)]
pub struct FloorDefinition {
    pub floor: u8,
    pub width: i32,
    pub height: i32,
    pub blocked: Vec<TilePosition>,
}

impl FloorDefinition {
    /// Whether two floors are authored alike.
    pub open spec fn reads_as(self, other: FloorDefinition) -> bool {
        &&& self.floor == other.floor
        &&& self.width == other.width
        &&& self.height == other.height
        &&& self.blocked@ == other.blocked@
    }

    /// A copy of the floor.
    pub fn copied(&self) -> (r: FloorDefinition)
        ensures
            r.reads_as(*self),
    {
        let mut blocked: Vec<TilePosition> = Vec::new();
        let mut i: usize = 0;
        while i < self.blocked.len()
            invariant
                i <= self.blocked@.len(),
                blocked@ == self.blocked@.take(i as int),
            decreases self.blocked@.len() - i,
        {
            blocked.push(self.blocked[i]);
            assert(self.blocked@.take(i + 1) =~= self.blocked@.take(i as int).push(
                self.blocked@[i as int],
            ));
            i = i + 1;
        }
        assert(self.blocked@.take(i as int) =~= self.blocked@);
        FloorDefinition { floor: self.floor, width: self.width, height: self.height, blocked }
    }
}

/// An occupiable connection between two map tiles.
#[derive(Clone, Debug, Eq, PartialEq)]
pub struct PortalDefinition {
    pub id: DefinitionId,
    pub from: TilePosition,
    pub to: TilePosition,
    pub traversal_ticks: u8,
}

/// A data-authored layered map.
#[derive(Clone, Debug, Eq, PartialEq)]
pub struct MapAsset {
    pub id: DefinitionId,
    pub floors: Vec<FloorDefinition>,
    pub portals: Vec<PortalDefinition>,
}

/// A capability exclusively used by a primitive while it is executing.
#[derive(Clone, Copy, Debug, Eq, Ord, PartialEq, PartialOrd, Structural)]
pub enum Capability {
    Hands,
}

impl View for Capability {
    type V = Capability;

    open spec fn view(&self) -> Capability {
        *self
    }
}

impl OrdKey for Capability {
    open spec fn before(a: Capability, b: Capability) -> bool {
        false
    }

    proof fn order_laws() {
    }

    fn precedes(&self, other: &Self) -> (r: bool) {
        false
    }

    fn copy_key(&self) -> (r: Self) {
        *self
    }
}

/// A named, exclusive slot on a smart object.
#[derive(Clone, Debug, Eq, PartialEq)]
pub struct ObjectSlotDefinition {
    pub id: DefinitionId,
}

/// One executable interaction exposed by a data-defined smart object.
#[derive(Clone, Debug, Eq, PartialEq)]
pub struct ObjectAffordanceDefinition {
    pub id: DefinitionId,
    pub slot: DefinitionId,
    pub capability: Capability,
    pub duration_ticks: u8,
}

/// An object instance placed in the authored map.
#[derive(Clone, Debug, Eq, PartialEq)]
pub struct SmartObjectDefinition {
    pub id: DefinitionId,
    pub object_type: DefinitionId,
    pub position: TilePosition,
    pub slots: Vec<ObjectSlotDefinition>,
    pub affordances: Vec<ObjectAffordanceDefinition>,
}

impl View for SmartObjectDefinition {
    type V = SmartObjectDefinition;

    open spec fn view(&self) -> SmartObjectDefinition {
        *self
    }
}

impl SmartObjectDefinition {
    /// Whether two objects are authored alike.
    pub open spec fn reads_as(self, other: SmartObjectDefinition) -> bool {
        &&& self.id == other.id
        &&& self.object_type == other.object_type
        &&& self.position == other.position
        &&& self.slots@ == other.slots@
        &&& self.affordances@ == other.affordances@
    }

    /// A copy of the object.
    pub fn copied(&self) -> (r: SmartObjectDefinition)
        ensures
            r.reads_as(*self),
    {
        let mut slots: Vec<ObjectSlotDefinition> = Vec::new();
        let mut i: usize = 0;
        while i < self.slots.len()
            invariant
                i <= self.slots@.len(),
                slots@ == self.slots@.take(i as int),
            decreases self.slots@.len() - i,
        {
            slots.push(ObjectSlotDefinition { id: self.slots[i].id.clone() });
            assert(self.slots@.take(i + 1) =~= self.slots@.take(i as int).push(
                self.slots@[i as int],
            ));
            i = i + 1;
        }
        assert(self.slots@.take(i as int) =~= self.slots@);
        let mut affordances: Vec<ObjectAffordanceDefinition> = Vec::new();
        let mut k: usize = 0;
        while k < self.affordances.len()
            invariant
                k <= self.affordances@.len(),
                affordances@ == self.affordances@.take(k as int),
            decreases self.affordances@.len() - k,
        {
            let affordance = &self.affordances[k];
            affordances.push(
                ObjectAffordanceDefinition {
                    id: affordance.id.clone(),
                    slot: affordance.slot.clone(),
                    capability: affordance.capability,
                    duration_ticks: affordance.duration_ticks,
                },
            );
            assert(self.affordances@.take(k + 1) =~= self.affordances@.take(k as int).push(
                self.affordances@[k as int],
            ));
            k = k + 1;
        }
        assert(self.affordances@.take(k as int) =~= self.affordances@);
        SmartObjectDefinition {
            id: self.id.clone(),
            object_type: self.object_type.clone(),
            position: self.position,
            slots,
            affordances,
        }
    }
}

/// All smart object instances loaded for one scenario.
#[derive(Clone, Debug, Eq, PartialEq)]
pub struct ObjectsAsset {
    pub objects: Vec<SmartObjectDefinition>,
}

/// A conduct maps a behaviour slot to an authored plan. Only the Human toilet
/// method is supported; the priority field preserves the intended
/// conduct-resolution contract without prematurely building generic planning.
#[derive(Clone, Debug, Eq, PartialEq)]
pub struct ConductAsset {
    pub id: DefinitionId,
    pub methods: Vec<ConductMethodDefinition>,
}

#[derive(Clone, Debug, Eq, PartialEq)]
pub struct ConductMethodDefinition {
    pub slot: DefinitionId,
    pub plan: DefinitionId,
    pub priority: i32,
}

#[derive(Clone, Debug, Eq, PartialEq)]
pub struct PlanAsset {
    pub id: DefinitionId,
    pub object: DefinitionId,
    pub affordance: DefinitionId,
    pub priority: i32,
}

/// The content required to construct a scenario runner.
#[derive(Clone, Debug, Eq, PartialEq)]
pub struct ScenarioContent {
    pub scenario: ScenarioDefinition,
    pub people: PeopleAsset,
    pub map: MapAsset,
    pub objects: ObjectsAsset,
    pub conducts: Vec<ConductAsset>,
    pub plans: Vec<PlanAsset>,
}

/// Errors loading or resolving authored scenario content.
#[derive(Clone, Debug, Eq, PartialEq)]
pub enum ContentError {
    /// A content file could not be read.
    Read { path: String },
    /// A content file could not be parsed.
    Parse { path: String },
    /// The scenario references a missing person definition.
    MissingPerson(DefinitionId),
    /// The scenario references a map other than the loaded one.
    WrongMap { expected: DefinitionId, actual: DefinitionId },
    /// The scenario is missing a placement for a person definition.
    MissingPlacement(DefinitionId),
    /// The scenario references a missing object definition.
    MissingObject(DefinitionId),
    /// A placement is not a walkable map tile.
    InvalidPlacement { person: DefinitionId, position: TilePosition },
    /// A placement conflicts with an earlier one.
    DuplicatePlacement {
        person: DefinitionId,
        occupied_by: DefinitionId,
        position: TilePosition,
    },
    /// A person references a missing conduct.
    MissingConduct { person: DefinitionId, conduct: DefinitionId },
    /// A conduct has no Human toilet method.
    MissingToiletMethod { conduct: DefinitionId },
    /// A conduct references a missing toilet plan.
    MissingToiletPlan { conduct: DefinitionId, plan: DefinitionId },
    /// A toilet plan names an invalid object affordance.
    InvalidToiletPlan { plan: DefinitionId },
}

/// A content error with its names as they read.
pub ghost enum ContentFault {
    Read { path: Seq<char> },
    Parse { path: Seq<char> },
    MissingPerson(Seq<char>),
    WrongMap { expected: Seq<char>, actual: Seq<char> },
    MissingPlacement(Seq<char>),
    MissingObject(Seq<char>),
    InvalidPlacement { person: Seq<char>, position: TilePosition },
    DuplicatePlacement { person: Seq<char>, occupied_by: Seq<char>, position: TilePosition },
    MissingConduct { person: Seq<char>, conduct: Seq<char> },
    MissingToiletMethod { conduct: Seq<char> },
    MissingToiletPlan { conduct: Seq<char>, plan: Seq<char> },
    InvalidToiletPlan { plan: Seq<char> },
}

impl View for ContentError {
    type V = ContentFault;

    open spec fn view(&self) -> ContentFault {
        match *self {
            ContentError::Read { path } => ContentFault::Read { path: path@ },
            ContentError::Parse { path } => ContentFault::Parse { path: path@ },
            ContentError::MissingPerson(person) => ContentFault::MissingPerson(person@),
            ContentError::WrongMap { expected, actual } => ContentFault::WrongMap {
                expected: expected@,
                actual: actual@,
            },
            ContentError::MissingPlacement(person) => ContentFault::MissingPlacement(person@),
            ContentError::MissingObject(object) => ContentFault::MissingObject(object@),
            ContentError::InvalidPlacement { person, position } => ContentFault::InvalidPlacement {
                person: person@,
                position,
            },
            ContentError::DuplicatePlacement { person, occupied_by, position } =>
                ContentFault::DuplicatePlacement {
                person: person@,
                occupied_by: occupied_by@,
                position,
            },
            ContentError::MissingConduct { person, conduct } => ContentFault::MissingConduct {
                person: person@,
                conduct: conduct@,
            },
            ContentError::MissingToiletMethod { conduct } => ContentFault::MissingToiletMethod {
                conduct: conduct@,
            },
            ContentError::MissingToiletPlan { conduct, plan } => ContentFault::MissingToiletPlan {
                conduct: conduct@,
                plan: plan@,
            },
            ContentError::InvalidToiletPlan { plan } => ContentFault::InvalidToiletPlan {
                plan: plan@,
            },
        }
    }
}

/// The authored files that make up the Cottage Arrival scenario, in the order
/// in which they are loaded.
#[derive(Clone, Copy, Debug, Eq, PartialEq, Structural)]
pub enum CottageFile {
    Scenario,
    People,
    Floors,
    Objects,
    Conduct,
    Plan,
}

impl CottageFile {
    /// Where the file lies below the content root.
    pub open spec fn spec_path(self) -> Seq<char> {
        match self {
            CottageFile::Scenario => "scenarios/cottage_arrival.ron"@,
            CottageFile::People => "people/newcomers.ron"@,
            CottageFile::Floors => "maps/cottage.ron"@,
            CottageFile::Objects => "objects/cottage.ron"@,
            CottageFile::Conduct => "conducts/human.ron"@,
            CottageFile::Plan => "plans/toilet_need.ron"@,
        }
    }

    /// Where the file lies below the content root.
    #[must_use]
    pub fn path(self) -> (r: &'static str)
        ensures
            r@ == self.spec_path(),
    {
        match self {
            CottageFile::Scenario => "scenarios/cottage_arrival.ron",
            CottageFile::People => "people/newcomers.ron",
            CottageFile::Floors => "maps/cottage.ron",
            CottageFile::Objects => "objects/cottage.ron",
            CottageFile::Conduct => "conducts/human.ron",
            CottageFile::Plan => "plans/toilet_need.ron",
        }
    }
}

impl ScenarioContent {
    /// Assembles the domain-separated Cottage Arrival fixture from its loaded
    /// files, one of each kind. The first file that failed to load, in loading
    /// order, decides the error.
    pub fn load_cottage_arrival(
        scenario: Result<ScenarioDefinition, ContentError>,
        people: Result<PeopleAsset, ContentError>,
        map: Result<MapAsset, ContentError>,
        objects: Result<ObjectsAsset, ContentError>,
        conduct: Result<ConductAsset, ContentError>,
        plan: Result<PlanAsset, ContentError>,
    ) -> (r: Result<Self, ContentError>)
        ensures
            r is Ok <==> scenario is Ok && people is Ok && map is Ok && objects is Ok
                && conduct is Ok && plan is Ok,
            match r {
                Ok(content) => {
                    &&& scenario == Ok::<ScenarioDefinition, ContentError>(content.scenario)
                    &&& people == Ok::<PeopleAsset, ContentError>(content.people)
                    &&& map == Ok::<MapAsset, ContentError>(content.map)
                    &&& objects == Ok::<ObjectsAsset, ContentError>(content.objects)
                    &&& content.conducts@ == seq![conduct->Ok_0]
                    &&& content.plans@ == seq![plan->Ok_0]
                },
                Err(error) => {
                    if scenario is Err {
                        error == scenario->Err_0
                    } else if people is Err {
                        error == people->Err_0
                    } else if map is Err {
                        error == map->Err_0
                    } else if objects is Err {
                        error == objects->Err_0
                    } else if conduct is Err {
                        error == conduct->Err_0
                    } else {
                        error == plan->Err_0
                    }
                },
            },
    {
        let scenario = scenario?;
        let people = people?;
        let map = map?;
        let objects = objects?;
        let conduct = conduct?;
        let plan = plan?;
        let mut conducts: Vec<ConductAsset> = Vec::new();
        conducts.push(conduct);
        let mut plans: Vec<PlanAsset> = Vec::new();
        plans.push(plan);
        Ok(ScenarioContent { scenario, people, map, objects, conducts, plans })
    }
}

} // verus!
