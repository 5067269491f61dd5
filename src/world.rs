use vstd::prelude::*;
use vstd::string::StringExecFns;
use crate::errors::{GameError, GameResult};
use crate::keyed::{find_entry, has_key, lemma_lookup_first, lemma_lookup_none, unique_keys};

verus! {

/// Identifier of a room.
#[derive(Debug, Clone, PartialEq, Eq, Hash)]
pub struct RoomId(pub String);

/// Identifier of a choice.
#[derive(Debug, Clone, PartialEq, Eq, Hash)]
pub struct ChoiceId(pub String);

/// Identifier of a flag: a named boolean story fact.
#[derive(Debug, Clone, PartialEq, Eq, Hash)]
pub struct FlagId(pub String);

/// The compiled story graph. Rooms and choices are keyed entries kept in
/// document order; a lookup by id finds the first entry with that id.
#[derive(Debug)]
pub struct World {
    pub rooms: Vec<(String, Room)>,
    pub choices: Vec<(String, Choice)>,
    pub starting_room_id: String,
}

#[derive(Debug)]
pub struct Room {
    pub descriptions: Vec<ConditionalDescription>,
    pub choices: Vec<String>,
}

#[derive(Debug)]
pub struct ConditionalDescription {
    pub condition: Option<Condition>,
    pub text: String,
}

#[derive(Debug)]
pub struct Choice {
    pub text: String,
    pub condition: Option<Condition>,
    pub actions: Vec<Action>,
}

#[derive(Debug)]
pub enum Condition {
    HasFlag(FlagId),
    NotHasFlag(FlagId),
    HasAllFlags(Vec<FlagId>),
    HasAnyFlags(Vec<FlagId>),
    CounterGreaterThan(String, i32),
    CounterLessThan(String, i32),
    CounterEquals(String, i32),
    And(Box<Condition>, Box<Condition>),
    Or(Box<Condition>, Box<Condition>),
}

#[derive(Debug)]
pub enum Action {
    GoTo(String),
    SetFlag(FlagId),
    RemoveFlag(FlagId),
    Quit,
    DisplayText(String),
    DisplayTextConditional { condition: Condition, text_if_true: String, text_if_false: String },
    IncrementCounter(String),
    DecrementCounter(String),
    SetCounter(String, i32),
}

// ---------------------------------------------------------------------------
// Mathematical models
// ---------------------------------------------------------------------------

/// Model of a `Condition`: identifiers become character sequences.
pub enum CondModel {
    HasFlag(Seq<char>),
    NotHasFlag(Seq<char>),
    HasAllFlags(Seq<Seq<char>>),
    HasAnyFlags(Seq<Seq<char>>),
    CounterGreaterThan(Seq<char>, i32),
    CounterLessThan(Seq<char>, i32),
    CounterEquals(Seq<char>, i32),
    And(Box<CondModel>, Box<CondModel>),
    Or(Box<CondModel>, Box<CondModel>),
}

/// Model of an `Action`.
pub enum ActionModel {
    GoTo(Seq<char>),
    SetFlag(Seq<char>),
    RemoveFlag(Seq<char>),
    Quit,
    DisplayText(Seq<char>),
    DisplayTextConditional { condition: CondModel, text_if_true: Seq<char>, text_if_false: Seq<char> },
    IncrementCounter(Seq<char>),
    DecrementCounter(Seq<char>),
    SetCounter(Seq<char>, i32),
}

pub struct DescModel {
    pub condition: Option<CondModel>,
    pub text: Seq<char>,
}

pub struct ChoiceModel {
    pub text: Seq<char>,
    pub condition: Option<CondModel>,
    pub actions: Seq<ActionModel>,
}

pub struct RoomModel {
    pub descriptions: Seq<DescModel>,
    pub choices: Seq<Seq<char>>,
}

pub struct WorldModel {
    pub rooms: Seq<(Seq<char>, RoomModel)>,
    pub choices: Seq<(Seq<char>, ChoiceModel)>,
    pub starting_room_id: Seq<char>,
}

pub open spec fn flag_names(v: Seq<FlagId>) -> Seq<Seq<char>> {
    v.map_values(|f: FlagId| f.0@)
}

pub open spec fn cond_model(c: &Condition) -> CondModel
    decreases c,
{
    match c {
        Condition::HasFlag(f) => CondModel::HasFlag(f.0@),
        Condition::NotHasFlag(f) => CondModel::NotHasFlag(f.0@),
        Condition::HasAllFlags(fs) => CondModel::HasAllFlags(flag_names(fs@)),
        Condition::HasAnyFlags(fs) => CondModel::HasAnyFlags(flag_names(fs@)),
        Condition::CounterGreaterThan(n, v) => CondModel::CounterGreaterThan(n@, *v),
        Condition::CounterLessThan(n, v) => CondModel::CounterLessThan(n@, *v),
        Condition::CounterEquals(n, v) => CondModel::CounterEquals(n@, *v),
        Condition::And(l, r) => CondModel::And(Box::new(cond_model(l)), Box::new(cond_model(r))),
        Condition::Or(l, r) => CondModel::Or(Box::new(cond_model(l)), Box::new(cond_model(r))),
    }
}

impl View for Condition {
    type V = CondModel;

    open spec fn view(&self) -> CondModel {
        cond_model(self)
    }
}

pub open spec fn opt_cond_model(c: Option<Condition>) -> Option<CondModel> {
    match c {
        Some(c) => Some(c@),
        None => None,
    }
}

impl View for Action {
    type V = ActionModel;

    open spec fn view(&self) -> ActionModel {
        match self {
            Action::GoTo(r) => ActionModel::GoTo(r@),
            Action::SetFlag(f) => ActionModel::SetFlag(f.0@),
            Action::RemoveFlag(f) => ActionModel::RemoveFlag(f.0@),
            Action::Quit => ActionModel::Quit,
            Action::DisplayText(t) => ActionModel::DisplayText(t@),
            Action::DisplayTextConditional { condition, text_if_true, text_if_false } =>
                ActionModel::DisplayTextConditional {
                    condition: condition@,
                    text_if_true: text_if_true@,
                    text_if_false: text_if_false@,
                },
            Action::IncrementCounter(n) => ActionModel::IncrementCounter(n@),
            Action::DecrementCounter(n) => ActionModel::DecrementCounter(n@),
            Action::SetCounter(n, v) => ActionModel::SetCounter(n@, *v),
        }
    }
}

impl View for ConditionalDescription {
    type V = DescModel;

    open spec fn view(&self) -> DescModel {
        DescModel { condition: opt_cond_model(self.condition), text: self.text@ }
    }
}

impl View for Choice {
    type V = ChoiceModel;

    open spec fn view(&self) -> ChoiceModel {
        ChoiceModel {
            text: self.text@,
            condition: opt_cond_model(self.condition),
            actions: self.actions@.map_values(|a: Action| a@),
        }
    }
}

pub open spec fn string_seqs(v: Seq<String>) -> Seq<Seq<char>> {
    v.map_values(|s: String| s@)
}

impl View for Room {
    type V = RoomModel;

    open spec fn view(&self) -> RoomModel {
        RoomModel {
            descriptions: self.descriptions@.map_values(|d: ConditionalDescription| d@),
            choices: string_seqs(self.choices@),
        }
    }
}

impl View for World {
    type V = WorldModel;

    open spec fn view(&self) -> WorldModel {
        WorldModel {
            rooms: self.rooms@.map_values(|e: (String, Room)| (e.0@, e.1@)),
            choices: self.choices@.map_values(|e: (String, Choice)| (e.0@, e.1@)),
            starting_room_id: self.starting_room_id@,
        }
    }
}

impl WorldModel {
    /// Room ids are unique, and so are choice ids.
    pub open spec fn wf(self) -> bool {
        unique_keys(self.rooms) && unique_keys(self.choices)
    }

    pub open spec fn has_room(self, id: Seq<char>) -> bool {
        has_key(self.rooms, id)
    }

    pub open spec fn has_choice(self, id: Seq<char>) -> bool {
        has_key(self.choices, id)
    }

    /// Every `GoTo` in every choice names an existing room.
    pub open spec fn goto_targets_exist(self) -> bool {
        forall|i: int, j: int|
            0 <= i < self.choices.len() && 0 <= j < self.choices[i].1.actions.len()
                ==> match #[trigger] self.choices[i].1.actions[j] {
                ActionModel::GoTo(t) => self.has_room(t),
                _ => true,
            }
    }

    /// Every choice id listed by a room names an existing choice.
    pub open spec fn room_choices_exist(self) -> bool {
        forall|i: int, j: int|
            0 <= i < self.rooms.len() && 0 <= j < self.rooms[i].1.choices.len()
                ==> self.has_choice(#[trigger] self.rooms[i].1.choices[j])
    }

    /// Referential integrity of a world.
    pub open spec fn valid(self) -> bool {
        &&& self.has_room(self.starting_room_id)
        &&& self.goto_targets_exist()
        &&& self.room_choices_exist()
    }
}

/// Message for a `GoTo` whose target room does not exist.
pub open spec fn missing_room_msg(choice_id: Seq<char>, room_id: Seq<char>) -> Seq<char> {
    "Choice '"@ + choice_id + "' references missing room '"@ + room_id + "'"@
}

/// Message for a room that lists a choice id that does not exist.
pub open spec fn missing_choice_msg(room_id: Seq<char>, choice_id: Seq<char>) -> Seq<char> {
    "Room '"@ + room_id + "' references missing choice '"@ + choice_id + "'"@
}

/// The target of a `GoTo` action (empty for other actions).
pub open spec fn goto_target(a: ActionModel) -> Seq<char> {
    match a {
        ActionModel::GoTo(t) => t,
        _ => Seq::empty(),
    }
}

/// `GoTo` action `j` of choice `i` names a room that does not exist.
pub open spec fn bad_goto(w: WorldModel, i: int, j: int) -> bool {
    &&& 0 <= i < w.choices.len()
    &&& 0 <= j < w.choices[i].1.actions.len()
    &&& w.choices[i].1.actions[j] is GoTo
    &&& !w.has_room(goto_target(w.choices[i].1.actions[j]))
}

/// Choice id `j` listed by room `i` does not exist.
pub open spec fn bad_listing(w: WorldModel, i: int, j: int) -> bool {
    &&& 0 <= i < w.rooms.len()
    &&& 0 <= j < w.rooms[i].1.choices.len()
    &&& !w.has_choice(w.rooms[i].1.choices[j])
}

fn concat3(a: &str, b: &String, c: &str, d: &String, e: &str) -> (r: String)
    ensures
        r@ == a@ + b@ + c@ + d@ + e@,
{
    let mut r = String::from_str(a);
    r.append(b.as_str());
    r.append(c);
    r.append(d.as_str());
    r.append(e);
    r
}

/// Whether a room with this id exists.
fn room_exists(world: &World, id: &String) -> (r: bool)
    ensures
        r == world@.has_room(id@),
{
    let ghost wm = world@;
    match find_entry(&world.rooms, id) {
        Some(i) => {
            proof {
                lemma_lookup_first(wm.rooms, id@, i as int);
            }
            true
        },
        None => {
            proof {
                lemma_lookup_none(wm.rooms, id@);
            }
            false
        },
    }
}

/// Whether a choice with this id exists.
fn choice_exists(world: &World, id: &String) -> (r: bool)
    ensures
        r == world@.has_choice(id@),
{
    let ghost wm = world@;
    match find_entry(&world.choices, id) {
        Some(i) => {
            proof {
                lemma_lookup_first(wm.choices, id@, i as int);
            }
            true
        },
        None => {
            proof {
                lemma_lookup_none(wm.choices, id@);
            }
            false
        },
    }
}

/// What checking `w` reports: success exactly when `w` is valid; otherwise
/// the first violation in the order of `validate_world`, with its message.
pub open spec fn validation_outcome<T>(w: WorldModel, r: GameResult<T>) -> bool {
    &&& (r is Ok <==> w.valid())
    &&& !w.has_room(w.starting_room_id) ==> (r matches Err(GameError::InvalidStartingRoom(m))
        && m@ == w.starting_room_id)
    &&& w.has_room(w.starting_room_id) && !w.goto_targets_exist() ==> (
        r matches Err(GameError::MissingRoom(m)) && exists|i: int, j: int| #[trigger] bad_goto(w, i, j)
            && m@ == missing_room_msg(w.choices[i].0, goto_target(w.choices[i].1.actions[j])))
    &&& w.has_room(w.starting_room_id) && w.goto_targets_exist() && !w.room_choices_exist() ==> (
        r matches Err(GameError::MissingChoice(m)) && exists|i: int, j: int| #[trigger] bad_listing(w, i, j)
            && m@ == missing_choice_msg(w.rooms[i].0, w.rooms[i].1.choices[j]))
}

/// Checks the referential integrity of a world, failing on the first
/// violation: a missing starting room first, then `GoTo` targets (choices
/// and their actions in order), then the choice ids listed by rooms.
pub fn validate_world(world: &World) -> (r: GameResult<()>)
    ensures
        validation_outcome(world@, r),
{
    let ghost wm = world@;
    if !room_exists(world, &world.starting_room_id) {
        return Err(GameError::InvalidStartingRoom(world.starting_room_id.clone()));
    }
    let mut i: usize = 0;
    while i < world.choices.len()
        invariant
            i <= world.choices.len(),
            wm == world@,
            wm.has_room(wm.starting_room_id),
            forall|a: int, b: int| 0 <= a < i ==> !bad_goto(wm, a, b),
        decreases world.choices.len() - i,
    {
        let entry = &world.choices[i];
        assert(wm.choices[i as int].1 == entry.1@);
        let mut j: usize = 0;
        while j < entry.1.actions.len()
            invariant
                i < world.choices.len(),
                j <= entry.1.actions.len(),
                wm == world@,
                wm.has_room(wm.starting_room_id),
                entry == &world.choices[i as int],
                wm.choices[i as int].1 == entry.1@,
                forall|a: int, b: int| 0 <= a < i ==> !bad_goto(wm, a, b),
                forall|b: int| 0 <= b < j ==> !bad_goto(wm, i as int, b),
            decreases entry.1.actions.len() - j,
        {
            if let Action::GoTo(target) = &entry.1.actions[j] {
                assert(wm.choices[i as int].1.actions[j as int] == ActionModel::GoTo(target@));
                if !room_exists(world, target) {
                    let m = concat3("Choice '", &entry.0, "' references missing room '", target, "'");
                    assert(bad_goto(wm, i as int, j as int));
                    return Err(GameError::MissingRoom(m));
                }
            }
            j = j + 1;
        }
        proof {
            assert forall|a: int, b: int| 0 <= a < i + 1 implies !bad_goto(wm, a, b) by {
                if a == i {
                    if 0 <= b < wm.choices[a].1.actions.len() {
                        assert(!bad_goto(wm, i as int, b));
                    }
                }
            }
        }
        i = i + 1;
    }
    assert(wm.goto_targets_exist()) by {
        assert forall|a: int, b: int| 0 <= a < wm.choices.len() && 0 <= b < wm.choices[a].1.actions.len()
            implies match #[trigger] wm.choices[a].1.actions[b] {
                ActionModel::GoTo(t) => wm.has_room(t),
                _ => true,
            } by {
            assert(!bad_goto(wm, a, b));
        }
    }
    let mut i: usize = 0;
    while i < world.rooms.len()
        invariant
            i <= world.rooms.len(),
            wm == world@,
            wm.has_room(wm.starting_room_id),
            wm.goto_targets_exist(),
            forall|a: int, b: int| 0 <= a < i ==> !bad_listing(wm, a, b),
        decreases world.rooms.len() - i,
    {
        let entry = &world.rooms[i];
        assert(wm.rooms[i as int].1 == entry.1@);
        let mut j: usize = 0;
        while j < entry.1.choices.len()
            invariant
                i < world.rooms.len(),
                j <= entry.1.choices.len(),
                wm == world@,
                wm.has_room(wm.starting_room_id),
                wm.goto_targets_exist(),
                entry == &world.rooms[i as int],
                wm.rooms[i as int].1 == entry.1@,
                forall|a: int, b: int| 0 <= a < i ==> !bad_listing(wm, a, b),
                forall|b: int| 0 <= b < j ==> !bad_listing(wm, i as int, b),
            decreases entry.1.choices.len() - j,
        {
            let cid = &entry.1.choices[j];
            assert(wm.rooms[i as int].1.choices[j as int] == cid@);
            if !choice_exists(world, cid) {
                let m = concat3("Room '", &entry.0, "' references missing choice '", cid, "'");
                assert(bad_listing(wm, i as int, j as int));
                assert(!wm.room_choices_exist());
                return Err(GameError::MissingChoice(m));
            }
            j = j + 1;
        }
        proof {
            assert forall|a: int, b: int| 0 <= a < i + 1 implies !bad_listing(wm, a, b) by {
                if a == i {
                    if 0 <= b < wm.rooms[a].1.choices.len() {
                        assert(!bad_listing(wm, i as int, b));
                    }
                }
            }
        }
        i = i + 1;
    }
    assert(wm.room_choices_exist()) by {
        assert forall|a: int, b: int| 0 <= a < wm.rooms.len() && 0 <= b < wm.rooms[a].1.choices.len()
            implies wm.has_choice(#[trigger] wm.rooms[a].1.choices[b]) by {
            assert(!bad_listing(wm, a, b));
        }
    }
    Ok(())
}

/// No two entries have equal ids.
pub open spec fn ids_unique<V>(s: Seq<(String, V)>) -> bool {
    forall|a: int, b: int| 0 <= a < s.len() && 0 <= b < s.len() && a != b ==> s[a].0@ != s[b].0@
}

fn keys_unique<V>(entries: &Vec<(String, V)>) -> (r: bool)
    ensures
        r == ids_unique(entries@),
{
    let mut i: usize = 0;
    while i < entries.len()
        invariant
            i <= entries.len(),
            forall|a: int, b: int| 0 <= a < i && 0 <= b < entries.len() && a != b ==> entries@[a].0@ != entries@[b].0@,
        decreases entries.len() - i,
    {
        let mut j: usize = 0;
        while j < entries.len()
            invariant
                i < entries.len(),
                j <= entries.len(),
                forall|a: int, b: int| 0 <= a < i && 0 <= b < entries.len() && a != b ==> entries@[a].0@ != entries@[b].0@,
                forall|b: int| 0 <= b < j && b != i ==> entries@[i as int].0@ != entries@[b].0@,
            decreases entries.len() - j,
        {
            if i != j && entries[i].0 == entries[j].0 {
                return false;
            }
            j = j + 1;
        }
        i = i + 1;
    }
    true
}

impl World {
    /// Whether room ids are unique and choice ids are unique.
    pub fn has_unique_ids(&self) -> (r: bool)
        ensures
            r == self@.wf(),
    {
        let a = keys_unique(&self.rooms);
        let b = keys_unique(&self.choices);
        let ghost w = self@;
        assert(ids_unique(self.rooms@) == unique_keys(w.rooms)) by {
            assert forall|x: int| 0 <= x < self.rooms@.len() implies #[trigger] w.rooms[x].0 == self.rooms@[x].0@ by {}
            if ids_unique(self.rooms@) {
                assert forall|a: int, b: int| 0 <= a < w.rooms.len() && 0 <= b < w.rooms.len() && a != b
                    implies w.rooms[a].0 != w.rooms[b].0 by {
                    assert(w.rooms[a].0 == self.rooms@[a].0@ && w.rooms[b].0 == self.rooms@[b].0@);
                }
            }
            if unique_keys(w.rooms) {
                assert forall|a: int, b: int| 0 <= a < self.rooms@.len() && 0 <= b < self.rooms@.len() && a != b
                    implies self.rooms@[a].0@ != self.rooms@[b].0@ by {
                    assert(w.rooms[a].0 == self.rooms@[a].0@ && w.rooms[b].0 == self.rooms@[b].0@);
                }
            }
        }
        assert(ids_unique(self.choices@) == unique_keys(w.choices)) by {
            assert forall|x: int| 0 <= x < self.choices@.len() implies #[trigger] w.choices[x].0 == self.choices@[x].0@ by {}
            if ids_unique(self.choices@) {
                assert forall|a: int, b: int| 0 <= a < w.choices.len() && 0 <= b < w.choices.len() && a != b
                    implies w.choices[a].0 != w.choices[b].0 by {
                    assert(w.choices[a].0 == self.choices@[a].0@ && w.choices[b].0 == self.choices@[b].0@);
                }
            }
            if unique_keys(w.choices) {
                assert forall|a: int, b: int| 0 <= a < self.choices@.len() && 0 <= b < self.choices@.len() && a != b
                    implies self.choices@[a].0@ != self.choices@[b].0@ by {
                    assert(w.choices[a].0 == self.choices@[a].0@ && w.choices[b].0 == self.choices@[b].0@);
                }
            }
        }
        a && b
    }
}

/// Parses a story document and checks its references. Fails with
/// `ValidationError` when no starting room is named, and otherwise with the
/// error that `validate_world` reports for the parsed world, if any.
pub fn load_world_from_markdown_content(content: &str) -> (r: GameResult<World>)
    ensures
        match crate::parser::parse_story(content@) {
            None => r matches Err(GameError::ValidationError(_)),
            Some(st) => validation_outcome(crate::parser::world_of(st), r)
                && (r matches Ok(w) ==> w@ == crate::parser::world_of(st)),
        },
        r matches Ok(w) ==> w@.wf() && w@.valid(),
{
    let world = crate::parser::parse_markdown_story(content)?;
    validate_world(&world)?;
    Ok(world)
}

} // verus!
