use vstd::prelude::*;
use crate::errors::{GameError, GameResult};
use crate::keyed::{
    add_name, lemma_lookup_push_any, lookup, has_key, find_entry, lemma_lookup_first, lemma_lookup_none, lemma_lookup_update,
    lemma_lookup_push,
};
use crate::world::{
    Action, ActionModel, Choice, ChoiceModel, CondModel, Condition, DescModel, FlagId, Room, World, flag_names, string_seqs,
};

verus! {

/// Mutable per-playthrough state.
#[derive(Debug)]
pub struct GameState {
    pub current_room_id: String,
    pub flags: Vec<FlagId>,
    pub counters: Vec<(String, i32)>,
    pub has_quit: bool,
}

/// Model of a `GameState`: a set of flags and counters keyed by name.
pub struct StateModel {
    pub current_room_id: Seq<char>,
    pub flags: Set<Seq<char>>,
    pub counters: Map<Seq<char>, i32>,
    pub has_quit: bool,
}

pub open spec fn flag_set(v: Seq<FlagId>) -> Set<Seq<char>> {
    Set::new(|f: Seq<char>| exists|i: int| 0 <= i < v.len() && #[trigger] v[i].0@ == f)
}

pub open spec fn counter_entries(v: Seq<(String, i32)>) -> Seq<(Seq<char>, i32)> {
    v.map_values(|e: (String, i32)| (e.0@, e.1))
}

pub open spec fn counter_map(v: Seq<(String, i32)>) -> Map<Seq<char>, i32> {
    Map::new(
        |k: Seq<char>| has_key(counter_entries(v), k),
        |k: Seq<char>| lookup(counter_entries(v), k).unwrap(),
    )
}

impl View for GameState {
    type V = StateModel;

    open spec fn view(&self) -> StateModel {
        StateModel {
            current_room_id: self.current_room_id@,
            flags: flag_set(self.flags@),
            counters: counter_map(self.counters@),
            has_quit: self.has_quit,
        }
    }
}

/// The value of a counter; an absent counter reads as 0.
pub open spec fn counter_value(counters: Map<Seq<char>, i32>, name: Seq<char>) -> i32 {
    if counters.contains_key(name) {
        counters[name]
    } else {
        0
    }
}

/// Every name of `fs` is in `flags`.
pub open spec fn has_all(flags: Set<Seq<char>>, fs: Seq<Seq<char>>) -> bool {
    forall|i: int| 0 <= i < fs.len() ==> #[trigger] flags.contains(fs[i])
}

/// Some name of `fs` is in `flags`.
pub open spec fn has_any(flags: Set<Seq<char>>, fs: Seq<Seq<char>>) -> bool {
    exists|i: int| 0 <= i < fs.len() && #[trigger] flags.contains(fs[i])
}

/// Truth of a condition in a state.
pub open spec fn eval(c: CondModel, s: StateModel) -> bool
    decreases c,
{
    match c {
        CondModel::HasFlag(f) => s.flags.contains(f),
        CondModel::NotHasFlag(f) => !s.flags.contains(f),
        CondModel::HasAllFlags(fs) => has_all(s.flags, fs),
        CondModel::HasAnyFlags(fs) => has_any(s.flags, fs),
        CondModel::CounterGreaterThan(n, v) => counter_value(s.counters, n) > v,
        CondModel::CounterLessThan(n, v) => counter_value(s.counters, n) < v,
        CondModel::CounterEquals(n, v) => counter_value(s.counters, n) == v,
        CondModel::And(l, r) => eval(*l, s) && eval(*r, s),
        CondModel::Or(l, r) => eval(*l, s) || eval(*r, s),
    }
}

/// A choice is available when it has no gate or its gate holds.
pub open spec fn choice_open(c: ChoiceModel, s: StateModel) -> bool {
    match c.condition {
        None => true,
        Some(cond) => eval(cond, s),
    }
}

/// Evaluating `And(c, c)` or `Or(c, c)` gives the same answer as `c`.
pub proof fn lemma_and_or_idempotent(c: CondModel, s: StateModel)
    ensures
        eval(CondModel::And(Box::new(c), Box::new(c)), s) == eval(c, s),
        eval(CondModel::Or(Box::new(c), Box::new(c)), s) == eval(c, s),
{
}

/// An empty `HasAllFlags` always holds and an empty `HasAnyFlags` never does.
pub proof fn lemma_empty_flag_lists(s: StateModel)
    ensures
        eval(CondModel::HasAllFlags(Seq::empty()), s),
        !eval(CondModel::HasAnyFlags(Seq::empty()), s),
{
}

impl GameState {
    /// A fresh state in the given room: no flags, no counters, not quit.
    pub fn new(starting_room_id: String) -> (r: GameState)
        ensures
            r@.current_room_id == starting_room_id@,
            r@.flags == Set::<Seq<char>>::empty(),
            r@.counters == Map::<Seq<char>, i32>::empty(),
            !r@.has_quit,
    {
        let r = GameState {
            current_room_id: starting_room_id,
            flags: Vec::new(),
            counters: Vec::new(),
            has_quit: false,
        };
        assert(r@.flags =~= Set::<Seq<char>>::empty());
        assert(r@.counters =~= Map::<Seq<char>, i32>::empty());
        r
    }
}

/// Whether `name` is among `flags`.
fn has_flag(flags: &Vec<FlagId>, name: &String) -> (r: bool)
    ensures
        r == flag_set(flags@).contains(name@),
{
    let mut i: usize = 0;
    while i < flags.len()
        invariant
            i <= flags.len(),
            forall|j: int| 0 <= j < i ==> flags@[j].0@ != name@,
        decreases flags.len() - i,
    {
        if flags[i].0 == *name {
            assert(flag_set(flags@).contains(name@));
            return true;
        }
        i = i + 1;
    }
    false
}

/// The index of the first counter entry named `name`.
fn find_counter(counters: &Vec<(String, i32)>, name: &String) -> (r: Option<usize>)
    ensures
        match r {
            Some(i) => i < counters.len() && counters@[i as int].0@ == name@
                && (forall|j: int| 0 <= j < i ==> counters@[j].0@ != name@)
                && lookup(counter_entries(counters@), name@) == Some(counters@[i as int].1),
            None => lookup(counter_entries(counters@), name@) is None,
        },
{
    let r = find_entry(counters, name);
    proof {
        let es = counter_entries(counters@);
        match r {
            Some(i) => lemma_lookup_first(es, name@, i as int),
            None => lemma_lookup_none(es, name@),
        }
    }
    r
}

/// The value of counter `name`, 0 when absent.
fn get_counter(counters: &Vec<(String, i32)>, name: &String) -> (r: i32)
    ensures
        r == counter_value(counter_map(counters@), name@),
{
    match find_counter(counters, name) {
        Some(i) => counters[i].1,
        None => 0,
    }
}

/// Sets counter `name` to `value`, keeping every other counter.
fn put_counter(counters: &mut Vec<(String, i32)>, name: &String, value: i32)
    ensures
        counter_map(final(counters)@) == counter_map(old(counters)@).insert(name@, value),
{
    let ghost es = counter_entries(counters@);
    match find_counter(counters, name) {
        Some(i) => {
            let key = counters[i].0.clone();
            counters.set(i, (key, value));
            proof {
                let es2 = counter_entries(counters@);
                assert(es2 =~= es.update(i as int, (name@, value)));
                assert forall|q: Seq<char>| lookup(es2, q) == (if q == name@ { Some(value) } else { lookup(es, q) }) by {
                    lemma_lookup_update(es, i as int, name@, value, q);
                }
                assert(counter_map(counters@) =~= counter_map(old(counters)@).insert(name@, value));
            }
        },
        None => {
            counters.push((name.clone(), value));
            proof {
                let es2 = counter_entries(counters@);
                assert(es2 =~= es.push((name@, value)));
                assert forall|q: Seq<char>| lookup(es2, q) == (if q == name@ { Some(value) } else { lookup(es, q) }) by {
                    lemma_lookup_push(es, name@, value, q);
                }
                assert(counter_map(counters@) =~= counter_map(old(counters)@).insert(name@, value));
            }
        },
    }
}

/// Evaluates a condition against a state.
pub fn check_single_condition(condition: &Condition, game_state: &GameState) -> (r: bool)
    ensures
        r == eval(condition@, game_state@),
    decreases condition,
{
    match condition {
        Condition::HasFlag(f) => has_flag(&game_state.flags, &f.0),
        Condition::NotHasFlag(f) => !has_flag(&game_state.flags, &f.0),
        Condition::HasAllFlags(fs) => {
            let ghost names = flag_names(fs@);
            assert(condition@ == CondModel::HasAllFlags(names));
            let mut i: usize = 0;
            while i < fs.len()
                invariant
                    i <= fs.len(),
                    names == flag_names(fs@),
                    condition@ == CondModel::HasAllFlags(names),
                    forall|j: int| 0 <= j < i ==> game_state@.flags.contains(#[trigger] names[j]),
                decreases fs.len() - i,
            {
                if !has_flag(&game_state.flags, &fs[i].0) {
                    assert(!game_state@.flags.contains(names[i as int]));
                    return false;
                }
                i = i + 1;
            }
            true
        },
        Condition::HasAnyFlags(fs) => {
            let ghost names = flag_names(fs@);
            assert(condition@ == CondModel::HasAnyFlags(names));
            let mut i: usize = 0;
            while i < fs.len()
                invariant
                    i <= fs.len(),
                    names == flag_names(fs@),
                    condition@ == CondModel::HasAnyFlags(names),
                    forall|j: int| 0 <= j < i ==> !game_state@.flags.contains(#[trigger] names[j]),
                decreases fs.len() - i,
            {
                if has_flag(&game_state.flags, &fs[i].0) {
                    assert(game_state@.flags.contains(names[i as int]));
                    return true;
                }
                i = i + 1;
            }
            false
        },
        Condition::CounterGreaterThan(n, v) => get_counter(&game_state.counters, n) > *v,
        Condition::CounterLessThan(n, v) => get_counter(&game_state.counters, n) < *v,
        Condition::CounterEquals(n, v) => get_counter(&game_state.counters, n) == *v,
        Condition::And(l, r) => {
            let a = check_single_condition(l, game_state);
            let b = check_single_condition(r, game_state);
            a && b
        },
        Condition::Or(l, r) => {
            let a = check_single_condition(l, game_state);
            let b = check_single_condition(r, game_state);
            a || b
        },
    }
}

/// Whether a choice is currently available: ungated, or its gate holds.
pub fn check_condition(choice: &Choice, game_state: &GameState) -> (r: bool)
    ensures
        r == choice_open(choice@, game_state@),
{
    match &choice.condition {
        None => true,
        Some(condition) => check_single_condition(condition, game_state),
    }
}

/// One unit of output produced while running a choice's actions.
#[derive(Debug)]
pub enum Emission {
    Text(String),
    CounterChanged { counter: String, old_value: i32, new_value: i32 },
}

pub enum EmissionModel {
    Text(Seq<char>),
    CounterChanged { counter: Seq<char>, old_value: i32, new_value: i32 },
}

impl View for Emission {
    type V = EmissionModel;

    open spec fn view(&self) -> EmissionModel {
        match self {
            Emission::Text(t) => EmissionModel::Text(t@),
            Emission::CounterChanged { counter, old_value, new_value } => EmissionModel::CounterChanged {
                counter: counter@,
                old_value: *old_value,
                new_value: *new_value,
            },
        }
    }
}

pub open spec fn emissions_model(v: Seq<Emission>) -> Seq<EmissionModel> {
    v.map_values(|e: Emission| e@)
}

/// Counter increment, saturating at the top of the `i32` range.
pub open spec fn inc(v: i32) -> i32 {
    if v < i32::MAX { (v + 1) as i32 } else { v }
}

/// Counter decrement, saturating at the bottom of the `i32` range.
pub open spec fn dec(v: i32) -> i32 {
    if v > i32::MIN { (v - 1) as i32 } else { v }
}

/// The state after one action.
pub open spec fn apply_action(a: ActionModel, s: StateModel) -> StateModel {
    match a {
        ActionModel::GoTo(r) => StateModel { current_room_id: r, ..s },
        ActionModel::SetFlag(f) => StateModel { flags: s.flags.insert(f), ..s },
        ActionModel::RemoveFlag(f) => StateModel { flags: s.flags.remove(f), ..s },
        ActionModel::Quit => StateModel { has_quit: true, ..s },
        ActionModel::DisplayText(_) => s,
        ActionModel::DisplayTextConditional { .. } => s,
        ActionModel::IncrementCounter(n) =>
            StateModel { counters: s.counters.insert(n, inc(counter_value(s.counters, n))), ..s },
        ActionModel::DecrementCounter(n) =>
            StateModel { counters: s.counters.insert(n, dec(counter_value(s.counters, n))), ..s },
        ActionModel::SetCounter(n, v) => StateModel { counters: s.counters.insert(n, v), ..s },
    }
}

pub open spec fn counter_change(n: Seq<char>, old_value: i32, new_value: i32) -> Seq<EmissionModel> {
    seq![EmissionModel::CounterChanged { counter: n, old_value, new_value }]
}

/// The output of one action, given the state just before it.
pub open spec fn action_output(a: ActionModel, s: StateModel) -> Seq<EmissionModel> {
    match a {
        ActionModel::DisplayText(t) => seq![EmissionModel::Text(t)],
        ActionModel::DisplayTextConditional { condition, text_if_true, text_if_false } =>
            seq![EmissionModel::Text(if eval(condition, s) { text_if_true } else { text_if_false })],
        ActionModel::IncrementCounter(n) =>
            counter_change(n, counter_value(s.counters, n), inc(counter_value(s.counters, n))),
        ActionModel::DecrementCounter(n) =>
            counter_change(n, counter_value(s.counters, n), dec(counter_value(s.counters, n))),
        ActionModel::SetCounter(n, v) => counter_change(n, counter_value(s.counters, n), v),
        _ => Seq::empty(),
    }
}

/// The state after running `acts` in order from `s`.
pub open spec fn run_state(acts: Seq<ActionModel>, s: StateModel) -> StateModel
    decreases acts.len(),
{
    if acts.len() == 0 {
        s
    } else {
        apply_action(acts.last(), run_state(acts.drop_last(), s))
    }
}

/// The output of running `acts` in order from `s`; each action sees the
/// effects of those before it.
pub open spec fn run_output(acts: Seq<ActionModel>, s: StateModel) -> Seq<EmissionModel>
    decreases acts.len(),
{
    if acts.len() == 0 {
        Seq::empty()
    } else {
        run_output(acts.drop_last(), s) + action_output(acts.last(), run_state(acts.drop_last(), s))
    }
}

/// `Quit` ends nothing by itself: the actions after it still run, and
/// emit, exactly as they would from the state with `has_quit` set.
pub proof fn lemma_quit_continues(rest: Seq<ActionModel>, s: StateModel)
    ensures
        run_state(seq![ActionModel::Quit] + rest, s) == run_state(rest, StateModel { has_quit: true, ..s }),
        run_output(seq![ActionModel::Quit] + rest, s) == run_output(rest, StateModel { has_quit: true, ..s }),
    decreases rest.len(),
{
    let q = StateModel { has_quit: true, ..s };
    let all = seq![ActionModel::Quit] + rest;
    if rest.len() == 0 {
        assert(all.drop_last() =~= Seq::<ActionModel>::empty());
        assert(all.last() == ActionModel::Quit);
        assert(run_output(Seq::<ActionModel>::empty(), s) == Seq::<EmissionModel>::empty());
        assert(action_output(ActionModel::Quit, s) =~= Seq::<EmissionModel>::empty());
        assert(run_output(all, s) =~= Seq::<EmissionModel>::empty());
    } else {
        lemma_quit_continues(rest.drop_last(), s);
        assert(all.drop_last() =~= seq![ActionModel::Quit] + rest.drop_last());
        assert(all.last() == rest.last());
    }
}

/// Adds flag `name` unless it is already set.
fn set_flag(flags: &mut Vec<FlagId>, name: &String)
    ensures
        flag_set(final(flags)@) == flag_set(old(flags)@).insert(name@),
{
    if !has_flag(flags, name) {
        flags.push(FlagId(name.clone()));
        proof {
            let n = flags@.len() - 1;
            assert(flags@[n].0@ == name@);
            assert forall|f: Seq<char>| flag_set(old(flags)@).contains(f) implies flag_set(flags@).contains(f) by {
                let j = choose|j: int| 0 <= j < old(flags)@.len() && #[trigger] old(flags)@[j].0@ == f;
                assert(flags@[j] == old(flags)@[j]);
            }
            assert forall|f: Seq<char>| flag_set(flags@).contains(f) && f != name@ implies flag_set(old(flags)@).contains(f) by {
                let j = choose|j: int| 0 <= j < flags@.len() && #[trigger] flags@[j].0@ == f;
                assert(flags@[j] == old(flags)@[j]);
            }
        }
    }
    assert(flag_set(flags@) =~= flag_set(old(flags)@).insert(name@));
}

/// Removes every entry of flag `name`.
fn remove_flag(flags: &mut Vec<FlagId>, name: &String)
    ensures
        flag_set(final(flags)@) == flag_set(old(flags)@).remove(name@),
{
    let mut kept: Vec<FlagId> = Vec::new();
    let mut i: usize = 0;
    while i < flags.len()
        invariant
            i <= flags.len(),
            forall|f: Seq<char>| flag_set(kept@).contains(f) <==> (f != name@ && exists|j: int| 0 <= j < i && #[trigger] flags@[j].0@ == f),
        decreases flags.len() - i,
    {
        if flags[i].0 != *name {
            let ghost before = kept@;
            kept.push(FlagId(flags[i].0.clone()));
            proof {
                assert forall|f: Seq<char>| flag_set(kept@).contains(f) <==> (f != name@ && exists|j: int| 0 <= j < i + 1 && #[trigger] flags@[j].0@ == f) by {
                    if flag_set(kept@).contains(f) {
                        let k = choose|k: int| 0 <= k < kept@.len() && #[trigger] kept@[k].0@ == f;
                        if k < before.len() {
                            assert(kept@[k] == before[k]);
                            assert(flag_set(before).contains(f));
                        }
                    }
                    if f != name@ && exists|j: int| 0 <= j < i + 1 && #[trigger] flags@[j].0@ == f {
                        let j = choose|j: int| 0 <= j < i + 1 && #[trigger] flags@[j].0@ == f;
                        if j < i {
                            assert(flag_set(before).contains(f));
                            let k = choose|k: int| 0 <= k < before.len() && #[trigger] before[k].0@ == f;
                            assert(kept@[k] == before[k]);
                        } else {
                            assert(kept@[kept@.len() - 1].0@ == f);
                        }
                    }
                }
            }
        } else {
            proof {
                assert forall|f: Seq<char>| flag_set(kept@).contains(f) <==> (f != name@ && exists|j: int| 0 <= j < i + 1 && #[trigger] flags@[j].0@ == f) by {
                    if f != name@ && exists|j: int| 0 <= j < i + 1 && #[trigger] flags@[j].0@ == f {
                        let j = choose|j: int| 0 <= j < i + 1 && #[trigger] flags@[j].0@ == f;
                        assert(j < i);
                    }
                }
            }
        }
        i = i + 1;
    }
    *flags = kept;
    assert(flag_set(flags@) =~= flag_set(old(flags)@).remove(name@));
}

/// Applies one action, appending its output to `out`.
fn apply_one(action: &Action, game_state: &mut GameState, out: &mut Vec<Emission>)
    ensures
        final(game_state)@ == apply_action(action@, old(game_state)@),
        emissions_model(final(out)@) == emissions_model(old(out)@) + action_output(action@, old(game_state)@),
{
    let ghost s0 = game_state@;
    match action {
        Action::GoTo(room_id) => {
            game_state.current_room_id = room_id.clone();
        },
        Action::SetFlag(f) => {
            set_flag(&mut game_state.flags, &f.0);
        },
        Action::RemoveFlag(f) => {
            remove_flag(&mut game_state.flags, &f.0);
        },
        Action::Quit => {
            game_state.has_quit = true;
        },
        Action::DisplayText(text) => {
            out.push(Emission::Text(text.clone()));
        },
        Action::DisplayTextConditional { condition, text_if_true, text_if_false } => {
            let text = if check_single_condition(condition, game_state) {
                text_if_true.clone()
            } else {
                text_if_false.clone()
            };
            out.push(Emission::Text(text));
        },
        Action::IncrementCounter(counter) => {
            let old_value = get_counter(&game_state.counters, counter);
            let new_value = if old_value < i32::MAX { old_value + 1 } else { old_value };
            put_counter(&mut game_state.counters, counter, new_value);
            out.push(Emission::CounterChanged { counter: counter.clone(), old_value, new_value });
        },
        Action::DecrementCounter(counter) => {
            let old_value = get_counter(&game_state.counters, counter);
            let new_value = if old_value > i32::MIN { old_value - 1 } else { old_value };
            put_counter(&mut game_state.counters, counter, new_value);
            out.push(Emission::CounterChanged { counter: counter.clone(), old_value, new_value });
        },
        Action::SetCounter(counter, value) => {
            let old_value = get_counter(&game_state.counters, counter);
            put_counter(&mut game_state.counters, counter, *value);
            out.push(Emission::CounterChanged { counter: counter.clone(), old_value, new_value: *value });
        },
    }
    assert(emissions_model(out@) =~= emissions_model(old(out)@) + action_output(action@, s0));
}

/// Runs a choice's actions in order against the state and returns what
/// they emit. `Quit` marks the state as quit but does not stop the actions
/// after it. Counter changes saturate at the bounds of `i32`.
pub fn execute_actions(choice: &Choice, game_state: &mut GameState) -> (r: Vec<Emission>)
    ensures
        final(game_state)@ == run_state(choice@.actions, old(game_state)@),
        emissions_model(r@) == run_output(choice@.actions, old(game_state)@),
{
    let ghost acts = choice@.actions;
    let ghost s0 = game_state@;
    let mut out: Vec<Emission> = Vec::new();
    let mut i: usize = 0;
    assert(acts.take(0) =~= Seq::<ActionModel>::empty());
    while i < choice.actions.len()
        invariant
            i <= choice.actions.len(),
            acts == choice@.actions,
            acts.len() == choice.actions.len(),
            game_state@ == run_state(acts.take(i as int), s0),
            emissions_model(out@) == run_output(acts.take(i as int), s0),
        decreases choice.actions.len() - i,
    {
        apply_one(&choice.actions[i], game_state, &mut out);
        proof {
            assert(acts.take(i + 1).drop_last() =~= acts.take(i as int));
            assert(acts.take(i + 1).last() == choice.actions@[i as int]@);
        }
        i = i + 1;
    }
    assert(acts.take(i as int) =~= acts);
    out
}

/// A description applies when it is unconditional or its condition holds.
pub open spec fn desc_applies(d: DescModel, s: StateModel) -> bool {
    match d.condition {
        None => true,
        Some(c) => eval(c, s),
    }
}

/// The text of the first applicable description, or the empty text.
pub open spec fn describe(ds: Seq<DescModel>, s: StateModel) -> Seq<char>
    decreases ds.len(),
{
    if ds.len() == 0 {
        Seq::empty()
    } else if desc_applies(ds[0], s) {
        ds[0].text
    } else {
        describe(ds.drop_first(), s)
    }
}

/// The description of a room in the given state: the first description, in
/// order, that is unconditional or whose condition holds; empty if none does.
pub fn get_room_description(room: &Room, game_state: &GameState) -> (r: String)
    ensures
        r@ == describe(room@.descriptions, game_state@),
{
    let ghost ds = room@.descriptions;
    let n = room.descriptions.len();
    let mut i: usize = 0;
    assert(ds.subrange(0, n as int) =~= ds);
    while i < n
        invariant
            i <= n,
            n == room.descriptions.len(),
            ds == room@.descriptions,
            describe(ds, game_state@) == describe(ds.subrange(i as int, n as int), game_state@),
        decreases n - i,
    {
        let d = &room.descriptions[i];
        assert(ds.subrange(i as int, n as int)[0] == d@);
        assert(ds.subrange(i as int, n as int).drop_first() =~= ds.subrange(i + 1, n as int));
        match &d.condition {
            Some(condition) => {
                if check_single_condition(condition, game_state) {
                    return d.text.clone();
                }
            },
            None => {
                return d.text.clone();
            },
        }
        i = i + 1;
    }
    String::new()
}

/// Every id of `ids` names an entry of `choices`.
pub open spec fn all_listed(ids: Seq<Seq<char>>, choices: Seq<(Seq<char>, ChoiceModel)>) -> bool {
    forall|j: int| 0 <= j < ids.len() ==> has_key(choices, #[trigger] ids[j])
}

/// `ids[i]` is the first id of `ids` that names no entry of `choices`.
pub open spec fn first_missing_at(ids: Seq<Seq<char>>, choices: Seq<(Seq<char>, ChoiceModel)>, i: int) -> bool {
    &&& 0 <= i < ids.len()
    &&& !has_key(choices, ids[i])
    &&& forall|j: int| 0 <= j < i ==> has_key(choices, #[trigger] ids[j])
}

/// The choices listed under `ids` that exist and are open, in list order.
pub open spec fn available(ids: Seq<Seq<char>>, choices: Seq<(Seq<char>, ChoiceModel)>, s: StateModel) -> Seq<ChoiceModel>
    decreases ids.len(),
{
    if ids.len() == 0 {
        Seq::empty()
    } else {
        let prev = available(ids.drop_last(), choices, s);
        match lookup(choices, ids.last()) {
            Some(c) => if choice_open(c, s) { prev.push(c) } else { prev },
            None => prev,
        }
    }
}

/// The choice available now in the current room, in the room's order.
/// Fails with `MissingRoom` when the current room does not exist, and with
/// `MissingChoice` naming the first listed choice id that does not exist.
pub fn get_available_choices<'a>(world: &'a World, game_state: &GameState) -> (r: GameResult<Vec<&'a Choice>>)
    ensures
        match lookup(world@.rooms, game_state@.current_room_id) {
            None => r matches Err(GameError::MissingRoom(m)) && m@ == game_state@.current_room_id,
            Some(room) => {
                let ids = room.choices;
                if all_listed(ids, world@.choices) {
                    r is Ok && r.unwrap()@.map_values(|c: &Choice| c@) == available(ids, world@.choices, game_state@)
                } else {
                    r matches Err(GameError::MissingChoice(m))
                        && exists|i: int| #[trigger] first_missing_at(ids, world@.choices, i) && m@ == ids[i]
                }
            },
        },
{
    let ghost wm = world@;
    let ri = match find_entry(&world.rooms, &game_state.current_room_id) {
        Some(ri) => ri,
        None => {
            proof {
                lemma_lookup_none(wm.rooms, game_state@.current_room_id);
            }
            return Err(GameError::MissingRoom(game_state.current_room_id.clone()));
        },
    };
    proof {
        lemma_lookup_first(wm.rooms, game_state@.current_room_id, ri as int);
    }
    let room = &world.rooms[ri].1;
    let ghost ids = room@.choices;
    assert(wm.rooms[ri as int].1 == room@);
    let mut out: Vec<&'a Choice> = Vec::new();
    let mut i: usize = 0;
    assert(ids.take(0) =~= Seq::<Seq<char>>::empty());
    while i < room.choices.len()
        invariant
            i <= room.choices.len(),
            ids == room@.choices,
            ids.len() == room.choices.len(),
            wm == world@,
            lookup(wm.rooms, game_state@.current_room_id) == Some(room@),
            forall|j: int| 0 <= j < i ==> has_key(wm.choices, #[trigger] ids[j]),
            out@.map_values(|c: &Choice| c@) == available(ids.take(i as int), wm.choices, game_state@),
        decreases room.choices.len() - i,
    {
        let id = &room.choices[i];
        assert(id@ == ids[i as int]);
        match find_entry(&world.choices, id) {
            None => {
                proof {
                    lemma_lookup_none(wm.choices, id@);
                    assert(!has_key(wm.choices, ids[i as int]));
                }
                let m = id.clone();
                assert(first_missing_at(ids, wm.choices, i as int));
                assert(!all_listed(ids, wm.choices));
                return Err(GameError::MissingChoice(m));
            },
            Some(ci) => {
                proof {
                    lemma_lookup_first(wm.choices, id@, ci as int);
                    assert(ids.take(i + 1).drop_last() =~= ids.take(i as int));
                }
                let choice = &world.choices[ci].1;
                if check_condition(choice, game_state) {
                    out.push(choice);
                }
                assert(out@.map_values(|c: &Choice| c@) =~= available(ids.take(i + 1), wm.choices, game_state@));
            },
        }
        i = i + 1;
    }
    assert(ids.take(i as int) =~= ids);
    Ok(out)
}

/// The description of the state's current room; `MissingRoom` when that
/// room does not exist (a state saved against another story).
pub fn current_room_description(world: &World, game_state: &GameState) -> (r: GameResult<String>)
    ensures
        match lookup(world@.rooms, game_state@.current_room_id) {
            None => r matches Err(GameError::MissingRoom(m)) && m@ == game_state@.current_room_id,
            Some(room) => r matches Ok(t) && t@ == describe(room.descriptions, game_state@),
        },
{
    let ghost wm = world@;
    match find_entry(&world.rooms, &game_state.current_room_id) {
        None => {
            proof {
                lemma_lookup_none(wm.rooms, game_state@.current_room_id);
            }
            Err(GameError::MissingRoom(game_state.current_room_id.clone()))
        },
        Some(ri) => {
            proof {
                lemma_lookup_first(wm.rooms, game_state@.current_room_id, ri as int);
            }
            Ok(get_room_description(&world.rooms[ri].1, game_state))
        },
    }
}

proof fn lemma_map_eq_lookup(v1: Seq<(String, i32)>, v2: Seq<(String, i32)>, q: Seq<char>)
    requires
        counter_map(v1) == counter_map(v2),
    ensures
        lookup(counter_entries(v1), q) == lookup(counter_entries(v2), q),
{
    if has_key(counter_entries(v1), q) {
        assert(counter_map(v1).contains_key(q));
        assert(counter_map(v2).contains_key(q));
        assert(counter_map(v1)[q] == counter_map(v2)[q]);
        assert(counter_map(v1)[q] == lookup(counter_entries(v1), q).unwrap());
        assert(counter_map(v2)[q] == lookup(counter_entries(v2), q).unwrap());
        assert(has_key(counter_entries(v2), q));
        assert(lookup(counter_entries(v1), q) is Some && lookup(counter_entries(v2), q) is Some);
    } else {
        assert(!counter_map(v1).contains_key(q));
        assert(!counter_map(v2).contains_key(q));
    }
}

/// The persisted form of a game state: flag names and counters, each name
/// at most once.
#[derive(Debug)]
pub struct SaveData {
    pub current_room_id: String,
    pub flags: Vec<String>,
    pub counters: Vec<(String, i32)>,
    pub has_quit: bool,
}

impl SaveData {
    /// The state this value describes.
    pub open spec fn model(&self) -> StateModel {
        StateModel {
            current_room_id: self.current_room_id@,
            flags: string_seqs(self.flags@).to_set(),
            counters: counter_map(self.counters@),
            has_quit: self.has_quit,
        }
    }

    /// No flag name and no counter name occurs twice.
    pub open spec fn distinct(&self) -> bool {
        string_seqs(self.flags@).no_duplicates() && crate::keyed::unique_keys(counter_entries(self.counters@))
    }
}

impl GameState {
    /// The value to persist for this state.
    pub fn to_save_data(&self) -> (r: SaveData)
        ensures
            r.model() == self@,
            r.distinct(),
    {
        let mut flags: Vec<String> = Vec::new();
        let mut i: usize = 0;
        while i < self.flags.len()
            invariant
                i <= self.flags.len(),
                string_seqs(flags@).no_duplicates(),
                string_seqs(flags@).to_set() == flag_set(self.flags@.take(i as int)),
            decreases self.flags.len() - i,
        {
            add_name(&mut flags, &self.flags[i].0);
            assert(self.flags@.take(i + 1) =~= self.flags@.take(i as int).push(self.flags@[i as int]));
            assert(string_seqs(flags@).to_set() =~= flag_set(self.flags@.take(i + 1))) by {
                let t = self.flags@.take(i + 1);
                assert forall|f: Seq<char>| flag_set(t).contains(f) implies #[trigger] string_seqs(flags@).to_set().contains(f) by {
                    let j = choose|j: int| 0 <= j < t.len() && #[trigger] t[j].0@ == f;
                    if j < i {
                        assert(self.flags@.take(i as int)[j] == t[j]);
                        assert(flag_set(self.flags@.take(i as int)).contains(f));
                    }
                }
                assert forall|f: Seq<char>| #[trigger] string_seqs(flags@).to_set().contains(f) implies flag_set(t).contains(f) by {
                    if f != self.flags@[i as int].0@ {
                        assert(flag_set(self.flags@.take(i as int)).contains(f));
                        let j = choose|j: int| 0 <= j < i && #[trigger] self.flags@.take(i as int)[j].0@ == f;
                        assert(t[j] == self.flags@.take(i as int)[j]);
                    } else {
                        assert(t[i as int] == self.flags@[i as int]);
                    }
                }
            }
            i = i + 1;
        }
        assert(self.flags@.take(i as int) =~= self.flags@);
        let mut counters: Vec<(String, i32)> = Vec::new();
        let mut k: usize = 0;
        assert(counter_entries(self.counters@.take(0)) =~= Seq::<(Seq<char>, i32)>::empty());
        assert(counter_map(counters@) =~= counter_map(self.counters@.take(0)));
        while k < self.counters.len()
            invariant
                k <= self.counters.len(),
                crate::keyed::unique_keys(counter_entries(counters@)),
                counter_map(counters@) == counter_map(self.counters@.take(k as int)),
            decreases self.counters.len() - k,
        {
            let ghost before_v = counters@;
            let ghost before = counter_entries(counters@);
            let ghost pre = counter_entries(self.counters@.take(k as int));
            let ghost e = (self.counters@[k as int].0@, self.counters@[k as int].1);
            assert(counter_entries(self.counters@.take(k + 1)) =~= pre.push(e));
            match find_counter(&counters, &self.counters[k].0) {
                Some(_) => {
                    assert(counter_map(counters@).contains_key(e.0));
                    assert(has_key(pre, e.0));
                    assert forall|q: Seq<char>| lookup(pre.push(e), q) == lookup(pre, q) by {
                        lemma_lookup_push_any(pre, e, q);
                    }
                    assert(counter_map(counters@) =~= counter_map(self.counters@.take(k + 1)));
                },
                None => {
                    let name = self.counters[k].0.clone();
                    counters.push((name, self.counters[k].1));
                    assert(counter_entries(counters@) =~= before.push(e));
                    assert forall|q: Seq<char>| lookup(before.push(e), q) == lookup(pre.push(e), q) by {
                        lemma_map_eq_lookup(before_v, self.counters@.take(k as int), q);
                        lemma_lookup_push_any(pre, e, q);
                        lemma_lookup_push_any(before, e, q);
                    }
                    assert(counter_map(counters@) =~= counter_map(self.counters@.take(k + 1)));
                    proof {
                        crate::keyed::lemma_lookup_none_all(before, e.0);
                    }
                    assert forall|a: int, b: int| 0 <= a < counter_entries(counters@).len() && 0 <= b < counter_entries(counters@).len()
                        && a != b implies counter_entries(counters@)[a].0 != counter_entries(counters@)[b].0 by {
                        assert(counter_entries(counters@)[before.len() as int] == e);
                        if a < before.len() {
                            assert(counter_entries(counters@)[a] == before[a]);
                        }
                        if b < before.len() {
                            assert(counter_entries(counters@)[b] == before[b]);
                        }
                    }
                },
            }
            k = k + 1;
        }
        assert(self.counters@.take(k as int) =~= self.counters@);
        SaveData { current_room_id: self.current_room_id.clone(), flags, counters, has_quit: self.has_quit }
    }

    /// The state that saved data describes.
    pub fn from_save_data(d: SaveData) -> (r: GameState)
        ensures
            r@ == d.model(),
    {
        let ghost names = string_seqs(d.flags@);
        let mut flags: Vec<FlagId> = Vec::new();
        let mut i: usize = 0;
        while i < d.flags.len()
            invariant
                i <= d.flags.len(),
                names == string_seqs(d.flags@),
                flags.len() == i,
                forall|j: int| 0 <= j < i ==> #[trigger] flags@[j].0@ == names[j],
            decreases d.flags.len() - i,
        {
            flags.push(FlagId(d.flags[i].clone()));
            i = i + 1;
        }
        let r = GameState { current_room_id: d.current_room_id, flags, counters: d.counters, has_quit: d.has_quit };
        assert(flag_set(r.flags@) =~= names.to_set()) by {
            assert forall|f: Seq<char>| names.to_set().contains(f) implies #[trigger] flag_set(r.flags@).contains(f) by {
                let j = choose|j: int| 0 <= j < names.len() && names[j] == f;
                assert(r.flags@[j].0@ == names[j]);
            }
            assert forall|f: Seq<char>| #[trigger] flag_set(r.flags@).contains(f) implies names.to_set().contains(f) by {
                let j = choose|j: int| 0 <= j < r.flags@.len() && #[trigger] r.flags@[j].0@ == f;
                assert(names[j] == f);
            }
        }
        r
    }
}

} // verus!
