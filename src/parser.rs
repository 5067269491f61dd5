use vstd::prelude::*;
use crate::text::{
    trim, starts_with, find, rfind, parse_int, words, ends_with_char, trim_range, starts_with_at,
    equals_at, find_at, rfind_at, parse_int_at, words_at, string_at, lemma_find_from_some,
    lemma_rfind_below_some,
};
use crate::world::{
    Action, ActionModel, Choice, ChoiceModel, Condition, CondModel, ConditionalDescription, DescModel, FlagId,
    opt_cond_model,
};
use crate::text::{join_spaced, join_with_spaces, decimal, digit_char, push_decimal, chars_of};
use crate::errors::{GameError, GameResult};
use crate::world::{Room, RoomModel, World, WorldModel, string_seqs};
use vstd::string::StringExecFns;

verus! {

/// The part of `t` after the prefix `p`.
pub open spec fn after(t: Seq<char>, p: Seq<char>) -> Seq<char> {
    t.subrange(p.len() as int, t.len() as int)
}

/// `t` holds `op` with a counter name before it and an integer after it.
pub open spec fn counter_op(t: Seq<char>, op: Seq<char>) -> Option<(Seq<char>, i32)> {
    match find(t, op) {
        None => None,
        Some(p) => match parse_int(trim(t.subrange(p + op.len(), t.len() as int))) {
            None => None,
            Some(v) => Some((trim(t.subrange(0, p)), v)),
        },
    }
}

/// One non-compound condition. `!f` negates a flag; `n OP v` compares a
/// counter, trying the operators ` >= `, ` <= `, ` > `, ` < `, ` = `, ` != `
/// in that order (an operator whose right side is not an integer is
/// skipped); `>=`, `<=` and `!=` are expressed through `Or` of the strict
/// comparisons and equality. Anything else names a flag.
pub open spec fn single_condition(s: Seq<char>) -> CondModel {
    let t = trim(s);
    if t.len() > 0 && t[0] == '!' {
        CondModel::NotHasFlag(t.drop_first())
    } else if let Some((n, v)) = counter_op(t, " >= "@) {
        CondModel::Or(Box::new(CondModel::CounterGreaterThan(n, v)), Box::new(CondModel::CounterEquals(n, v)))
    } else if let Some((n, v)) = counter_op(t, " <= "@) {
        CondModel::Or(Box::new(CondModel::CounterLessThan(n, v)), Box::new(CondModel::CounterEquals(n, v)))
    } else if let Some((n, v)) = counter_op(t, " > "@) {
        CondModel::CounterGreaterThan(n, v)
    } else if let Some((n, v)) = counter_op(t, " < "@) {
        CondModel::CounterLessThan(n, v)
    } else if let Some((n, v)) = counter_op(t, " = "@) {
        CondModel::CounterEquals(n, v)
    } else if let Some((n, v)) = counter_op(t, " != "@) {
        CondModel::Or(Box::new(CondModel::CounterLessThan(n, v)), Box::new(CondModel::CounterGreaterThan(n, v)))
    } else {
        CondModel::HasFlag(t)
    }
}

/// A condition expression: at the first ` & ` an `And` of two single
/// conditions, else at the first ` | ` an `Or`, else one single condition.
pub open spec fn condition_of(s: Seq<char>) -> CondModel {
    let t = trim(s);
    match find(t, " & "@) {
        Some(p) => CondModel::And(
            Box::new(single_condition(t.subrange(0, p))),
            Box::new(single_condition(t.subrange(p + " & "@.len(), t.len() as int))),
        ),
        None => match find(t, " | "@) {
            Some(p) => CondModel::Or(
                Box::new(single_condition(t.subrange(0, p))),
                Box::new(single_condition(t.subrange(p + " | "@.len(), t.len() as int))),
            ),
            None => single_condition(t),
        },
    }
}

/// An action expression; `None` when a `count=` line is malformed.
pub open spec fn action_of(s: Seq<char>) -> Option<ActionModel> {
    let a = trim(s);
    if starts_with(a, "say: "@) {
        Some(ActionModel::DisplayText(after(a, "say: "@)))
    } else if starts_with(a, "goto: "@) {
        Some(ActionModel::GoTo(after(a, "goto: "@)))
    } else if starts_with(a, "@"@) {
        Some(ActionModel::GoTo(after(a, "@"@)))
    } else if starts_with(a, "flag+ "@) {
        Some(ActionModel::SetFlag(after(a, "flag+ "@)))
    } else if starts_with(a, "flag- "@) {
        Some(ActionModel::RemoveFlag(after(a, "flag- "@)))
    } else if starts_with(a, "count+ "@) {
        Some(ActionModel::IncrementCounter(after(a, "count+ "@)))
    } else if starts_with(a, "count- "@) {
        Some(ActionModel::DecrementCounter(after(a, "count- "@)))
    } else if starts_with(a, "count= "@) {
        let ws = words(after(a, "count= "@));
        if ws.len() == 2 && parse_int(ws[1]) is Some {
            Some(ActionModel::SetCounter(ws[0], parse_int(ws[1]).unwrap()))
        } else {
            None
        }
    } else if a == "quit"@ || a == "end"@ {
        Some(ActionModel::Quit)
    } else {
        Some(ActionModel::DisplayText(a))
    }
}

fn counter_op_at(v: &Vec<char>, lo: usize, hi: usize, op: &str) -> (r: Option<(String, i32)>)
    requires
        lo <= hi <= v.len(),
    ensures
        match r {
            Some((n, x)) => counter_op(v@.subrange(lo as int, hi as int), op@) == Some((n@, x)),
            None => counter_op(v@.subrange(lo as int, hi as int), op@) is None,
        },
{
    let ghost t = v@.subrange(lo as int, hi as int);
    match find_at(v, lo, hi, op) {
        None => None,
        Some(i) => {
            let n = op.unicode_len();
            proof {
                lemma_find_from_some(t, op@, 0);
            }
            let (va, vb) = trim_range(v, i + n, hi);
            assert(t.subrange(i - lo + op@.len(), t.len() as int) =~= v@.subrange(i + n, hi as int));
            match parse_int_at(v, va, vb) {
                None => None,
                Some(x) => {
                    let (na, nb) = trim_range(v, lo, i);
                    assert(t.subrange(0, i - lo) =~= v@.subrange(lo as int, i as int));
                    Some((string_at(v, na, nb), x))
                },
            }
        },
    }
}

fn or_of(a: Condition, b: Condition) -> (r: Condition)
    ensures
        r@ == CondModel::Or(Box::new(a@), Box::new(b@)),
{
    Condition::Or(Box::new(a), Box::new(b))
}

/// Parses one non-compound condition from `v[lo..hi]`.
fn parse_single_condition(v: &Vec<char>, lo: usize, hi: usize) -> (r: Condition)
    requires
        lo <= hi <= v.len(),
    ensures
        r@ == single_condition(v@.subrange(lo as int, hi as int)),
{
    let (a, b) = trim_range(v, lo, hi);
    let ghost t = v@.subrange(a as int, b as int);
    if a < b && v[a] == '!' {
        assert(t.drop_first() =~= v@.subrange(a + 1, b as int));
        return Condition::NotHasFlag(FlagId(string_at(v, a + 1, b)));
    }
    if let Some((n, x)) = counter_op_at(v, a, b, " >= ") {
        let m = n.clone();
        return or_of(Condition::CounterGreaterThan(n, x), Condition::CounterEquals(m, x));
    }
    if let Some((n, x)) = counter_op_at(v, a, b, " <= ") {
        let m = n.clone();
        return or_of(Condition::CounterLessThan(n, x), Condition::CounterEquals(m, x));
    }
    if let Some((n, x)) = counter_op_at(v, a, b, " > ") {
        return Condition::CounterGreaterThan(n, x);
    }
    if let Some((n, x)) = counter_op_at(v, a, b, " < ") {
        return Condition::CounterLessThan(n, x);
    }
    if let Some((n, x)) = counter_op_at(v, a, b, " = ") {
        return Condition::CounterEquals(n, x);
    }
    if let Some((n, x)) = counter_op_at(v, a, b, " != ") {
        let m = n.clone();
        return or_of(Condition::CounterLessThan(n, x), Condition::CounterGreaterThan(m, x));
    }
    Condition::HasFlag(FlagId(string_at(v, a, b)))
}

/// Parses a condition expression from `v[lo..hi]`.
pub(crate) fn parse_condition_at(v: &Vec<char>, lo: usize, hi: usize) -> (r: Condition)
    requires
        lo <= hi <= v.len(),
    ensures
        r@ == condition_of(v@.subrange(lo as int, hi as int)),
{
    let (a, b) = trim_range(v, lo, hi);
    let ghost t = v@.subrange(a as int, b as int);
    if let Some(i) = find_at(v, a, b, " & ") {
        let n = " & ".unicode_len();
        proof {
            lemma_find_from_some(t, " & "@, 0);
        }
        assert(t.subrange(0, i - a) =~= v@.subrange(a as int, i as int));
        assert(t.subrange(i - a + n, t.len() as int) =~= v@.subrange(i + n, b as int));
        let l = parse_single_condition(v, a, i);
        let r = parse_single_condition(v, i + n, b);
        return Condition::And(Box::new(l), Box::new(r));
    }
    if let Some(i) = find_at(v, a, b, " | ") {
        let n = " | ".unicode_len();
        proof {
            lemma_find_from_some(t, " | "@, 0);
        }
        assert(t.subrange(0, i - a) =~= v@.subrange(a as int, i as int));
        assert(t.subrange(i - a + n, t.len() as int) =~= v@.subrange(i + n, b as int));
        let l = parse_single_condition(v, a, i);
        let r = parse_single_condition(v, i + n, b);
        return or_of(l, r);
    }
    parse_single_condition(v, a, b)
}

/// `v[a..b]` after the prefix `p`, as a new string, when it starts with `p`.
fn rest_after(v: &Vec<char>, a: usize, b: usize, p: &str) -> (r: Option<String>)
    requires
        a <= b <= v.len(),
    ensures
        match r {
            Some(x) => starts_with(v@.subrange(a as int, b as int), p@)
                && x@ == after(v@.subrange(a as int, b as int), p@),
            None => !starts_with(v@.subrange(a as int, b as int), p@),
        },
{
    if starts_with_at(v, a, b, p) {
        let n = p.unicode_len();
        assert(after(v@.subrange(a as int, b as int), p@) =~= v@.subrange(a + n, b as int));
        Some(string_at(v, a + n, b))
    } else {
        None
    }
}

/// Parses an action expression from `v[lo..hi]`.
pub(crate) fn parse_action_at(v: &Vec<char>, lo: usize, hi: usize) -> (r: Option<Action>)
    requires
        lo <= hi <= v.len(),
    ensures
        match r {
            Some(x) => action_of(v@.subrange(lo as int, hi as int)) == Some(x@),
            None => action_of(v@.subrange(lo as int, hi as int)) is None,
        },
{
    let (a, b) = trim_range(v, lo, hi);
    let ghost t = v@.subrange(a as int, b as int);
    if let Some(x) = rest_after(v, a, b, "say: ") {
        return Some(Action::DisplayText(x));
    }
    if let Some(x) = rest_after(v, a, b, "goto: ") {
        return Some(Action::GoTo(x));
    }
    if let Some(x) = rest_after(v, a, b, "@") {
        return Some(Action::GoTo(x));
    }
    if let Some(x) = rest_after(v, a, b, "flag+ ") {
        return Some(Action::SetFlag(FlagId(x)));
    }
    if let Some(x) = rest_after(v, a, b, "flag- ") {
        return Some(Action::RemoveFlag(FlagId(x)));
    }
    if let Some(x) = rest_after(v, a, b, "count+ ") {
        return Some(Action::IncrementCounter(x));
    }
    if let Some(x) = rest_after(v, a, b, "count- ") {
        return Some(Action::DecrementCounter(x));
    }
    if starts_with_at(v, a, b, "count= ") {
        let n = "count= ".unicode_len();
        assert(after(t, "count= "@) =~= v@.subrange(a + n, b as int));
        let ws = words_at(v, a + n, b);
        let ghost wm = ws@.map_values(|w: (usize, usize)| v@.subrange(w.0 as int, w.1 as int));
        if ws.len() == 2 {
            assert(wm[1] == v@.subrange(ws@[1].0 as int, ws@[1].1 as int));
            assert(wm[0] == v@.subrange(ws@[0].0 as int, ws@[0].1 as int));
            if let Some(x) = parse_int_at(v, ws[1].0, ws[1].1) {
                return Some(Action::SetCounter(string_at(v, ws[0].0, ws[0].1), x));
            }
        }
        return None;
    }
    if equals_at(v, a, b, "quit") || equals_at(v, a, b, "end") {
        return Some(Action::Quit);
    }
    Some(Action::DisplayText(string_at(v, a, b)))
}

// ---------------------------------------------------------------------------
// The document grammar, one line at a time
// ---------------------------------------------------------------------------

/// A room as parsed, before its choices receive ids.
pub struct DraftModel {
    pub descriptions: Seq<DescModel>,
    pub choices: Seq<ChoiceModel>,
}

/// The parser's state between lines.
pub struct ParseModel {
    pub title: Option<Seq<char>>,
    pub start: Seq<char>,
    pub rooms: Seq<(Seq<char>, DraftModel)>,
    pub room: Option<(Seq<char>, DraftModel)>,
    pub choice: Option<ChoiceModel>,
    pub in_desc: bool,
    pub desc_cond: Option<CondModel>,
    pub desc_lines: Seq<Seq<char>>,
    pub descs: Seq<DescModel>,
}

pub open spec fn initial_parse() -> ParseModel {
    ParseModel {
        title: None,
        start: Seq::empty(),
        rooms: Seq::empty(),
        room: None,
        choice: None,
        in_desc: false,
        desc_cond: None,
        desc_lines: Seq::empty(),
        descs: Seq::empty(),
    }
}

/// The first index at or after `i` whose key is `k`.
pub open spec fn key_index_from<V>(s: Seq<(Seq<char>, V)>, k: Seq<char>, i: int) -> Option<int>
    decreases s.len() - i,
{
    if i < 0 || i >= s.len() {
        None
    } else if s[i].0 == k {
        Some(i)
    } else {
        key_index_from(s, k, i + 1)
    }
}

/// Stores a finished room: a room with the same id is replaced in place,
/// otherwise the room is appended.
pub open spec fn commit_room(rooms: Seq<(Seq<char>, DraftModel)>, r: (Seq<char>, DraftModel)) -> Seq<(Seq<char>, DraftModel)> {
    match key_index_from(rooms, r.0, 0) {
        Some(i) => rooms.update(i, r),
        None => rooms.push(r),
    }
}

pub open spec fn with_choice(r: (Seq<char>, DraftModel), c: Option<ChoiceModel>) -> (Seq<char>, DraftModel) {
    match c {
        Some(c) => (r.0, DraftModel { descriptions: r.1.descriptions, choices: r.1.choices.push(c) }),
        None => r,
    }
}

/// Ends a block of description lines.
pub open spec fn finish_desc(st: ParseModel) -> ParseModel {
    let descs = if st.desc_lines.len() > 0 {
        st.descs.push(DescModel { condition: st.desc_cond, text: join_spaced(st.desc_lines) })
    } else {
        st.descs
    };
    let descs = if descs.len() == 0 { seq![DescModel { condition: None, text: Seq::empty() }] } else { descs };
    ParseModel {
        room: match st.room {
            Some(r) => Some((r.0, DraftModel { descriptions: descs, choices: r.1.choices })),
            None => None,
        },
        in_desc: false,
        desc_cond: None,
        desc_lines: Seq::empty(),
        descs: Seq::empty(),
        ..st
    }
}

/// A trimmed, non-empty line inside a description block that is not a heading.
pub open spec fn desc_step(st: ParseModel, t: Seq<char>) -> ParseModel {
    if t[0] == '[' && t.last() == ']' {
        let c = Some(condition_of(t.subrange(1, t.len() - 1)));
        if st.desc_lines.len() > 0 {
            ParseModel {
                descs: st.descs.push(DescModel { condition: st.desc_cond, text: join_spaced(st.desc_lines) }),
                desc_lines: Seq::empty(),
                desc_cond: c,
                ..st
            }
        } else {
            ParseModel { desc_cond: c, ..st }
        }
    } else {
        ParseModel { desc_lines: st.desc_lines.push(t), ..st }
    }
}

/// Text and gate of a choice heading (the part after `### `).
pub open spec fn choice_header(content: Seq<char>) -> (Seq<char>, Option<CondModel>) {
    match rfind(content, '[') {
        Some(b) => if ends_with_char(content, ']') {
            (trim(content.subrange(0, b)), Some(condition_of(content.subrange(b + 1, content.len() - 1))))
        } else {
            (trim(content), None)
        },
        None => (trim(content), None),
    }
}

pub open spec fn open_room(st: ParseModel, id: Seq<char>) -> ParseModel {
    let st1 = match st.room {
        Some(r) => ParseModel { rooms: commit_room(st.rooms, with_choice(r, st.choice)), choice: None, ..st },
        None => st,
    };
    ParseModel {
        room: Some((id, DraftModel { descriptions: Seq::empty(), choices: Seq::empty() })),
        in_desc: true,
        desc_cond: None,
        desc_lines: Seq::empty(),
        descs: Seq::empty(),
        ..st1
    }
}

pub open spec fn open_choice(st: ParseModel, content: Seq<char>) -> ParseModel {
    let room = match st.room {
        Some(r) => Some(with_choice(r, st.choice)),
        None => None,
    };
    let h = choice_header(content);
    ParseModel { room, choice: Some(ChoiceModel { text: h.0, condition: h.1, actions: Seq::empty() }), ..st }
}

pub open spec fn action_step(st: ParseModel, a: Seq<char>) -> ParseModel {
    match st.choice {
        Some(c) => match action_of(a) {
            Some(x) => ParseModel {
                choice: Some(ChoiceModel { text: c.text, condition: c.condition, actions: c.actions.push(x) }),
                ..st
            },
            None => st,
        },
        None => st,
    }
}

/// A trimmed line outside a description block.
pub open spec fn main_step(st: ParseModel, t: Seq<char>) -> ParseModel {
    if t.len() == 0 || starts_with(t, "<!--"@) {
        st
    } else if starts_with(t, "# "@) {
        ParseModel { title: Some(trim(after(t, "# "@))), ..st }
    } else if starts_with(t, "@start "@) {
        ParseModel { start: trim(after(t, "@start "@)), ..st }
    } else if starts_with(t, "## @room "@) {
        open_room(st, trim(after(t, "## @room "@)))
    } else if starts_with(t, "### "@) {
        open_choice(st, after(t, "### "@))
    } else if starts_with(t, "- "@) {
        action_step(st, trim(after(t, "- "@)))
    } else {
        st
    }
}

/// The effect of one line of the document.
pub open spec fn parse_step(st: ParseModel, line: Seq<char>) -> ParseModel {
    let t = trim(line);
    if st.in_desc {
        if t.len() == 0 {
            st
        } else if starts_with(t, "#"@) {
            main_step(finish_desc(st), t)
        } else {
            desc_step(st, t)
        }
    } else {
        main_step(st, t)
    }
}

/// A room as parsed, before its choices receive ids.
pub struct Draft {
    pub descriptions: Vec<ConditionalDescription>,
    pub choices: Vec<Choice>,
}

impl View for Draft {
    type V = DraftModel;

    open spec fn view(&self) -> DraftModel {
        DraftModel {
            descriptions: self.descriptions@.map_values(|d: ConditionalDescription| d@),
            choices: self.choices@.map_values(|c: Choice| c@),
        }
    }
}

pub open spec fn drafts_model(s: Seq<(String, Draft)>) -> Seq<(Seq<char>, DraftModel)> {
    s.map_values(|e: (String, Draft)| (e.0@, e.1@))
}

pub open spec fn opt_draft_model(o: Option<(String, Draft)>) -> Option<(Seq<char>, DraftModel)> {
    match o {
        Some(e) => Some((e.0@, e.1@)),
        None => None,
    }
}

pub open spec fn opt_choice_model(o: Option<Choice>) -> Option<ChoiceModel> {
    match o {
        Some(c) => Some(c@),
        None => None,
    }
}

pub open spec fn opt_string_model(o: Option<String>) -> Option<Seq<char>> {
    match o {
        Some(s) => Some(s@),
        None => None,
    }
}

/// Line-by-line parser of a story document.
pub struct StoryParser {
    pub title: Option<String>,
    pub start: String,
    pub rooms: Vec<(String, Draft)>,
    pub room: Option<(String, Draft)>,
    pub choice: Option<Choice>,
    pub in_desc: bool,
    pub desc_cond: Option<Condition>,
    pub desc_lines: Vec<String>,
    pub descs: Vec<ConditionalDescription>,
}

impl View for StoryParser {
    type V = ParseModel;

    open spec fn view(&self) -> ParseModel {
        ParseModel {
            title: opt_string_model(self.title),
            start: self.start@,
            rooms: drafts_model(self.rooms@),
            room: opt_draft_model(self.room),
            choice: opt_choice_model(self.choice),
            in_desc: self.in_desc,
            desc_cond: opt_cond_model(self.desc_cond),
            desc_lines: self.desc_lines@.map_values(|l: String| l@),
            descs: self.descs@.map_values(|d: ConditionalDescription| d@),
        }
    }
}

proof fn lemma_key_index_first<V>(s: Seq<(Seq<char>, V)>, k: Seq<char>, i: int, j: int)
    requires
        0 <= j <= i < s.len(),
        s[i].0 == k,
        forall|m: int| 0 <= m < i ==> s[m].0 != k,
    ensures
        key_index_from(s, k, j) == Some(i),
    decreases i - j,
{
    if j < i {
        lemma_key_index_first(s, k, i, j + 1);
    }
}

proof fn lemma_key_index_none<V>(s: Seq<(Seq<char>, V)>, k: Seq<char>, j: int)
    requires
        0 <= j,
        forall|m: int| 0 <= m < s.len() ==> s[m].0 != k,
    ensures
        key_index_from(s, k, j) is None,
    decreases s.len() - j,
{
    if j < s.len() {
        lemma_key_index_none(s, k, j + 1);
    }
}

fn commit_draft(rooms: &mut Vec<(String, Draft)>, r: (String, Draft))
    ensures
        drafts_model(final(rooms)@) == commit_room(drafts_model(old(rooms)@), (r.0@, r.1@)),
{
    let ghost m = drafts_model(rooms@);
    let ghost rm = (r.0@, r.1@);
    match crate::keyed::find_entry(rooms, &r.0) {
        Some(i) => {
            proof {
                lemma_key_index_first(m, r.0@, i as int, 0);
            }
            rooms.set(i, r);
            assert(drafts_model(rooms@) =~= m.update(i as int, rm));
        },
        None => {
            proof {
                lemma_key_index_none(m, r.0@, 0);
            }
            rooms.push(r);
            assert(drafts_model(rooms@) =~= m.push(rm));
        },
    }
}

fn add_choice(r: (String, Draft), c: Option<Choice>) -> (out: (String, Draft))
    ensures
        (out.0@, out.1@) == with_choice((r.0@, r.1@), opt_choice_model(c)),
{
    match c {
        Some(c) => {
            let (id, d) = r;
            let ghost before = d.choices@;
            let mut choices = d.choices;
            choices.push(c);
            let out = (id, Draft { descriptions: d.descriptions, choices });
            assert(out.1@.choices =~= d@.choices.push(c@));
            out
        },
        None => r,
    }
}

/// The text and gate of a choice heading held in `v[a..b]`.
fn parse_choice_header(v: &Vec<char>, a: usize, b: usize) -> (r: (String, Option<Condition>))
    requires
        a <= b <= v.len(),
    ensures
        (r.0@, opt_cond_model(r.1)) == choice_header(v@.subrange(a as int, b as int)),
{
    let ghost t = v@.subrange(a as int, b as int);
    match rfind_at(v, a, b, '[') {
        Some(k) => {
            proof {
                lemma_rfind_below_some(t, '[', t.len() as int);
            }
            if a < b && v[b - 1] == ']' {
                assert(t.last() == v@[b - 1]);
                assert(t[k - a] == v@[k as int]);
                let (x, y) = trim_range(v, a, k);
                assert(t.subrange(0, k - a) =~= v@.subrange(a as int, k as int));
                assert(t.subrange(k - a + 1, t.len() - 1) =~= v@.subrange(k + 1, b - 1));
                let c = parse_condition_at(v, k + 1, b - 1);
                (string_at(v, x, y), Some(c))
            } else {
                let (x, y) = trim_range(v, a, b);
                (string_at(v, x, y), None)
            }
        },
        None => {
            let (x, y) = trim_range(v, a, b);
            (string_at(v, x, y), None)
        },
    }
}

/// `trim(after(v[a..b], p))` as a range, when `v[a..b]` starts with `p`.
fn trimmed_rest(v: &Vec<char>, a: usize, b: usize, p: &str) -> (r: Option<(usize, usize)>)
    requires
        a <= b <= v.len(),
    ensures
        match r {
            Some((x, y)) => starts_with(v@.subrange(a as int, b as int), p@) && a <= x <= y <= b
                && v@.subrange(x as int, y as int) == trim(after(v@.subrange(a as int, b as int), p@)),
            None => !starts_with(v@.subrange(a as int, b as int), p@),
        },
{
    if starts_with_at(v, a, b, p) {
        let n = p.unicode_len();
        assert(after(v@.subrange(a as int, b as int), p@) =~= v@.subrange(a + n, b as int));
        Some(trim_range(v, a + n, b))
    } else {
        None
    }
}

impl StoryParser {
    pub fn new() -> (r: StoryParser)
        ensures
            r@ == initial_parse(),
    {
        let r = StoryParser {
            title: None,
            start: String::new(),
            rooms: Vec::new(),
            room: None,
            choice: None,
            in_desc: false,
            desc_cond: None,
            desc_lines: Vec::new(),
            descs: Vec::new(),
        };
        assert(r@.rooms =~= Seq::<(Seq<char>, DraftModel)>::empty());
        assert(r@.desc_lines =~= Seq::<Seq<char>>::empty());
        assert(r@.descs =~= Seq::<DescModel>::empty());
        r
    }

    fn finish_desc(&mut self)
        ensures
            final(self)@ == finish_desc(old(self)@),
    {
        let ghost st = self@;
        let mut descs: Vec<ConditionalDescription> = Vec::new();
        std::mem::swap(&mut descs, &mut self.descs);
        let cond = self.desc_cond.take();
        if self.desc_lines.len() > 0 {
            let text = join_with_spaces(&self.desc_lines);
            descs.push(ConditionalDescription { condition: cond, text });
        }
        if descs.len() == 0 {
            descs.push(ConditionalDescription { condition: None, text: String::new() });
        }
        let ghost dm = descs@.map_values(|d: ConditionalDescription| d@);
        proof {
            let d1 = if st.desc_lines.len() > 0 {
                st.descs.push(DescModel { condition: st.desc_cond, text: join_spaced(st.desc_lines) })
            } else {
                st.descs
            };
            let d2 = if d1.len() == 0 { seq![DescModel { condition: None, text: Seq::empty() }] } else { d1 };
            assert(dm =~= d2);
        }
        self.room = match self.room.take() {
            Some((id, d)) => Some((id, Draft { descriptions: descs, choices: d.choices })),
            None => None,
        };
        self.in_desc = false;
        self.desc_lines = Vec::new();
        assert(self@.desc_lines =~= Seq::<Seq<char>>::empty());
        assert(self@.descs =~= Seq::<DescModel>::empty());
        assert(self@ == finish_desc(st));
    }

    fn desc_step(&mut self, v: &Vec<char>, a: usize, b: usize)
        requires
            a < b <= v.len(),
        ensures
            final(self)@ == desc_step(old(self)@, v@.subrange(a as int, b as int)),
    {
        let ghost st = self@;
        let ghost t = v@.subrange(a as int, b as int);
        assert(t[0] == v@[a as int] && t.last() == v@[b - 1]);
        if v[a] == '[' && v[b - 1] == ']' {
            assert(t.subrange(1, t.len() - 1) =~= v@.subrange(a + 1, b - 1));
            let c = parse_condition_at(v, a + 1, b - 1);
            if self.desc_lines.len() > 0 {
                let text = join_with_spaces(&self.desc_lines);
                let prev = self.desc_cond.take();
                self.descs.push(ConditionalDescription { condition: prev, text });
                self.desc_lines = Vec::new();
                assert(self@.desc_lines =~= Seq::<Seq<char>>::empty());
                assert(self@.descs =~= st.descs.push(DescModel { condition: st.desc_cond, text: join_spaced(st.desc_lines) }));
            }
            self.desc_cond = Some(c);
        } else {
            let line = string_at(v, a, b);
            self.desc_lines.push(line);
            assert(self@.desc_lines =~= st.desc_lines.push(t));
        }
        assert(self@ == desc_step(st, t));
    }

    fn open_room(&mut self, id: String)
        ensures
            final(self)@ == open_room(old(self)@, id@),
    {
        let ghost st = self@;
        if let Some(r) = self.room.take() {
            let c = self.choice.take();
            let r2 = add_choice(r, c);
            commit_draft(&mut self.rooms, r2);
        }
        self.room = Some((id, Draft { descriptions: Vec::new(), choices: Vec::new() }));
        self.in_desc = true;
        self.desc_cond = None;
        self.desc_lines = Vec::new();
        self.descs = Vec::new();
        assert(self@.desc_lines =~= Seq::<Seq<char>>::empty());
        assert(self@.descs =~= Seq::<DescModel>::empty());
        assert(self@.room.unwrap().1.descriptions =~= Seq::<DescModel>::empty());
        assert(self@.room.unwrap().1.choices =~= Seq::<ChoiceModel>::empty());
        assert(self@ == open_room(st, id@));
    }

    fn open_choice(&mut self, v: &Vec<char>, a: usize, b: usize)
        requires
            a <= b <= v.len(),
        ensures
            final(self)@ == open_choice(old(self)@, v@.subrange(a as int, b as int)),
    {
        let ghost st = self@;
        let c = self.choice.take();
        if let Some(r) = self.room.take() {
            self.room = Some(add_choice(r, c));
        }
        let (text, condition) = parse_choice_header(v, a, b);
        let choice = Choice { text, condition, actions: Vec::new() };
        assert(choice@.actions =~= Seq::<ActionModel>::empty());
        self.choice = Some(choice);
        assert(self@ == open_choice(st, v@.subrange(a as int, b as int)));
    }

    fn action_step(&mut self, v: &Vec<char>, a: usize, b: usize)
        requires
            a <= b <= v.len(),
        ensures
            final(self)@ == action_step(old(self)@, v@.subrange(a as int, b as int)),
    {
        let ghost st = self@;
        if self.choice.is_some() {
            if let Some(x) = parse_action_at(v, a, b) {
                let c = self.choice.take().unwrap();
                let ghost cm = c@;
                let mut actions = c.actions;
                actions.push(x);
                let nc = Choice { text: c.text, condition: c.condition, actions };
                assert(nc@.actions =~= cm.actions.push(x@));
                self.choice = Some(nc);
                assert(self@ == action_step(st, v@.subrange(a as int, b as int)));
            }
        }
    }

    fn main_step(&mut self, v: &Vec<char>, a: usize, b: usize)
        requires
            a <= b <= v.len(),
        ensures
            final(self)@ == main_step(old(self)@, v@.subrange(a as int, b as int)),
    {
        let ghost t = v@.subrange(a as int, b as int);
        if a == b || starts_with_at(v, a, b, "<!--") {
            return;
        }
        if let Some((x, y)) = trimmed_rest(v, a, b, "# ") {
            self.title = Some(string_at(v, x, y));
            return;
        }
        if let Some((x, y)) = trimmed_rest(v, a, b, "@start ") {
            self.start = string_at(v, x, y);
            return;
        }
        if let Some((x, y)) = trimmed_rest(v, a, b, "## @room ") {
            self.open_room(string_at(v, x, y));
            return;
        }
        if starts_with_at(v, a, b, "### ") {
            let n = "### ".unicode_len();
            assert(after(t, "### "@) =~= v@.subrange(a + n, b as int));
            self.open_choice(v, a + n, b);
            return;
        }
        if let Some((x, y)) = trimmed_rest(v, a, b, "- ") {
            self.action_step(v, x, y);
        }
    }

    /// Feeds one line of the document.
    pub fn feed_line(&mut self, v: &Vec<char>, lo: usize, hi: usize)
        requires
            lo <= hi <= v.len(),
        ensures
            final(self)@ == parse_step(old(self)@, v@.subrange(lo as int, hi as int)),
    {
        let (a, b) = trim_range(v, lo, hi);
        if self.in_desc {
            if a == b {
                return;
            }
            if starts_with_at(v, a, b, "#") {
                self.finish_desc();
                self.main_step(v, a, b);
            } else {
                self.desc_step(v, a, b);
            }
        } else {
            self.main_step(v, a, b);
        }
    }
}

/// The first position at or after `i` holding a line break, or the length.
pub open spec fn next_break(s: Seq<char>, i: int) -> int
    decreases s.len() - i,
{
    if i >= s.len() || i < 0 {
        s.len() as int
    } else if s[i] == '\n' {
        i
    } else {
        next_break(s, i + 1)
    }
}

/// The lines of `s[i..]`, split at each line break.
pub open spec fn lines_from(s: Seq<char>, i: int) -> Seq<Seq<char>>
    decreases s.len() + 1 - i,
{
    if i < 0 || i > s.len() {
        Seq::empty()
    } else {
        let j = next_break(s, i);
        if j >= s.len() || j < i {
            seq![s.subrange(i, s.len() as int)]
        } else {
            seq![s.subrange(i, j)] + lines_from(s, j + 1)
        }
    }
}

/// The state after feeding `ls` in order.
pub open spec fn run_lines(st: ParseModel, ls: Seq<Seq<char>>) -> ParseModel
    decreases ls.len(),
{
    if ls.len() == 0 {
        st
    } else {
        run_lines(parse_step(st, ls[0]), ls.drop_first())
    }
}

/// A parsed story: its title, starting room id and rooms in document order.
pub struct StoryModel {
    pub title: Option<Seq<char>>,
    pub start: Seq<char>,
    pub rooms: Seq<(Seq<char>, DraftModel)>,
}

/// Closes whatever is open at the end of the document.
pub open spec fn finish_parse(st: ParseModel) -> StoryModel {
    let st1 = if st.in_desc { finish_desc(st) } else { st };
    let rooms = match st1.room {
        Some(r) => commit_room(st1.rooms, with_choice(r, st1.choice)),
        None => st1.rooms,
    };
    StoryModel { title: st1.title, start: st1.start, rooms }
}

/// The story a document describes; `None` when it names no starting room.
pub open spec fn parse_story(s: Seq<char>) -> Option<StoryModel> {
    let fin = finish_parse(run_lines(initial_parse(), lines_from(s, 0)));
    if fin.start.len() == 0 {
        None
    } else {
        Some(fin)
    }
}

/// The id given to the `n`-th choice of a story.
pub open spec fn choice_name(n: nat) -> Seq<char> {
    "choice_"@ + decimal(n)
}

/// The number of choices in the first `i` rooms.
pub open spec fn choices_before(rooms: Seq<(Seq<char>, DraftModel)>, i: int) -> nat
    decreases i,
{
    if i <= 0 || i > rooms.len() {
        0
    } else {
        choices_before(rooms, i - 1) + rooms[i - 1].1.choices.len()
    }
}

/// The ids of the choices of room `i`.
pub open spec fn room_choice_ids(rooms: Seq<(Seq<char>, DraftModel)>, i: int) -> Seq<Seq<char>> {
    Seq::new(rooms[i].1.choices.len(), |k: int| choice_name(choices_before(rooms, i) + k as nat))
}

/// The choices of the first `i` rooms with their ids, in order.
pub open spec fn numbered_choices(rooms: Seq<(Seq<char>, DraftModel)>, i: int) -> Seq<(Seq<char>, ChoiceModel)>
    decreases i,
{
    if i <= 0 || i > rooms.len() {
        Seq::empty()
    } else {
        numbered_choices(rooms, i - 1) + Seq::new(
            rooms[i - 1].1.choices.len(),
            |k: int| (choice_name(choices_before(rooms, i - 1) + k as nat), rooms[i - 1].1.choices[k]),
        )
    }
}

pub open spec fn world_room(rooms: Seq<(Seq<char>, DraftModel)>, i: int) -> (Seq<char>, RoomModel) {
    (rooms[i].0, RoomModel { descriptions: rooms[i].1.descriptions, choices: room_choice_ids(rooms, i) })
}

/// The world built from a parsed story: rooms in document order, each
/// choice numbered across the whole story in that order.
pub open spec fn world_of(st: StoryModel) -> WorldModel {
    WorldModel {
        rooms: Seq::new(st.rooms.len(), |i: int| world_room(st.rooms, i)),
        choices: numbered_choices(st.rooms, st.rooms.len() as int),
        starting_room_id: st.start,
    }
}

proof fn lemma_next_break_bounds(s: Seq<char>, i: int)
    requires
        0 <= i <= s.len(),
    ensures
        i <= next_break(s, i) <= s.len(),
        next_break(s, i) < s.len() ==> s[next_break(s, i)] == '\n',
    decreases s.len() - i,
{
    if i < s.len() && s[i] != '\n' {
        lemma_next_break_bounds(s, i + 1);
    }
}

proof fn lemma_lines_step(s: Seq<char>, i: int)
    requires
        0 <= i <= s.len(),
    ensures
        lines_from(s, i) == seq![s.subrange(i, next_break(s, i))] + (if next_break(s, i) >= s.len() {
            Seq::<Seq<char>>::empty()
        } else {
            lines_from(s, next_break(s, i) + 1)
        }),
{
    lemma_next_break_bounds(s, i);
    let j = next_break(s, i);
    if j >= s.len() {
        assert(seq![s.subrange(i, s.len() as int)] + Seq::<Seq<char>>::empty() =~= seq![s.subrange(i, s.len() as int)]);
    }
}

proof fn lemma_run_lines_cons(st: ParseModel, x: Seq<char>, rest: Seq<Seq<char>>)
    ensures
        run_lines(st, seq![x] + rest) == run_lines(parse_step(st, x), rest),
{
    assert((seq![x] + rest).drop_first() =~= rest);
}

/// The position of the next line break at or after `i`, or the length.
fn next_break_at(v: &Vec<char>, i: usize) -> (j: usize)
    requires
        i <= v.len(),
    ensures
        j == next_break(v@, i as int),
        i <= j <= v.len(),
{
    proof {
        lemma_next_break_bounds(v@, i as int);
    }
    let mut j = i;
    while j < v.len() && v[j] != '\n'
        invariant
            i <= j <= v.len(),
            next_break(v@, i as int) == next_break(v@, j as int),
        decreases v.len() - j,
    {
        j = j + 1;
    }
    j
}

impl StoryParser {
    /// Closes whatever is open and hands back the title, start and rooms.
    pub fn finish(self) -> (r: (Option<String>, String, Vec<(String, Draft)>))
        ensures
            ({
                let f = finish_parse(self@);
                opt_string_model(r.0) == f.title && r.1@ == f.start && drafts_model(r.2@) == f.rooms
            }),
    {
        let mut p = self;
        if p.in_desc {
            p.finish_desc();
        }
        let mut rooms = p.rooms;
        if let Some(r) = p.room {
            let r2 = add_choice(r, p.choice);
            commit_draft(&mut rooms, r2);
        }
        (p.title, p.start, rooms)
    }
}

/// Numbers the choices of the parsed rooms and builds the world.
fn build_world(rooms: Vec<(String, Draft)>, start: String) -> (w: World)
    ensures
        w@ == world_of(StoryModel { title: None, start: start@, rooms: drafts_model(rooms@) }),
{
    let ghost orig = drafts_model(rooms@);
    let mut rest = rooms;
    let mut rooms_out: Vec<(String, Room)> = Vec::new();
    let mut choices_out: Vec<(String, Choice)> = Vec::new();
    let ghost mut i: int = 0;
    while rest.len() > 0
        invariant
            0 <= i <= orig.len(),
            drafts_model(rest@) == orig.subrange(i, orig.len() as int),
            choices_out.len() == choices_before(orig, i),
            rooms_out@.map_values(|e: (String, Room)| (e.0@, e.1@)) == Seq::new(i as nat, |k: int| world_room(orig, k)),
            choices_out@.map_values(|e: (String, Choice)| (e.0@, e.1@)) == numbered_choices(orig, i),
        decreases rest.len(),
    {
        let ghost rm = drafts_model(rest@);
        assert(rm.len() == rest@.len());
        assert(orig[i] == rm[0]);
        let (id, d) = rest.remove(0);
        assert(drafts_model(rest@) =~= rm.subrange(1, rm.len() as int));
        assert(drafts_model(rest@) =~= orig.subrange(i + 1, orig.len() as int));
        let ghost dm = d@;
        let ghost base = choices_out.len();
        let ghost before = choices_out@.map_values(|e: (String, Choice)| (e.0@, e.1@));
        let mut cs = d.choices;
        let mut ids: Vec<String> = Vec::new();
        let ghost mut k: int = 0;
        while cs.len() > 0
            invariant
                0 <= k <= dm.choices.len(),
                cs@.map_values(|c: Choice| c@) == dm.choices.subrange(k, dm.choices.len() as int),
                choices_out.len() == base + k,
                string_seqs(ids@) == Seq::new(k as nat, |m: int| choice_name((base + m) as nat)),
                choices_out@.map_values(|e: (String, Choice)| (e.0@, e.1@)) == before + Seq::new(
                    k as nat,
                    |m: int| (choice_name((base + m) as nat), dm.choices[m]),
                ),
            decreases cs.len(),
        {
            let ghost cm = cs@.map_values(|c: Choice| c@);
            assert(cm.len() == cs@.len());
            assert(dm.choices[k] == cm[0]);
            let c = cs.remove(0);
            assert(cs@.map_values(|c: Choice| c@) =~= cm.subrange(1, cm.len() as int));
            assert(cs@.map_values(|c: Choice| c@) =~= dm.choices.subrange(k + 1, dm.choices.len() as int));
            let ghost old_ids = string_seqs(ids@);
            let ghost old_out = choices_out@.map_values(|e: (String, Choice)| (e.0@, e.1@));
            let mut name = String::from_str("choice_");
            push_decimal(&mut name, choices_out.len());
            assert(name@ == choice_name((base + k) as nat));
            assert(c@ == dm.choices[k]);
            ids.push(name.clone());
            choices_out.push((name, c));
            assert(string_seqs(ids@) =~= old_ids.push(choice_name((base + k) as nat)));
            assert(choices_out@.map_values(|e: (String, Choice)| (e.0@, e.1@)) =~= old_out.push((choice_name((base + k) as nat), dm.choices[k])));
            proof {
                k = k + 1;
            }
            assert(string_seqs(ids@) =~= Seq::new(k as nat, |m: int| choice_name((base + m) as nat)));
            assert(choices_out@.map_values(|e: (String, Choice)| (e.0@, e.1@)) =~= before + Seq::new(
                k as nat,
                |m: int| (choice_name((base + m) as nat), dm.choices[m]),
            ));
        }
        assert(cs@.map_values(|c: Choice| c@).len() == cs@.len());
        assert(k == dm.choices.len());
        let ghost old_rooms = rooms_out@.map_values(|e: (String, Room)| (e.0@, e.1@));
        rooms_out.push((id, Room { descriptions: d.descriptions, choices: ids }));
        assert(rooms_out@.map_values(|e: (String, Room)| (e.0@, e.1@)) =~= old_rooms.push((rooms_out@[i].0@, rooms_out@[i].1@)));
        proof {
            assert(orig[i].1 == dm);
            assert(rooms_out@.map_values(|e: (String, Room)| (e.0@, e.1@))[i].1.choices =~= room_choice_ids(orig, i));
            i = i + 1;
            assert(rooms_out@.map_values(|e: (String, Room)| (e.0@, e.1@)) =~= Seq::new(i as nat, |k: int| world_room(orig, k)));
            assert(choices_out@.map_values(|e: (String, Choice)| (e.0@, e.1@)) =~= numbered_choices(orig, i));
        }
    }
    assert(i == orig.len());
    World { rooms: rooms_out, choices: choices_out, starting_room_id: start }
}

/// Parses a story document into a world. Fails with `ValidationError` when
/// the document names no starting room; the references inside the world are
/// not checked here (see `validate_world`).
pub fn parse_markdown_story(content: &str) -> (r: GameResult<World>)
    ensures
        match parse_story(content@) {
            None => r matches Err(GameError::ValidationError(_)),
            Some(st) => r matches Ok(w) && w@ == world_of(st),
        },
        r matches Ok(w) ==> w@.wf(),
{
    let v = chars_of(content);
    let ghost s = v@;
    let n = v.len();
    let mut p = StoryParser::new();
    let mut i: usize = 0;
    let mut done = false;
    while !done
        invariant
            n == v.len(),
            s == v@,
            !done ==> i <= n,
            run_lines(initial_parse(), lines_from(s, 0)) == if done { p@ } else { run_lines(p@, lines_from(s, i as int)) },
        decreases (if done { 0 } else { n + 1 - i }),
    {
        let j = next_break_at(&v, i);
        proof {
            lemma_lines_step(s, i as int);
            lemma_run_lines_cons(p@, s.subrange(i as int, j as int),
                if j >= n { Seq::<Seq<char>>::empty() } else { lines_from(s, j + 1) });
        }
        p.feed_line(&v, i, j);
        if j >= n {
            assert(run_lines(p@, Seq::<Seq<char>>::empty()) == p@);
            done = true;
        } else {
            i = j + 1;
        }
    }
    let (_title, start, rooms) = p.finish();
    if start.as_str().is_empty() {
        let msg = String::from_str("No starting room specified. Use @start room_id");
        return Err(GameError::ValidationError(msg));
    }
    proof {
        lemma_parse_story_unique(s);
        let st = StoryModel { title: None, start: start@, rooms: drafts_model(rooms@) };
        lemma_world_of_wf(st);
    }
    Ok(build_world(rooms, start))
}

// ---------------------------------------------------------------------------
// Parsed worlds have unique ids
// ---------------------------------------------------------------------------

proof fn lemma_key_index_from_result<V>(s: Seq<(Seq<char>, V)>, k: Seq<char>, i: int)
    requires
        0 <= i,
    ensures
        match key_index_from(s, k, i) {
            Some(j) => i <= j < s.len() && s[j].0 == k,
            None => forall|j: int| i <= j < s.len() ==> s[j].0 != k,
        },
    decreases s.len() - i,
{
    if i < s.len() && s[i].0 != k {
        lemma_key_index_from_result(s, k, i + 1);
    }
}

proof fn lemma_commit_unique(rooms: Seq<(Seq<char>, DraftModel)>, r: (Seq<char>, DraftModel))
    requires
        crate::keyed::unique_keys(rooms),
    ensures
        crate::keyed::unique_keys(commit_room(rooms, r)),
{
    lemma_key_index_from_result(rooms, r.0, 0);
    let c = commit_room(rooms, r);
    match key_index_from(rooms, r.0, 0) {
        Some(i) => {
            assert forall|a: int| 0 <= a < c.len() implies #[trigger] c[a].0 == rooms[a].0 by {}
        },
        None => {
            assert forall|a: int| 0 <= a < rooms.len() implies #[trigger] c[a].0 == rooms[a].0 by {}
        },
    }
}

proof fn lemma_step_unique(st: ParseModel, line: Seq<char>)
    requires
        crate::keyed::unique_keys(st.rooms),
    ensures
        crate::keyed::unique_keys(parse_step(st, line).rooms),
{
    let t = trim(line);
    let st1 = if st.in_desc && t.len() != 0 && starts_with(t, "#"@) { finish_desc(st) } else { st };
    assert(st1.rooms == st.rooms);
    if let Some(r) = st1.room {
        lemma_commit_unique(st1.rooms, with_choice(r, st1.choice));
    }
}

proof fn lemma_run_unique(st: ParseModel, ls: Seq<Seq<char>>)
    requires
        crate::keyed::unique_keys(st.rooms),
    ensures
        crate::keyed::unique_keys(run_lines(st, ls).rooms),
    decreases ls.len(),
{
    if ls.len() > 0 {
        lemma_step_unique(st, ls[0]);
        lemma_run_unique(parse_step(st, ls[0]), ls.drop_first());
    }
}

proof fn lemma_digit_char(d: nat)
    ensures
        digit_char(d) as u32 == (d % 10) + 48,
{
}

proof fn lemma_decimal_injective(n: nat, m: nat)
    requires
        decimal(n) == decimal(m),
    ensures
        n == m,
    decreases n,
{
    lemma_decimal_len(n);
    lemma_decimal_len(m);
    lemma_digit_char(n);
    lemma_digit_char(m);
    if n < 10 {
        assert(decimal(n)[0] == digit_char(n));
        if m >= 10 {
            lemma_decimal_len(m / 10);
            assert(decimal(m).len() >= 2);
        } else {
            assert(decimal(m)[0] == digit_char(m));
        }
    } else {
        lemma_decimal_len(n / 10);
        if m < 10 {
            assert(decimal(n).len() >= 2);
        } else {
            lemma_digit_char(n % 10);
            lemma_digit_char(m % 10);
            assert(decimal(n).last() == digit_char(n % 10));
            assert(decimal(m).last() == digit_char(m % 10));
            assert(decimal(n).drop_last() =~= decimal(n / 10));
            assert(decimal(m).drop_last() =~= decimal(m / 10));
            lemma_decimal_injective(n / 10, m / 10);
        }
    }
}

proof fn lemma_decimal_len(n: nat)
    ensures
        decimal(n).len() >= 1,
        n < 10 <==> decimal(n).len() == 1,
    decreases n,
{
    if n >= 10 {
        lemma_decimal_len(n / 10);
    }
}

proof fn lemma_numbered_names(rooms: Seq<(Seq<char>, DraftModel)>, i: int)
    requires
        0 <= i <= rooms.len(),
    ensures
        numbered_choices(rooms, i).len() == choices_before(rooms, i),
        forall|m: int| 0 <= m < numbered_choices(rooms, i).len()
            ==> #[trigger] numbered_choices(rooms, i)[m].0 == choice_name(m as nat),
    decreases i,
{
    if i > 0 {
        lemma_numbered_names(rooms, i - 1);
    }
}

/// The world built from a parsed story has unique room and choice ids.
proof fn lemma_world_of_wf(st: StoryModel)
    requires
        crate::keyed::unique_keys(st.rooms),
    ensures
        world_of(st).wf(),
{
    let w = world_of(st);
    assert forall|a: int, b: int| 0 <= a < w.rooms.len() && 0 <= b < w.rooms.len() && a != b implies w.rooms[a].0 != w.rooms[b].0 by {
        assert(w.rooms[a].0 == st.rooms[a].0 && w.rooms[b].0 == st.rooms[b].0);
    }
    lemma_numbered_names(st.rooms, st.rooms.len() as int);
    assert forall|a: int, b: int| 0 <= a < w.choices.len() && 0 <= b < w.choices.len() && a != b implies w.choices[a].0 != w.choices[b].0 by {
        if w.choices[a].0 == w.choices[b].0 {
            assert(choice_name(a as nat) == choice_name(b as nat));
            assert(decimal(a as nat) =~= choice_name(a as nat).subrange("choice_"@.len() as int, choice_name(a as nat).len() as int));
            assert(decimal(b as nat) =~= choice_name(b as nat).subrange("choice_"@.len() as int, choice_name(b as nat).len() as int));
            lemma_decimal_injective(a as nat, b as nat);
        }
    }
}

/// Every story that parses has unique room ids.
proof fn lemma_parse_story_unique(s: Seq<char>)
    ensures
        parse_story(s) matches Some(st) ==> crate::keyed::unique_keys(st.rooms),
{
    let init = initial_parse();
    assert(crate::keyed::unique_keys(init.rooms));
    lemma_run_unique(init, lines_from(s, 0));
    let fin0 = run_lines(init, lines_from(s, 0));
    let st1 = if fin0.in_desc { finish_desc(fin0) } else { fin0 };
    assert(st1.rooms == fin0.rooms);
    if let Some(r) = st1.room {
        lemma_commit_unique(st1.rooms, with_choice(r, st1.choice));
    }
}

} // verus!
