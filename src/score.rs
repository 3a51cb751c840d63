//! The rule language that turns a track's stickers into a score, and the
//! sticker updates made once a track has been queued.
use vstd::prelude::*;
use vstd::arithmetic::power::{pow, lemma_pow_increases};
use crate::decimal::{decimal_of, parsed_u64, parse_u64, u64_to_string};
use crate::stickers::{Stickers, changes};

verus! {

/// One step of a score: how the running score and a new value combine.
#[derive(PartialEq, Eq, Structural, Clone, Copy, Debug)]
pub enum ScoreAction {
    Add,
    Sub,
    Mul,
    Pow,
}

/// `x` cut down to the largest `u64`.
pub open spec fn saturate(x: int) -> u64 {
    if x > u64::MAX {
        u64::MAX
    } else {
        x as u64
    }
}

/// What `action` makes of the running score `previous` and the value `value`.
/// Every result that leaves the range of `u64` is cut to its nearest end.
pub open spec fn apply_spec(action: ScoreAction, previous: u64, value: u64) -> u64 {
    match action {
        ScoreAction::Add => saturate(previous + value),
        ScoreAction::Sub => if value > previous {
            0
        } else {
            (previous - value) as u64
        },
        ScoreAction::Mul => saturate(previous * value),
        ScoreAction::Pow => saturate(pow(previous as int, value as nat)),
    }
}

fn saturating_pow(base: u64, exp: u64) -> (r: u64)
    ensures
        r == saturate(pow(base as int, exp as nat)),
{
    proof {
        reveal(pow);
    }
    if base == 0 {
        if exp == 0 {
            return 1;
        } else {
            assert(pow(0, exp as nat) == 0 * pow(0, (exp - 1) as nat));
            return 0;
        }
    }
    if base == 1 {
        proof {
            vstd::arithmetic::power::lemma1_pow(exp as nat);
        }
        return 1;
    }
    let mut r: u64 = 1;
    let mut i: u64 = 0;
    while i < exp
        invariant
            2 <= base,
            i <= exp,
            r == pow(base as int, i as nat),
        decreases exp - i,
    {
        proof {
            reveal(pow);
        }
        assert(pow(base as int, (i + 1) as nat) == base * pow(base as int, i as nat));
        assert(pow(base as int, (i + 1) as nat) == (r as int) * (base as int)) by (nonlinear_arith)
            requires
                pow(base as int, (i + 1) as nat) == base * pow(base as int, i as nat),
                r == pow(base as int, i as nat),
        ;
        assert((r as int) * (base as int) <= u64::MAX * u64::MAX) by (nonlinear_arith)
            requires
                r <= u64::MAX,
                base <= u64::MAX,
        ;
        let next: u128 = (r as u128) * (base as u128);
        if next > u64::MAX as u128 {
            proof {
                lemma_pow_increases(base as nat, (i + 1) as nat, exp as nat);
            }
            return u64::MAX;
        }
        r = next as u64;
        i = i + 1;
    }
    r
}

impl ScoreAction {
    /// Combines the running score with a new value.
    pub fn apply(&self, previous_value: u64, value: u64) -> (r: u64)
        ensures
            r == apply_spec(*self, previous_value, value),
    {
        match *self {
            ScoreAction::Add => {
                if value > u64::MAX - previous_value {
                    u64::MAX
                } else {
                    previous_value + value
                }
            },
            ScoreAction::Sub => {
                if value > previous_value {
                    0
                } else {
                    previous_value - value
                }
            },
            ScoreAction::Mul => {
                assert((previous_value as int) * (value as int) <= u64::MAX * u64::MAX)
                    by (nonlinear_arith)
                    requires
                        previous_value <= u64::MAX,
                        value <= u64::MAX,
                ;
                let product: u128 = (previous_value as u128) * (value as u128);
                if product > u64::MAX as u128 {
                    u64::MAX
                } else {
                    product as u64
                }
            },
            ScoreAction::Pow => saturating_pow(previous_value, value),
        }
    }
}

/// A test that a rule makes before it takes part in the score.
pub enum ScoreCondition {
    /// The track has a sticker of this name.
    StickerExist { name: String },
}

/// Whether `condition` holds of a track with the stickers `m`.
pub open spec fn check_spec(condition: ScoreCondition, m: Map<Seq<char>, Seq<char>>) -> bool {
    match condition {
        ScoreCondition::StickerExist { name } => m.contains_key(name@),
    }
}

impl ScoreCondition {
    /// Whether the condition holds of a track with these stickers.
    pub fn check(&self, _now: u64, _previous_value: u64, stickers: &Stickers) -> (r: bool)
        requires
            stickers.wf(),
        ensures
            r == check_spec(*self, stickers@),
    {
        match self {
            ScoreCondition::StickerExist { name } => stickers.contains_key(name),
        }
    }
}

/// An expression that gives a number, or none.
pub enum Value {
    /// The current time, in seconds since the Unix epoch.
    Now,
    /// A fixed number.
    Const { value: u64 },
    /// The sticker `name` read as a number; where it is missing or is no
    /// number, the default, if there is one.
    Sticker { name: String, default: Option<Box<DefaultValue>> },
}

/// What a sticker reference falls back on.
pub struct DefaultValue {
    pub value: Value,
    /// Whether the value found is written back under the sticker's name.
    pub saved: bool,
}

/// The value of sticker `name` in `m`, where it is there and is a number.
pub open spec fn read_sticker(m: Map<Seq<char>, Seq<char>>, name: Seq<char>) -> Option<u64> {
    if m.contains_key(name) {
        parsed_u64(m[name])
    } else {
        None
    }
}

/// What `v` gives at time `now` against the stickers `m`, and the stickers
/// afterwards (a saved default is written into them in decimal).
pub open spec fn eval(v: Value, now: u64, m: Map<Seq<char>, Seq<char>>) -> (Option<u64>, Map<
    Seq<char>,
    Seq<char>,
>)
    decreases v,
{
    match v {
        Value::Now => (Some(now), m),
        Value::Const { value } => (Some(value), m),
        Value::Sticker { name, default } => {
            let found = read_sticker(m, name@);
            if found.is_some() {
                (found, m)
            } else {
                match default {
                    None => (None, m),
                    Some(d) => {
                        let inner = eval(d.value, now, m);
                        if inner.0.is_some() && d.saved {
                            (inner.0, inner.1.insert(name@, decimal_of(inner.0.unwrap() as nat)))
                        } else {
                            inner
                        }
                    },
                }
            }
        },
    }
}

impl Value {
    /// Evaluates the expression at time `now`, writing a saved default into
    /// `stickers`.
    pub fn compute(&self, now: u64, stickers: &mut Stickers) -> (r: Option<u64>)
        requires
            old(stickers).wf(),
        ensures
            final(stickers).wf(),
            (r, final(stickers)@) == eval(*self, now, old(stickers)@),
        decreases self,
    {
        match self {
            Value::Now => Some(now),
            Value::Const { value } => Some(*value),
            Value::Sticker { name, default } => {
                let found = match stickers.get(name) {
                    Some(text) => parse_u64(text),
                    None => None,
                };
                if found.is_some() {
                    return found;
                }
                match default {
                    None => None,
                    Some(d) => {
                        let inner = d.value.compute(now, stickers);
                        match inner {
                            Some(n) => {
                                if d.saved {
                                    stickers.insert(name.clone(), u64_to_string(n));
                                }
                            },
                            None => {},
                        }
                        inner
                    },
                }
            },
        }
    }
}

/// One scoring rule: where its condition holds and its value is found, the
/// action combines the running score with that value.
pub struct ScoreCompute {
    pub action: ScoreAction,
    pub condition: Option<ScoreCondition>,
    pub value: Value,
}

/// The running score and the stickers after `rule` has been applied to
/// the running score `previous` and the stickers `m`.
pub open spec fn rule_step(rule: ScoreCompute, now: u64, previous: u64, m: Map<Seq<char>, Seq<char>>) -> (u64, Map<Seq<char>, Seq<char>>) {
    if rule.condition.is_some() && !check_spec(rule.condition.unwrap(), m) {
        (previous, m)
    } else {
        let e = eval(rule.value, now, m);
        match e.0 {
            Some(v) => (apply_spec(rule.action, previous, v), e.1),
            None => (previous, e.1),
        }
    }
}

/// The score and the stickers after the rules have been applied in order,
/// from a score of zero and the stickers `m`.
pub open spec fn fold_rules(rules: Seq<ScoreCompute>, now: u64, m: Map<Seq<char>, Seq<char>>) -> (u64, Map<Seq<char>, Seq<char>>)
    decreases rules.len(),
{
    if rules.len() == 0 {
        (0, m)
    } else {
        let before = fold_rules(rules.drop_last(), now, m);
        rule_step(rules.last(), now, before.0, before.1)
    }
}

impl ScoreCompute {
    /// Applies the rule to the running score `previous_value`.
    pub fn compute(&self, now: u64, previous_value: u64, stickers: &mut Stickers) -> (r: u64)
        requires
            old(stickers).wf(),
        ensures
            final(stickers).wf(),
            (r, final(stickers)@) == rule_step(*self, now, previous_value, old(stickers)@),
    {
        match &self.condition {
            Some(condition) => {
                if !condition.check(now, previous_value, stickers) {
                    return previous_value;
                }
            },
            None => {},
        }
        match self.value.compute(now, stickers) {
            Some(value) => self.action.apply(previous_value, value),
            None => previous_value,
        }
    }
}

/// Scores a track with the stickers `stickers` by applying `rules` in order
/// at time `now`. Returns the score and the stickers that must be written
/// back: those that the rules added or changed, and no other.
pub fn get_score(rules: &Vec<ScoreCompute>, now: u64, stickers: &Stickers) -> (r: (u64, Stickers))
    requires
        stickers.wf(),
    ensures
        r.1.wf(),
        r.0 == fold_rules(rules@, now, stickers@).0,
        r.1@ == changes(stickers@, fold_rules(rules@, now, stickers@).1),
{
    let mut current = stickers.snapshot();
    let mut score: u64 = 0;
    let mut i: usize = 0;
    while i < rules.len()
        invariant
            i <= rules@.len(),
            current.wf(),
            (score, current@) == fold_rules(rules@.take(i as int), now, stickers@),
        decreases rules@.len() - i,
    {
        assert(rules@.take(i as int + 1).drop_last() =~= rules@.take(i as int));
        score = rules[i].compute(now, score, &mut current);
        i = i + 1;
    }
    assert(rules@.take(i as int) =~= rules@);
    let writes = current.changed_from(stickers);
    (score, writes)
}

/// An update made to the stickers of a track once it has been queued.
pub enum Action {
    /// Sets the sticker `name` to what `value` gives, where it gives anything.
    StickerUpdate { name: String, value: Value },
}

impl Action {
    /// Evaluates the update against `stickers` at time `now`. Returns the
    /// sticker to write, as name and decimal value, if the value gave a number.
    pub fn exec(&self, now: u64, stickers: &mut Stickers) -> (r: Option<(String, String)>)
        requires
            old(stickers).wf(),
        ensures
            final(stickers).wf(),
            match *self {
                Action::StickerUpdate { name, value } => {
                    &&& final(stickers)@ == eval(value, now, old(stickers)@).1
                    &&& r.is_some() == eval(value, now, old(stickers)@).0.is_some()
                    &&& r.is_some() ==> r.unwrap().0@ == name@ && r.unwrap().1@ == decimal_of(
                        eval(value, now, old(stickers)@).0.unwrap() as nat,
                    )
                },
            },
    {
        match self {
            Action::StickerUpdate { name, value } => {
                match value.compute(now, stickers) {
                    Some(n) => Some((name.clone(), u64_to_string(n))),
                    None => None,
                }
            },
        }
    }
}

/// Scoring is a function of the rules, the time and the stickers alone: two
/// runs on equal stickers give the same score and the same writes.
pub proof fn lemma_score_deterministic(
    rules: Seq<ScoreCompute>,
    now: u64,
    a: Map<Seq<char>, Seq<char>>,
    b: Map<Seq<char>, Seq<char>>,
)
    requires
        a == b,
    ensures
        fold_rules(rules, now, a).0 == fold_rules(rules, now, b).0,
        changes(a, fold_rules(rules, now, a).1) == changes(b, fold_rules(rules, now, b).1),
{
}

/// A sticker reference whose sticker is missing falls back on a constant
/// default; where that default is saved, the constant is written under the
/// sticker's name in decimal, and a later reference to the same sticker
/// reads the constant back.
pub proof fn lemma_default_saved(
    name: String,
    c: u64,
    now: u64,
    m: Map<Seq<char>, Seq<char>>,
    later: Option<Box<DefaultValue>>,
)
    requires
        !m.contains_key(name@),
    ensures
        ({
            let v = Value::Sticker {
                name,
                default: Some(Box::new(DefaultValue { value: Value::Const { value: c }, saved: true })),
            };
            let after = eval(v, now, m);
            &&& after == (Some(c), m.insert(name@, decimal_of(c as nat)))
            &&& eval(Value::Sticker { name, default: later }, now, after.1) == (Some(c), after.1)
        }),
{
    crate::decimal::lemma_parse_decimal(c);
    let inner = Value::Const { value: c };
    assert(eval(inner, now, m) == (Some(c), m));
    let saved = m.insert(name@, decimal_of(c as nat));
    assert(saved.contains_key(name@) && saved[name@] == decimal_of(c as nat));
    assert(read_sticker(saved, name@) == Some(c));
}

/// When the rules leave the stickers as they found them, nothing is written.
pub proof fn lemma_no_change_no_write(rules: Seq<ScoreCompute>, now: u64, m: Map<Seq<char>, Seq<char>>)
    requires
        fold_rules(rules, now, m).1 == m,
    ensures
        changes(m, fold_rules(rules, now, m).1) == Map::<Seq<char>, Seq<char>>::empty(),
{
    assert(changes(m, m) =~= Map::<Seq<char>, Seq<char>>::empty());
}

/// A rule that asks for a sticker leaves the score and the stickers alone
/// where the sticker is missing, and where it is there acts as the same rule
/// without the condition.
pub proof fn lemma_condition_gating(
    rule: ScoreCompute,
    name: String,
    now: u64,
    previous: u64,
    m: Map<Seq<char>, Seq<char>>,
)
    requires
        rule.condition == Some(ScoreCondition::StickerExist { name }),
    ensures
        !m.contains_key(name@) ==> rule_step(rule, now, previous, m) == (previous, m),
        m.contains_key(name@) ==> rule_step(rule, now, previous, m) == rule_step(
            ScoreCompute { action: rule.action, condition: None, value: rule.value },
            now,
            previous,
            m,
        ),
{
}

/// The stickers that the updates in `actions` write at time `now`, each
/// evaluated against no stickers at all, in order; an update whose value
/// gives nothing writes nothing.
pub open spec fn selection_updates_spec(actions: Seq<Action>, now: u64) -> Seq<(Seq<char>, Seq<char>)>
    decreases actions.len(),
{
    if actions.len() == 0 {
        Seq::empty()
    } else {
        let before = selection_updates_spec(actions.drop_last(), now);
        match actions.last() {
            Action::StickerUpdate { name, value } => {
                match eval(value, now, Map::empty()).0 {
                    Some(n) => before.push((name@, decimal_of(n as nat))),
                    None => before,
                }
            },
        }
    }
}

/// The stickers to write on a track once it has been queued: each update
/// evaluated at time `now` against no stickers, in order.
pub fn selection_updates(actions: &Vec<Action>, now: u64) -> (r: Vec<(String, String)>)
    ensures
        r@.map_values(|p: (String, String)| (p.0@, p.1@)) == selection_updates_spec(actions@, now),
{
    let mut r: Vec<(String, String)> = Vec::new();
    let mut i: usize = 0;
    while i < actions.len()
        invariant
            i <= actions@.len(),
            r@.map_values(|p: (String, String)| (p.0@, p.1@)) == selection_updates_spec(
                actions@.take(i as int),
                now,
            ),
        decreases actions@.len() - i,
    {
        assert(actions@.take(i as int + 1).drop_last() =~= actions@.take(i as int));
        let mut fresh = Stickers::new();
        let ghost before = r@;
        match actions[i].exec(now, &mut fresh) {
            Some(p) => {
                r.push(p);
                assert(r@.map_values(|p: (String, String)| (p.0@, p.1@)) =~= before.map_values(
                    |p: (String, String)| (p.0@, p.1@),
                ).push((r@.last().0@, r@.last().1@)));
            },
            None => {},
        }
        i = i + 1;
    }
    assert(actions@.take(i as int) =~= actions@);
    r
}

} // verus!
