use mpd_dyn::score::{
    get_score, selection_updates, Action, DefaultValue, ScoreAction, ScoreCompute, ScoreCondition,
    Value,
};
use mpd_dyn::stickers::Stickers;

fn stickers_of(pairs: &[(&str, &str)]) -> Stickers {
    let mut s = Stickers::new();
    for (k, v) in pairs {
        s.insert(k.to_string(), v.to_string());
    }
    s
}

fn sticker(name: &str, default: Option<(Value, bool)>) -> Value {
    Value::Sticker {
        name: name.to_string(),
        default: default.map(|(value, saved)| Box::new(DefaultValue { value, saved })),
    }
}

fn rule(action: ScoreAction, condition: Option<&str>, value: Value) -> ScoreCompute {
    ScoreCompute {
        action,
        condition: condition.map(|n| ScoreCondition::StickerExist { name: n.to_string() }),
        value,
    }
}

fn lookup(s: &Stickers, name: &str) -> Option<String> {
    s.get(&name.to_string()).cloned()
}

#[test]
fn stickers_insert_replaces_value() {
    let mut s = stickers_of(&[("a", "1"), ("b", "2")]);
    s.insert("a".to_string(), "3".to_string());
    assert_eq!(lookup(&s, "a"), Some("3".to_string()));
    assert_eq!(lookup(&s, "b"), Some("2".to_string()));
    assert_eq!(lookup(&s, "c"), None);
    assert_eq!(s.pairs().len(), 2);
    assert!(s.contains_key(&"b".to_string()));
    assert!(!s.contains_key(&"c".to_string()));
}

#[test]
fn stickers_changed_from_lists_new_and_changed() {
    let before = stickers_of(&[("a", "1"), ("b", "2")]);
    let after = stickers_of(&[("a", "1"), ("b", "5"), ("c", "7")]);
    let diff = after.changed_from(&before);
    assert_eq!(diff.pairs().len(), 2);
    assert_eq!(lookup(&diff, "a"), None);
    assert_eq!(lookup(&diff, "b"), Some("5".to_string()));
    assert_eq!(lookup(&diff, "c"), Some("7".to_string()));
}

#[test]
fn action_add_and_saturation() {
    assert_eq!(ScoreAction::Add.apply(3, 4), 7);
    assert_eq!(ScoreAction::Add.apply(u64::MAX - 1, 5), u64::MAX);
}

#[test]
fn action_sub_saturates_at_zero() {
    assert_eq!(ScoreAction::Sub.apply(10, 4), 6);
    assert_eq!(ScoreAction::Sub.apply(4, 10), 0);
}

#[test]
fn action_mul_and_saturation() {
    assert_eq!(ScoreAction::Mul.apply(6, 7), 42);
    assert_eq!(ScoreAction::Mul.apply(1 << 40, 1 << 40), u64::MAX);
    assert_eq!(ScoreAction::Mul.apply(0, u64::MAX), 0);
}

#[test]
fn action_pow_and_saturation() {
    assert_eq!(ScoreAction::Pow.apply(2, 10), 1024);
    assert_eq!(ScoreAction::Pow.apply(3, 5), 243);
    assert_eq!(ScoreAction::Pow.apply(0, 0), 1);
    assert_eq!(ScoreAction::Pow.apply(0, 9), 0);
    assert_eq!(ScoreAction::Pow.apply(1, u64::MAX), 1);
    assert_eq!(ScoreAction::Pow.apply(2, 63), 1 << 63);
    assert_eq!(ScoreAction::Pow.apply(2, 64), u64::MAX);
    assert_eq!(ScoreAction::Pow.apply(7, u64::MAX), u64::MAX);
}

#[test]
fn value_now_and_const() {
    let mut s = Stickers::new();
    assert_eq!(Value::Now.compute(1000, &mut s), Some(1000));
    assert_eq!(Value::Const { value: 9 }.compute(1000, &mut s), Some(9));
    assert_eq!(s.pairs().len(), 0);
}

#[test]
fn value_sticker_parses_decimal() {
    let mut s = stickers_of(&[("n", "42"), ("p", "+7"), ("bad", "4x"), ("big", "18446744073709551616")]);
    assert_eq!(sticker("n", None).compute(0, &mut s), Some(42));
    assert_eq!(sticker("p", None).compute(0, &mut s), Some(7));
    assert_eq!(sticker("bad", None).compute(0, &mut s), None);
    assert_eq!(sticker("big", None).compute(0, &mut s), None);
    assert_eq!(sticker("missing", None).compute(0, &mut s), None);
}

#[test]
fn value_unparsable_falls_back_on_default() {
    let mut s = stickers_of(&[("bad", "-3")]);
    let v = sticker("bad", Some((Value::Const { value: 8 }, false)));
    assert_eq!(v.compute(0, &mut s), Some(8));
    assert_eq!(lookup(&s, "bad"), Some("-3".to_string()));
}

#[test]
fn default_saved_is_seen_by_later_rule() {
    let mut s = Stickers::new();
    let v = sticker("x", Some((Value::Const { value: 5 }, true)));
    assert_eq!(v.compute(0, &mut s), Some(5));
    assert_eq!(lookup(&s, "x"), Some("5".to_string()));
    assert_eq!(sticker("x", None).compute(0, &mut s), Some(5));
}

#[test]
fn default_not_saved_leaves_stickers() {
    let mut s = Stickers::new();
    let v = sticker("x", Some((Value::Const { value: 5 }, false)));
    assert_eq!(v.compute(0, &mut s), Some(5));
    assert_eq!(lookup(&s, "x"), None);
}

#[test]
fn condition_checks_sticker_presence() {
    let c = ScoreCondition::StickerExist { name: "fav".to_string() };
    assert!(c.check(0, 0, &stickers_of(&[("fav", "1")])));
    assert!(!c.check(0, 0, &Stickers::new()));
}

#[test]
fn condition_gating_skips_or_applies() {
    let r = rule(ScoreAction::Mul, Some("fav"), Value::Const { value: 5 });
    let mut absent = Stickers::new();
    assert_eq!(r.compute(0, 10, &mut absent), 10);
    let mut present = stickers_of(&[("fav", "1")]);
    assert_eq!(r.compute(0, 10, &mut present), 50);
}

#[test]
fn rule_without_value_keeps_score() {
    let r = rule(ScoreAction::Add, None, sticker("missing", None));
    let mut s = Stickers::new();
    assert_eq!(r.compute(0, 12, &mut s), 12);
}

#[test]
fn score_is_deterministic() {
    let rules = vec![
        rule(ScoreAction::Add, None, Value::Now),
        rule(ScoreAction::Sub, None, sticker("time", Some((Value::Now, true)))),
    ];
    let s = stickers_of(&[("time", "400")]);
    let (a, wa) = get_score(&rules, 1000, &s);
    let (b, wb) = get_score(&rules, 1000, &s);
    assert_eq!(a, 600);
    assert_eq!(a, b);
    assert_eq!(wa.pairs(), wb.pairs());
}

#[test]
fn unchanged_stickers_are_not_written() {
    let rules = vec![rule(ScoreAction::Add, None, sticker("time", Some((Value::Now, true))))];
    let s = stickers_of(&[("time", "400")]);
    let (score, writes) = get_score(&rules, 1000, &s);
    assert_eq!(score, 400);
    assert_eq!(writes.pairs().len(), 0);
}

#[test]
fn saved_default_is_written() {
    let rules = vec![rule(ScoreAction::Add, None, sticker("time", Some((Value::Now, true))))];
    let (score, writes) = get_score(&rules, 1000, &Stickers::new());
    assert_eq!(score, 1000);
    assert_eq!(lookup(&writes, "time"), Some("1000".to_string()));
    assert_eq!(writes.pairs().len(), 1);
}

#[test]
fn selection_updates_write_fresh_values() {
    let actions = vec![
        Action::StickerUpdate { name: "time".to_string(), value: Value::Now },
        Action::StickerUpdate { name: "none".to_string(), value: sticker("missing", None) },
        Action::StickerUpdate { name: "n".to_string(), value: Value::Const { value: 30 } },
    ];
    let writes = selection_updates(&actions, 1234);
    assert_eq!(
        writes,
        vec![
            ("time".to_string(), "1234".to_string()),
            ("n".to_string(), "30".to_string())
        ]
    );
}

#[test]
fn action_exec_gives_sticker_to_write() {
    let a = Action::StickerUpdate { name: "time".to_string(), value: Value::Now };
    let mut s = Stickers::new();
    assert_eq!(a.exec(77, &mut s), Some(("time".to_string(), "77".to_string())));
}
