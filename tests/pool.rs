use mpd_dyn::playlist::{choose_tracks, Settings, Step};
use mpd_dyn::rng::{SampleError, Weighted, WeightedChoice};
use mpd_dyn::score::{DefaultValue, ScoreAction, ScoreCompute, ScoreCondition, Value, get_score};
use mpd_dyn::stickers::Stickers;

fn pool(weights: &[u64]) -> WeightedChoice<usize> {
    WeightedChoice::new(
        weights.iter().enumerate().map(|(i, w)| Weighted { weight: *w, item: i }).collect(),
    )
}

#[test]
fn new_pool_sums_weights() {
    let p = pool(&[1, 0, 3, u64::MAX]);
    assert_eq!(p.total_weight(), 4 + u64::MAX as u128);
    assert_eq!(p.len(), 4);
}

#[test]
fn sample_with_picks_by_running_sum() {
    assert_eq!(pool(&[1, 0, 3]).sample_with(0), Ok(0));
    assert_eq!(pool(&[1, 0, 3]).sample_with(1), Ok(2));
    assert_eq!(pool(&[1, 0, 3]).sample_with(3), Ok(2));
}

#[test]
fn sample_with_removes_drawn_item() {
    let mut p = pool(&[2, 5, 1]);
    assert_eq!(p.sample_with(0), Ok(0));
    assert_eq!(p.len(), 2);
    assert_eq!(p.total_weight(), 6);
    // the last item took the place of the one drawn
    assert_eq!(p.sample_with(0), Ok(2));
    assert_eq!(p.sample_with(4), Ok(1));
    assert_eq!(p.sample_with(0), Err(SampleError::EmptyPool));
}

#[test]
fn each_item_drawn_by_as_many_numbers_as_its_weight() {
    let weights = [3u64, 0, 5, 2];
    let mut counts = [0u64; 4];
    for r in 0..10u128 {
        let got = pool(&weights).sample_with(r).unwrap();
        counts[got] += 1;
    }
    assert_eq!(counts, weights);
}

#[test]
fn empty_pool_fails() {
    let mut p = pool(&[]);
    assert_eq!(p.sample(), Err(SampleError::EmptyPool));
    assert_eq!(p.sample_with(0), Err(SampleError::EmptyPool));
}

#[test]
fn zero_weight_pool_fails() {
    let mut p = pool(&[0, 0]);
    assert_eq!(p.sample(), Err(SampleError::ZeroTotalWeight));
    assert_eq!(p.len(), 2);
}

#[test]
fn zero_weight_item_never_drawn() {
    for _ in 0..200 {
        let mut p = pool(&[0, 4, 0]);
        assert_eq!(p.sample(), Ok(1));
        assert_eq!(p.sample(), Err(SampleError::ZeroTotalWeight));
    }
}

#[test]
fn draws_are_distinct() {
    for _ in 0..50 {
        let mut p = pool(&[1, 2, 3, 4, 5]);
        let mut got = p.sample_up_to(5);
        got.sort();
        assert_eq!(got, vec![0, 1, 2, 3, 4]);
        assert_eq!(p.len(), 0);
    }
}

#[test]
fn sample_up_to_stops_at_zero_weight() {
    let mut p = pool(&[0, 7, 0, 1]);
    let mut got = p.sample_up_to(10);
    got.sort();
    assert_eq!(got, vec![1, 3]);
    assert_eq!(p.len(), 2);
    let mut q = pool(&[1, 1, 1]);
    assert_eq!(q.sample_up_to(2).len(), 2);
    assert_eq!(q.len(), 1);
}

#[test]
fn frequencies_follow_weights() {
    let mut counts = [0u32; 3];
    for _ in 0..20000 {
        let mut p = pool(&[1, 3, 6]);
        counts[p.sample().unwrap()] += 1;
    }
    assert!(counts[0] > 1400 && counts[0] < 2600);
    assert!(counts[1] > 5200 && counts[1] < 6800);
    assert!(counts[2] > 11000 && counts[2] < 13000);
}

fn settings(playlist_len: u32, keep_before: u32) -> Settings {
    Settings {
        password: String::new(),
        url: "127.0.0.1:6600".to_string(),
        playlist_len,
        keep_before,
        score_compute: vec![],
        actions: vec![],
    }
}

#[test]
fn next_step_trims_fills_or_waits() {
    let s = settings(10, 2);
    assert_eq!(s.next_step(Some(5), 12), Step::Trim { end: 3 });
    assert_eq!(s.next_step(Some(2), 4), Step::Fill { count: 6 });
    assert_eq!(s.next_step(None, 0), Step::Fill { count: 10 });
    assert_eq!(s.next_step(Some(1), 10), Step::Wait);
    assert_eq!(s.next_step(None, 15), Step::Wait);
}

#[test]
fn end_to_end_fill_picks_scored_track() {
    let rules = vec![
        ScoreCompute { action: ScoreAction::Add, condition: None, value: Value::Now },
        ScoreCompute {
            action: ScoreAction::Sub,
            condition: None,
            value: Value::Sticker {
                name: "time".to_string(),
                default: Some(Box::new(DefaultValue { value: Value::Now, saved: true })),
            },
        },
        ScoreCompute { action: ScoreAction::Pow, condition: None, value: Value::Const { value: 2 } },
        ScoreCompute {
            action: ScoreAction::Mul,
            condition: Some(ScoreCondition::StickerExist { name: "fav".to_string() }),
            value: Value::Const { value: 5 },
        },
    ];
    let a = Stickers::new();
    let mut b = Stickers::new();
    b.insert("time".to_string(), "900".to_string());
    b.insert("fav".to_string(), "1".to_string());

    let (score_a, writes_a) = get_score(&rules, 1000, &a);
    let (score_b, writes_b) = get_score(&rules, 1000, &b);
    assert_eq!(score_a, 0);
    assert_eq!(writes_a.get(&"time".to_string()), Some(&"1000".to_string()));
    assert_eq!(score_b, 50000);
    assert_eq!(writes_b.pairs().len(), 0);

    for _ in 0..50 {
        let scored = vec![
            Weighted { weight: score_a, item: "A".to_string() },
            Weighted { weight: score_b, item: "B".to_string() },
        ];
        assert_eq!(choose_tracks(scored, 1), vec!["B".to_string()]);
    }
}
