use market_replay::record::CorrectionSchedule;

fn rec_names(names: &[&str]) -> Vec<String> {
    names.iter().map(|name| name.to_string()).collect()
}

#[test]
fn full_book_is_due_after_every_interval() {
    let mut schedule = CorrectionSchedule::new(rec_names(&["btcusdt", "ethusdt"]), 3);
    let btc = "btcusdt".to_string();
    let eth = "ethusdt".to_string();
    assert_eq!(schedule.on_update(&btc), Some(false));
    assert_eq!(schedule.on_update(&btc), Some(false));
    assert_eq!(schedule.on_update(&eth), Some(false));
    assert_eq!(schedule.on_update(&btc), Some(true));
    assert_eq!(schedule.on_update(&btc), Some(false));
    assert_eq!(schedule.on_update(&eth), Some(false));
    assert_eq!(schedule.on_update(&eth), Some(true));
    assert_eq!(schedule.on_update(&btc), Some(false));
    assert_eq!(schedule.on_update(&btc), Some(true));
}

#[test]
fn interval_of_one_is_always_due() {
    let mut schedule = CorrectionSchedule::new(rec_names(&["btcusdt"]), 1);
    let btc = "btcusdt".to_string();
    assert_eq!(schedule.on_update(&btc), Some(true));
    assert_eq!(schedule.on_update(&btc), Some(true));
}

#[test]
fn without_an_interval_nothing_is_ever_due() {
    let mut schedule = CorrectionSchedule::new(rec_names(&["btcusdt"]), 0);
    let btc = "btcusdt".to_string();
    for _ in 0..10 {
        assert_eq!(schedule.on_update(&btc), Some(false));
    }
}

#[test]
fn update_of_a_symbol_that_is_not_recorded() {
    let mut schedule = CorrectionSchedule::new(rec_names(&["btcusdt"]), 2);
    assert_eq!(schedule.on_update(&"BTCUSDT".to_string()), None);
    assert_eq!(schedule.on_update(&"ethusdt".to_string()), None);
    assert_eq!(schedule.on_update(&"btcusdt".to_string()), Some(false));
    assert_eq!(schedule.on_update(&"btcusdt".to_string()), Some(true));
    let mut empty = CorrectionSchedule::new(vec![], 2);
    assert_eq!(empty.on_update(&"btcusdt".to_string()), None);
}

#[test]
fn symbol_listed_twice_counts_at_its_first_place() {
    let mut schedule = CorrectionSchedule::new(rec_names(&["a", "b", "a"]), 2);
    assert_eq!(schedule.on_update(&"a".to_string()), Some(false));
    assert_eq!(schedule.on_update(&"a".to_string()), Some(true));
    assert_eq!(schedule.on_update(&"a".to_string()), Some(false));
}
