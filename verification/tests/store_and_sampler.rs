use garfield::date::CalendarDate;
use garfield::sampler::{
    get_month_len, sample_random_date, tomorrow_joke_date, EntropySource, Lcg, RandomSource,
};
use garfield::store::PopularityStore;
use garfield::url::resolve;

fn d(year: u32, month: u32, day: u32) -> CalendarDate {
    CalendarDate { year, month, day }
}

#[test]
fn repeated_fetches_count_up() {
    let mut store = PopularityStore::new();
    let date = d(2020, 1, 1);
    for expected in 1..=5u64 {
        assert_eq!(store.record_fetch(date), Ok(expected));
    }
    assert_eq!(store.count_for(date), 5);
}

#[test]
fn interleaved_fetches_do_not_cross_contaminate() {
    let mut store = PopularityStore::new();
    let a = d(2020, 1, 1);
    let b = d(2020, 1, 2);
    assert_eq!(store.record_fetch(a), Ok(1));
    assert_eq!(store.record_fetch(b), Ok(1));
    assert_eq!(store.record_fetch(a), Ok(2));
    assert_eq!(store.record_fetch(b), Ok(2));
    assert_eq!(store.record_fetch(b), Ok(3));
    assert_eq!(store.record_fetch(a), Ok(3));
    assert_eq!(store.count_for(a), 3);
    assert_eq!(store.count_for(b), 3);
    assert_eq!(store.count_for(d(2020, 1, 3)), 0);
}

#[test]
fn three_records_rank_by_count_descending() {
    let mut store = PopularityStore::new();
    for _ in 0..5 {
        store.record_fetch(d(2020, 1, 1)).unwrap();
    }
    for _ in 0..9 {
        store.record_fetch(d(2020, 1, 2)).unwrap();
    }
    store.record_fetch(d(2020, 1, 3)).unwrap();
    let top = store.top_n(3).unwrap();
    assert_eq!(top.len(), 3);
    assert_eq!((top[0].date, top[0].fetch_count), (d(2020, 1, 2), 9));
    assert_eq!((top[1].date, top[1].fetch_count), (d(2020, 1, 1), 5));
    assert_eq!((top[2].date, top[2].fetch_count), (d(2020, 1, 3), 1));
}

#[test]
fn top_n_truncates_and_breaks_ties_by_date() {
    let mut store = PopularityStore::new();
    store.record_fetch(d(2021, 7, 4)).unwrap();
    store.record_fetch(d(2019, 2, 14)).unwrap();
    store.record_fetch(d(2020, 12, 25)).unwrap();
    let top = store.top_n(2).unwrap();
    assert_eq!(top.len(), 2);
    assert_eq!(top[0].date, d(2019, 2, 14));
    assert_eq!(top[1].date, d(2020, 12, 25));
    assert!(store.top_n(0).unwrap().is_empty());
    assert_eq!(store.top_n(20).unwrap().len(), 3);
}

#[test]
fn month_table_treats_february_as_28_days() {
    let expected = [31, 28, 31, 30, 31, 30, 31, 31, 30, 31, 30, 31];
    for month in 1..=12u32 {
        assert_eq!(get_month_len(month), expected[(month - 1) as usize]);
    }
    assert_eq!(get_month_len(0), 31);
    assert_eq!(get_month_len(13), 31);
}

#[test]
fn seeded_draws_stay_within_bounds() {
    for seed in 0..50u32 {
        let mut rng = Lcg::new(seed);
        for _ in 0..20 {
            let r = rng.pick(3, 17);
            assert!((3..=17).contains(&r));
        }
        assert_eq!(rng.pick(9, 9), 9);
    }
}

#[test]
fn entropy_draws_stay_within_bounds() {
    let mut rng = EntropySource;
    for _ in 0..200 {
        let r = rng.pick(10, 20);
        assert!((10..=20).contains(&r));
    }
    assert_eq!(rng.pick(7, 7), 7);
}

#[test]
fn sampled_dates_always_resolve() {
    let today = d(2024, 6, 15);
    for seed in 0..300u32 {
        let mut rng = Lcg::new(seed);
        let date = sample_random_date(today, &mut rng);
        assert!(resolve(date, today).is_ok(), "sampled {:?}", date);
    }
    let mut entropy = EntropySource;
    for _ in 0..300 {
        let date = sample_random_date(today, &mut entropy);
        assert!(resolve(date, today).is_ok(), "sampled {:?}", date);
    }
}

#[test]
fn sampler_respects_first_year_anomaly() {
    // Dates drawn in 1978 never precede the first strip.
    let today = d(2024, 6, 15);
    let mut seen_1978 = false;
    for seed in 0..2000u32 {
        let mut rng = Lcg::new(seed);
        let date = sample_random_date(today, &mut rng);
        if date.year == 1978 {
            seen_1978 = true;
            assert!(date.month >= 6);
            if date.month == 6 {
                assert!(date.day >= 19);
            }
        }
    }
    assert!(seen_1978);
}

#[test]
fn sampler_never_draws_february_29_in_past_years() {
    // The day draw uses the fixed table, so February caps at 28 except
    // possibly in the current year, where the bound is today's day-of-month.
    let today = d(2024, 6, 15);
    for seed in 0..2000u32 {
        let mut rng = Lcg::new(seed);
        let date = sample_random_date(today, &mut rng);
        if date.year != today.year && date.month == 2 {
            assert!(date.day <= 28, "sampled {:?}", date);
        }
    }
}

#[test]
fn joke_dates_come_from_the_fixed_list() {
    let fixed = [d(2017, 8, 7), d(2015, 1, 8), d(1998, 11, 14)];
    let mut hit = [false; 3];
    for seed in 0..100u32 {
        let mut rng = Lcg::new(seed);
        let date = tomorrow_joke_date(&mut rng);
        let pos = fixed.iter().position(|f| *f == date);
        assert!(pos.is_some());
        hit[pos.unwrap()] = true;
    }
    let mut entropy = EntropySource;
    for _ in 0..100 {
        let date = tomorrow_joke_date(&mut entropy);
        assert!(fixed.contains(&date));
    }
    assert!(hit.iter().all(|h| *h));
}
