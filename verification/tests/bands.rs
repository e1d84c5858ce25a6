use admission_sim::band::{bounds, select};
use admission_sim::college::College;
use admission_sim::config::Config;
use admission_sim::stream::split;
use admission_sim::ratio::Fraction;
use admission_sim::student::Student;
use rand_xoshiro::rand_core::SeedableRng;
use rand_xoshiro::Xoshiro256StarStar;

fn college(index: usize, score: i32, enroll: u32) -> College {
    College {
        epoch: 0,
        cid: 1000 + index,
        institute: 3,
        capa: 4 * enroll,
        enroll,
        over_rate: Fraction { num: 1, den: 1 },
        applicant_num: 0,
        passed_num: 0,
        adm_num: 0,
        own_scale: 0,
        current_rate: 0,
        score,
        index,
        s_vec: Vec::new(),
        new_enroll_num: 0,
        add_enroll_num: 0,
        dev_history: Vec::new(),
        adm_history: Vec::new(),
        fillrate_history: Vec::new(),
    }
}

fn ladder(scores: &[i32]) -> Vec<College> {
    scores.iter().enumerate().map(|(i, s)| college(i, *s, 100)).collect()
}

#[test]
fn band_covers_the_scores_within_the_offsets() {
    let colleges = ladder(&[10_000, 20_000, 20_000, 30_000, 40_000]);
    assert_eq!(bounds(20_000, -10_000, 10_000, &colleges), (0, 3));
}

#[test]
fn band_edges_are_inclusive() {
    let colleges = ladder(&[10_000, 20_000, 20_000, 30_000, 40_000]);
    assert_eq!(bounds(20_000, 0, 0, &colleges), (1, 2));
    assert_eq!(bounds(25_000, -5_000, 5_000, &colleges), (1, 3));
    assert_eq!(bounds(25_000, -4_999, 4_999, &colleges), (3, 2));
    assert_eq!(bounds(40_000, 0, 5_000, &colleges), (4, 4));
}

#[test]
fn band_is_degenerate_when_nothing_is_at_or_below_the_upper_threshold() {
    let colleges = ladder(&[50_000, 60_000]);
    assert_eq!(bounds(20_000, -10_000, 10_000, &colleges), (0, 0));
}

#[test]
fn band_is_clamped_to_the_last_college_when_the_lower_threshold_is_out_of_reach() {
    let colleges = ladder(&[10_000, 20_000]);
    assert_eq!(bounds(50_000, -10_000, 10_000, &colleges), (1, 1));
}

#[test]
fn band_takes_thresholds_beyond_the_range_of_scores() {
    let colleges = ladder(&[i32::MIN, 0, i32::MAX]);
    assert_eq!(bounds(i32::MAX, 1, 2, &colleges), (2, 2));
    assert_eq!(bounds(i32::MIN, -2, -1, &colleges), (0, 0));
    assert_eq!(bounds(0, -5_000_000_000, 5_000_000_000, &colleges), (0, 2));
    assert_eq!(bounds(i32::MAX, 0, 0, &colleges), (2, 2));
    assert_eq!(bounds(i32::MIN, 0, 0, &colleges), (0, 0));
}

fn config() -> Config {
    Config {
        student_number: vec![3],
        random_seed: 1,
        national_range: [-5, 5],
        college_rank_lower: [2, -3, -10],
        college_rank_upper: [10, 2, -3],
        college_rank_select_number: [[2, 2, 2], [3, 2, 2]],
        enroll_add_rate: 100,
        enroll_add_lower: 0,
        epochs: 1,
        start_year: 2014,
        college_select_by_enroll: false,
        small_college_support: false,
        update_dev: true,
        enroll_capa_dics: Vec::new(),
        grounding: false,
        new_limits: [1050, 1150, 1250],
        enroll_algo_version: 2,
        mean_yield_rate: 400,
        score_floor: None,
        score_ceiling: None,
    }
}

#[test]
fn get_bounds_takes_offsets_in_whole_points() {
    let conf = config();
    let colleges = ladder(&[10_000, 20_000, 20_000, 30_000, 40_000]);
    let mut root = Xoshiro256StarStar::seed_from_u64(1);
    let student = Student::new(20_000, &mut root);
    assert_eq!(student.get_bounds(&conf, -10, 10, &colleges), (0, 3));
    assert_eq!(student.get_bounds(&conf, 5, 20, &colleges), (3, 4));
}

#[test]
fn scores_at_the_tails_are_clamped_for_the_bands() {
    let mut conf = config();
    assert_eq!(conf.effective_score(1_000), 1_000);
    conf.score_floor = Some(30_000);
    conf.score_ceiling = Some(70_000);
    assert_eq!(conf.effective_score(1_000), 30_000);
    assert_eq!(conf.effective_score(30_000), 30_000);
    assert_eq!(conf.effective_score(50_000), 50_000);
    assert_eq!(conf.effective_score(99_000), 70_000);
    let colleges = ladder(&[35_000, 45_000, 55_000, 65_000]);
    let mut root = Xoshiro256StarStar::seed_from_u64(1);
    // without the floor the band of this student would be the first place only
    let weak = Student::new(5_000, &mut root);
    assert_eq!(weak.get_bounds(&conf, 0, 20, &colleges), (0, 1));
    conf.score_floor = None;
    assert_eq!(weak.get_bounds(&conf, 0, 20, &colleges), (0, 0));
    let strong = Student::new(95_000, &mut root);
    assert_eq!(strong.get_bounds(&conf, -10, 0, &colleges), (3, 3));
    conf.score_ceiling = None;
    assert_eq!(strong.get_bounds(&conf, -40, -25, &colleges), (2, 3));
}

#[test]
fn streams_are_derived_by_jumps_from_the_seeded_root() {
    let mut root = Xoshiro256StarStar::seed_from_u64(2021);
    for ordinal in 0..5 {
        root.jump();
        assert_eq!(admission_sim::stream::derive(2021, ordinal), root);
        assert_eq!(admission_sim::stream::derive(2021, ordinal), admission_sim::stream::derive(2021, ordinal));
    }
    assert!(admission_sim::stream::derive(2021, 0) != admission_sim::stream::derive(2021, 1));
    assert!(admission_sim::stream::derive(2021, 0) != admission_sim::stream::derive(2022, 0));
    let mut a = Xoshiro256StarStar::seed_from_u64(9);
    let child = split(&mut a);
    assert_eq!(child, admission_sim::stream::derive(9, 0));
    assert_eq!(a, child);
    assert_eq!(split(&mut a), admission_sim::stream::derive(9, 1));
}

#[test]
fn select_gives_the_single_place_of_a_narrow_band() {
    let colleges = ladder(&[1, 2, 3, 4, 5]);
    let mut rng = Xoshiro256StarStar::seed_from_u64(7);
    assert_eq!(select(&mut rng, (2, 2), 3, &colleges, false), vec![2]);
    assert_eq!(select(&mut rng, (3, 2), 3, &colleges, true), vec![3]);
    assert_eq!(select(&mut rng, (4, 0), 0, &colleges, false), vec![4]);
}

#[test]
fn select_gives_the_whole_band_when_it_is_not_wider_than_wanted() {
    let colleges = ladder(&[1, 2, 3, 4, 5]);
    let mut rng = Xoshiro256StarStar::seed_from_u64(7);
    assert_eq!(select(&mut rng, (1, 3), 3, &colleges, false), vec![1, 2, 3]);
    assert_eq!(select(&mut rng, (0, 4), 9, &colleges, true), vec![0, 1, 2, 3, 4]);
}

#[test]
fn select_samples_without_replacement_and_reproducibly() {
    let colleges = ladder(&[1, 2, 3, 4, 5, 6, 7]);
    for proportional in [false, true] {
        for seed in 0..200u64 {
            let mut rng = Xoshiro256StarStar::seed_from_u64(seed);
            let picked = select(&mut rng, (1, 5), 3, &colleges, proportional);
            assert_eq!(picked.len(), 3);
            for (i, p) in picked.iter().enumerate() {
                assert!(1 <= *p && *p <= 5);
                assert!(!picked[..i].contains(p));
            }
            let mut again = Xoshiro256StarStar::seed_from_u64(seed);
            assert_eq!(select(&mut again, (1, 5), 3, &colleges, proportional), picked);
        }
    }
}

#[test]
fn select_draws_every_place_of_the_band_sooner_or_later() {
    let colleges = ladder(&[1, 2, 3, 4, 5, 6, 7]);
    for proportional in [false, true] {
        let mut seen = [false; 7];
        let mut rng = Xoshiro256StarStar::seed_from_u64(3);
        for _ in 0..200 {
            for p in select(&mut rng, (1, 5), 2, &colleges, proportional) {
                seen[p] = true;
            }
        }
        assert_eq!(seen, [false, true, true, true, true, true, false]);
    }
}

#[test]
fn weighted_select_never_draws_a_college_without_places() {
    let mut colleges = ladder(&[1, 2, 3, 4, 5]);
    colleges[1].enroll = 0;
    colleges[3].enroll = 0;
    let mut rng = Xoshiro256StarStar::seed_from_u64(11);
    for _ in 0..100 {
        let mut picked = select(&mut rng, (0, 4), 4, &colleges, true);
        picked.sort();
        assert_eq!(picked, vec![0, 2, 4]);
        let two = select(&mut rng, (0, 4), 2, &colleges, true);
        assert_eq!(two.len(), 2);
        assert!(!two.contains(&1) && !two.contains(&3));
    }
    for c in colleges.iter_mut() {
        c.enroll = 0;
    }
    assert_eq!(select(&mut rng, (0, 4), 2, &colleges, true), Vec::<usize>::new());
}

#[test]
fn weighted_select_follows_the_weights() {
    let mut colleges = ladder(&[1, 2, 3]);
    colleges[0].enroll = 1;
    colleges[1].enroll = 1_000_000;
    colleges[2].enroll = 1;
    let mut rng = Xoshiro256StarStar::seed_from_u64(5);
    let mut hits = 0;
    for _ in 0..200 {
        if select(&mut rng, (0, 2), 1, &colleges, true) == vec![1] {
            hits += 1;
        }
    }
    assert!(hits > 190);
}

#[test]
fn new_student_gets_a_stream_one_jump_ahead() {
    let mut root = Xoshiro256StarStar::seed_from_u64(42);
    let start = root.clone();
    let first = Student::new(51_000, &mut root);
    let mut expected = start.clone();
    expected.jump();
    assert_eq!(root, expected);
    assert_eq!(first.rng, expected);
    assert!(root != start);
    let second = Student::new(49_000, &mut root);
    expected.jump();
    assert_eq!(second.rng, expected);
    assert!(second.rng != first.rng);
    assert_eq!((first.id, first.score, first.admission), (0, 51_000, None));
    assert!(first.c_map.is_empty());
}

#[test]
fn nothing_is_drawn_from_a_band_no_wider_than_wanted() {
    let colleges: Vec<College> =
        [10, 11, 12, 13, 14].iter().enumerate().map(|(i, x)| college(*x, i as i32, 100)).collect();
    let mut root = Xoshiro256StarStar::seed_from_u64(4);
    let mut s = Student::new(1, &mut root);
    let before = s.rng.clone();
    assert_eq!(s.select_college(&colleges, (1, 3), 3, false), vec![11, 12, 13]);
    assert_eq!(s.rng, before);
    assert_eq!(s.select_college(&colleges, (2, 2), 3, true), vec![12]);
    assert_eq!(s.rng, before);
    let mut rng = before.clone();
    assert_eq!(select(&mut rng, (0, 4), 5, &colleges, true), vec![0, 1, 2, 3, 4]);
    assert_eq!(rng, before);
    // a draw moves the stream on
    assert_eq!(s.select_college(&colleges, (0, 4), 3, false).len(), 3);
    assert!(s.rng != before);
}

#[test]
fn streams_in_the_same_state_make_the_same_draws() {
    let colleges: Vec<College> =
        [10, 11, 12, 13, 14].iter().enumerate().map(|(i, x)| college(*x, i as i32, 100)).collect();
    for proportional in [false, true] {
        let mut one = Student::new(1, &mut admission_sim::stream::derive(8, 2));
        let mut other = Student::new(1, &mut admission_sim::stream::derive(8, 2));
        for _ in 0..20 {
            assert_eq!(
                one.select_college(&colleges, (0, 4), 3, proportional),
                other.select_college(&colleges, (0, 4), 3, proportional)
            );
            assert_eq!(one.rng, other.rng);
        }
    }
}
