use admission_sim::college::{College, CollegeResult};
use std::collections::HashMap;
use admission_sim::config::{Config, ConfigError};
use admission_sim::ratio::{ceil_ratio, product, round_mean, round_ratio, Fraction};
use admission_sim::student::{ApplyPattern, Student};
use rand_xoshiro::rand_core::SeedableRng;
use rand_xoshiro::Xoshiro256StarStar;

fn college(index: usize, institute: u8, score: i32, enroll: u32, capa: u32) -> College {
    College {
        epoch: 0,
        cid: 1000 + index,
        institute,
        capa,
        enroll,
        over_rate: Fraction { num: 3, den: 2 },
        applicant_num: 0,
        passed_num: 0,
        adm_num: 0,
        own_scale: 9,
        current_rate: 0,
        score,
        index,
        s_vec: Vec::new(),
        new_enroll_num: 0,
        add_enroll_num: 0,
        dev_history: Vec::new(),
        adm_history: Vec::new(),
        fillrate_history: Vec::new(),
    }
}

fn config() -> Config {
    Config {
        student_number: vec![4],
        random_seed: 1,
        national_range: [-5, 5],
        college_rank_lower: [2, -3, -10],
        college_rank_upper: [10, 2, -3],
        college_rank_select_number: [[2, 2, 2], [3, 2, 2]],
        enroll_add_rate: 100,
        enroll_add_lower: 0,
        epochs: 3,
        start_year: 2014,
        college_select_by_enroll: false,
        small_college_support: false,
        update_dev: true,
        enroll_capa_dics: Vec::new(),
        grounding: false,
        new_limits: [1050, 1150, 1250],
        enroll_algo_version: 2,
        mean_yield_rate: 400,
        score_floor: None,
        score_ceiling: None,
    }
}

fn student(id: usize, score: i32, exams: &[(usize, i32)]) -> Student {
    let mut root = Xoshiro256StarStar::seed_from_u64(id as u64);
    let mut s = Student::new(score, &mut root);
    s.id = id;
    s.c_map = exams.to_vec();
    s.pattern = ApplyPattern::PrivateOnly;
    s
}

#[test]
fn ratios_round_to_the_nearest_with_halves_up() {
    assert_eq!(round_ratio(7, 2), 4);
    assert_eq!(round_ratio(5, 2), 3);
    assert_eq!(round_ratio(4, 3), 1);
    assert_eq!(round_ratio(5, 3), 2);
    assert_eq!(round_ratio(0, 9), 0);
    assert_eq!(round_ratio(0, 0), 0);
    assert_eq!(round_ratio(1, 0), usize::MAX);
    assert_eq!(ceil_ratio(7, 2), 4);
    assert_eq!(ceil_ratio(6, 2), 3);
    assert_eq!(ceil_ratio(0, 5), 0);
    assert_eq!(ceil_ratio(1, 1000), 1);
    assert_eq!(product(3, 4, 5), 60);
    assert_eq!(product(u32::MAX, u32::MAX, u32::MAX), (u32::MAX as u128).pow(3));
}

#[test]
fn means_round_half_away_from_zero() {
    assert_eq!(round_mean(7, 2), 4);
    assert_eq!(round_mean(-7, 2), -4);
    assert_eq!(round_mean(5, 3), 2);
    assert_eq!(round_mean(-5, 3), -2);
    assert_eq!(round_mean(4, 3), 1);
    assert_eq!(round_mean(0, 5), 0);
    assert_eq!(round_mean(i32::MAX as i128 * 3, 3), i32::MAX);
    assert_eq!(round_mean(i32::MIN as i128 * 3, 3), i32::MIN);
}

#[test]
fn limits_follow_the_table() {
    let conf = config();
    assert_eq!(conf.limit(0, 0), 1200);
    assert_eq!(conf.limit(0, 1), 1300);
    assert_eq!(conf.limit(1, 0), 1170);
    assert_eq!(conf.limit(1, 1), 1270);
    assert_eq!(conf.limit(2, 0), 1140);
    assert_eq!(conf.limit(2, 1), 1240);
    assert_eq!(conf.limit(3, 0), 1100);
    assert_eq!(conf.limit(6, 1), 1200);
    assert_eq!(conf.limit(6, 2), 1300);
    assert_eq!(conf.limit(7, 0), 1050);
    assert_eq!(conf.limit(7, 2), 1250);
}

#[test]
fn limit_rows_follow_the_calendar() {
    let mut conf = config();
    assert_eq!(conf.limit_rows(0), (0, 0));
    assert_eq!(conf.limit_rows(2015), (0, 0));
    assert_eq!(conf.limit_rows(2016), (0, 1));
    assert_eq!(conf.limit_rows(2018), (2, 3));
    assert_eq!(conf.limit_rows(2019), (3, 3));
    assert_eq!(conf.limit_rows(usize::MAX), (3, 3));
    conf.small_college_support = true;
    assert_eq!(conf.limit_rows(2019), (3, 4));
    assert_eq!(conf.limit_rows(2022), (6, 7));
    assert_eq!(conf.limit_rows(2023), (7, 7));
}

#[test]
fn college_scale_goes_by_capacity() {
    assert_eq!(college(0, 3, 0, 1, 8000).college_scale(), 0);
    assert_eq!(college(0, 3, 0, 1, 7999).college_scale(), 1);
    assert_eq!(college(0, 3, 0, 1, 4000).college_scale(), 1);
    assert_eq!(college(0, 3, 0, 1, 3999).college_scale(), 2);
}

#[test]
fn public_college_offers_its_places() {
    let conf = config();
    let mut c = college(0, 1, 50_000, 80, 9000);
    assert_eq!(c.enroll_num(&conf), 80);
    assert_eq!((c.own_scale, c.current_rate), (9, 0));
}

#[test]
fn private_quota_by_yield() {
    let conf = config();
    // no figures of the year before: 100 places, limit 1.2, mean yield 0.4
    let mut c = college(0, 3, 50_000, 100, 9000);
    assert_eq!(c.enroll_num(&conf), 300);
    assert_eq!((c.own_scale, c.current_rate), (0, 1200));
    // 200 offers led to 80 enrolments: 100 * 1.3 / 0.4
    let mut d = college(1, 3, 50_000, 100, 5000);
    d.passed_num = 200;
    d.adm_num = 80;
    assert_eq!(d.enroll_num(&conf), 325);
    assert_eq!((d.own_scale, d.current_rate), (1, 1300));
    // 7 offers, 3 enrolments, 10 places, small: 10 * 1.3 * 7 / 3 = 30.33
    let mut e = college(2, 3, 50_000, 10, 100);
    e.passed_num = 7;
    e.adm_num = 3;
    assert_eq!(e.enroll_num(&conf), 30);
    e.epoch = 3;
    // 2017, large row 2 to 3 does not matter to a small college
    assert_eq!(e.enroll_num(&conf), 30);
}

#[test]
fn private_quota_by_excess() {
    let mut conf = config();
    conf.enroll_algo_version = 1;
    conf.start_year = 2016;
    // 2016: limit 1.17 after 1.20, three offers for two enrolments
    let mut c = college(0, 3, 50_000, 1000, 9000);
    assert_eq!(c.enroll_num(&conf), 1463); // 1000 * 1.5 * 1.17 / 1.20 = 1462.5
    assert_eq!(c.current_rate, 1170);
    c.over_rate = Fraction { num: 5, den: 0 };
    assert_eq!(c.enroll_num(&conf), usize::MAX);
    c.over_rate = Fraction { num: 0, den: 0 };
    assert_eq!(c.enroll_num(&conf), 0);
}

#[test]
fn zero_mean_yield_gives_an_unbounded_quota() {
    let mut conf = config();
    conf.mean_yield_rate = 0;
    let mut c = college(0, 3, 50_000, 100, 9000);
    assert_eq!(c.enroll_num(&conf), usize::MAX);
}

#[test]
fn first_offers_keep_a_waitlist_pool_back() {
    let conf = config();
    let students: Vec<Student> = (0..6)
        .map(|i| student(i, 50_000, &[(0, 40_000 + 1_000 * (i as i32 % 3))]))
        .collect();
    let mut c = college(0, 3, 50_000, 1, 9000);
    c.passed_num = 5;
    c.adm_num = 2;
    // 1 * 1.2 * 5 / 2 = 3 planned, 10 % of them (0.3) kept back
    let admitted = c.enroll1(&conf, &students, &vec![0, 1, 2, 3, 4, 5]);
    assert_eq!((c.new_enroll_num, c.add_enroll_num), (3, 0));
    assert_eq!(admitted, vec![2, 5, 1]);
    assert_eq!(c.s_vec, admitted);
    c.enroll = 10;
    let mut conf = conf;
    conf.enroll_add_rate = 250;
    let admitted = c.enroll1(&conf, &students, &vec![0, 1, 2]);
    // 10 * 1.2 * 2.5 = 30 planned, 7.5 rounds to 8 kept back
    assert_eq!((c.new_enroll_num, c.add_enroll_num), (22, 8));
    assert_eq!(admitted, vec![2, 1, 0]);
}

#[test]
fn public_offers_go_to_the_best_applicants() {
    let conf = config();
    let students: Vec<Student> =
        vec![student(0, 1, &[(4, 10)]), student(1, 1, &[(3, 99), (4, 30)]), student(2, 1, &[(4, 20)])];
    let mut c = college(4, 2, 50_000, 2, 9000);
    c.add_enroll_num = 5;
    assert_eq!(c.enroll2(&students, &vec![0, 1, 2], &conf), vec![1, 2]);
    assert_eq!((c.new_enroll_num, c.add_enroll_num), (2, 5));
    assert_eq!(c.s_vec, vec![1, 2]);
}

#[test]
fn waitlist_offers_fill_the_shortfall() {
    let mut conf = config();
    let students: Vec<Student> = (0..8).map(|i| student(i, 1, &[(0, 50_000 - 1_000 * i as i32)])).collect();
    let mut c = college(0, 3, 50_000, 5, 9000);
    c.current_rate = 1100; // target: 5 * 1.1 rounded up = 6
    c.add_enroll_num = 1;
    // 11 and 39 count as enrolled; 17 and 193 do not
    let row = vec![(0, 11), (1, 39), (2, 1), (3, 7), (4, 1), (5, 1), (6, 1), (7, 1)];
    assert_eq!(c.enroll3(&conf, &students, &row), vec![2, 4, 5, 6, 7]);
    c.add_enroll_num = 0;
    assert_eq!(c.enroll3(&conf, &students, &row), vec![2, 4, 5, 6]);
    conf.enroll_add_lower = 5_500; // floor at 44_500
    assert_eq!(c.enroll3(&conf, &students, &row), vec![2, 4, 5]);
    conf.enroll_add_lower = -1; // floor above every score
    assert_eq!(c.enroll3(&conf, &students, &row), Vec::<usize>::new());
    let full = vec![(0, 11), (1, 39), (2, 11), (3, 11), (4, 39), (5, 11), (6, 1), (7, 1)];
    conf.enroll_add_lower = 0;
    assert_eq!(c.enroll3(&conf, &students, &full), Vec::<usize>::new());
}

#[test]
fn arrange_sorts_by_score_and_renumbers() {
    let list = vec![
        college(0, 3, 30, 1, 1),
        college(1, 3, 10, 1, 1),
        college(2, 3, 30, 1, 1),
        college(3, 3, 20, 1, 1),
    ];
    let out = College::arrange(&list);
    let cids: Vec<usize> = out.iter().map(|c| c.cid).collect();
    assert_eq!(cids, vec![1001, 1003, 1000, 1002]);
    for (i, c) in out.iter().enumerate() {
        assert_eq!(c.index, i);
    }
}

#[test]
fn from_conf_prepares_the_colleges_for_the_first_year() {
    let mut a = college(7, 3, 30, 40, 1);
    a.applicant_num = 0;
    let mut b = college(9, 1, 10, 50, 1);
    b.applicant_num = 77;
    let out = College::from_conf(&vec![a, b]);
    assert_eq!((out[0].cid, out[0].index, out[0].applicant_num), (1009, 0, 77));
    assert_eq!((out[1].cid, out[1].index, out[1].applicant_num), (1007, 1, 40));
    assert_eq!(out[1].dev_history, vec![30]);
    assert_eq!(out[1].adm_history, vec![0]);
    assert_eq!(out[1].fillrate_history, vec![0]);
}

fn result(admissons: u32) -> CollegeResult {
    CollegeResult {
        epoch: 0,
        index: 0,
        cid: 1000,
        institute: 3,
        dev: 50_000,
        enroll: 100,
        over_rate: Fraction { num: 3, den: 2 },
        apply_count: 400,
        decline1: 0,
        decline2: 1,
        enroll_1st_count: 150,
        enroll_add_count: 5,
        paid_only_count: 60,
        admisson_1st: 70,
        admisson_rsv: 20,
        admisson_add: 4,
        admissons,
        new_deviation: 51_234,
        payments: 154,
    }
}

#[test]
fn update_carries_the_year_into_the_college() {
    let mut conf = config();
    let mut c = college(0, 3, 50_000, 100, 9000);
    c.dev_history = vec![50_000];
    c.adm_history = vec![0];
    c.fillrate_history = vec![0];
    c.s_vec = vec![5];
    let next = c.update(&result(94), &conf);
    assert_eq!((next.epoch, next.cid, next.index, next.institute), (1, 1000, 0, 3));
    assert_eq!(next.score, 51_234);
    assert_eq!((next.adm_num, next.passed_num, next.applicant_num), (94, 155, 400));
    assert_eq!(next.over_rate, Fraction { num: 150, den: 94 });
    assert_eq!(next.dev_history, vec![50_000, 51_234]);
    assert_eq!(next.adm_history, vec![0, 94]);
    assert_eq!(next.fillrate_history, vec![0, 940]);
    assert_eq!((next.enroll, next.capa), (100, 9000));
    assert_eq!(next.s_vec, vec![5]);
    conf.update_dev = false;
    assert_eq!(c.update(&result(94), &conf).score, 50_000);
    c.enroll = 0;
    assert_eq!(c.update(&result(94), &conf).fillrate_history, vec![0, usize::MAX]);
    assert_eq!(c.update(&result(0), &conf).fillrate_history, vec![0, 0]);
}

#[test]
fn update_grants_new_places_where_the_run_sets_them() {
    let mut conf = config();
    conf.grounding = true;
    conf.enroll_capa_dics = vec![
        HashMap::from([(999, (1, 2)), (1000, (120, 9500)), (1001, (7, 7))]),
        HashMap::from([(1000, (130, 9600))]),
    ];
    let mut c = college(0, 3, 50_000, 100, 9000);
    let next = c.update(&result(94), &conf);
    assert_eq!((next.enroll, next.capa), (120, 9500));
    c.epoch = 1;
    let next = c.update(&result(94), &conf);
    assert_eq!((next.enroll, next.capa), (130, 9600));
    // the last year gets no grant
    c.epoch = 2;
    let next = c.update(&result(94), &conf);
    assert_eq!((next.enroll, next.capa), (100, 9000));
    // a college that the table does not name keeps its places
    c.epoch = 0;
    c.cid = 5;
    let next = c.update(&result(94), &conf);
    assert_eq!((next.enroll, next.capa), (100, 9000));
}

#[test]
fn configuration_is_checked_for_its_ranges() {
    let mut conf = config();
    assert_eq!(conf.validate(), Err(ConfigError::Years));
    conf.epochs = 1;
    assert_eq!(conf.validate(), Ok(()));
    let mut bad = config();
    bad.enroll_add_rate = 1001;
    bad.epochs = -1;
    assert_eq!(bad.validate(), Err(ConfigError::Rate));
    bad.enroll_add_rate = 1000;
    assert_eq!(bad.validate(), Err(ConfigError::Years));
    bad.epochs = 2;
    assert_eq!(bad.validate(), Err(ConfigError::Years));
    bad.student_number = vec![4, 4];
    assert_eq!(bad.validate(), Ok(()));
    bad.national_range = [5, 4];
    assert_eq!(bad.validate(), Err(ConfigError::Range));
    bad.national_range = [4, 4];
    bad.college_rank_lower[2] = -2;
    assert_eq!(bad.validate(), Err(ConfigError::Range));
    bad.college_rank_lower[2] = -3;
    bad.grounding = true;
    assert_eq!(bad.validate(), Err(ConfigError::Grants));
    bad.enroll_capa_dics = vec![HashMap::new()];
    assert_eq!(bad.validate(), Ok(()));
    bad.epochs = 0;
    bad.enroll_capa_dics = Vec::new();
    assert_eq!(bad.validate(), Ok(()));
}
