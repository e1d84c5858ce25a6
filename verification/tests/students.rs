use admission_sim::choice::{find_admitted, find_best};
use admission_sim::college::College;
use admission_sim::config::Config;
use admission_sim::ratio::Fraction;
use admission_sim::student::{ApplyPattern, Student};
use rand_xoshiro::rand_core::SeedableRng;
use rand_xoshiro::Xoshiro256StarStar;

fn college(index: usize, institute: u8, score: i32) -> College {
    College {
        epoch: 0,
        cid: 1000 + index,
        institute,
        capa: 9000,
        enroll: 10,
        over_rate: Fraction { num: 1, den: 1 },
        applicant_num: 0,
        passed_num: 0,
        adm_num: 0,
        own_scale: 0,
        current_rate: 0,
        score,
        index,
        s_vec: Vec::new(),
        new_enroll_num: 0,
        add_enroll_num: 0,
        dev_history: Vec::new(),
        adm_history: Vec::new(),
        fillrate_history: Vec::new(),
    }
}

fn config() -> Config {
    Config {
        student_number: vec![5],
        random_seed: 1,
        national_range: [-5, 5],
        college_rank_lower: [2, -3, -10],
        college_rank_upper: [10, 2, -3],
        college_rank_select_number: [[2, 2, 2], [3, 2, 2]],
        enroll_add_rate: 100,
        enroll_add_lower: 0,
        epochs: 3,
        start_year: 2014,
        college_select_by_enroll: false,
        small_college_support: false,
        update_dev: true,
        enroll_capa_dics: Vec::new(),
        grounding: false,
        new_limits: [1050, 1150, 1250],
        enroll_algo_version: 2,
        mean_yield_rate: 400,
        score_floor: None,
        score_ceiling: None,
    }
}

fn student(id: usize, score: i32, pattern: ApplyPattern, exams: &[(usize, i32)]) -> Student {
    let mut root = Xoshiro256StarStar::seed_from_u64(id as u64);
    let mut s = Student::new(score, &mut root);
    s.id = id;
    s.c_map = exams.to_vec();
    s.pattern = pattern;
    s
}

fn all_colleges() -> Vec<College> {
    vec![
        college(0, 3, 40_000),
        college(1, 1, 45_000),
        college(2, 3, 50_000),
        college(3, 3, 50_000),
        college(4, 2, 60_000),
    ]
}

#[test]
fn exam_dev_reads_the_record_of_the_college() {
    let s = student(0, 1, ApplyPattern::Both, &[(3, 51_000), (1, 49_500)]);
    assert_eq!(s.exam_dev(3), 51_000);
    assert_eq!(s.exam_dev(1), 49_500);
}

#[test]
fn pattern_codes() {
    assert_eq!(ApplyPattern::Both.code(), 1);
    assert_eq!(ApplyPattern::PrivateOnly.code(), 2);
}

#[test]
fn first_decision_accepts_the_favourite_and_holds_the_rest() {
    let conf = config();
    let colleges = all_colleges();
    // the favourite is college 2: 50_000 first among equals
    let mut s = student(7, 1, ApplyPattern::PrivateOnly, &[(0, 1), (2, 2), (3, 3)]);
    let answers = s.admission1(&conf, &colleges, &vec![0, 2, 3]);
    assert_eq!(answers, vec![(0, (7, 4)), (2, (7, 8)), (3, (7, 4))]);
    assert_eq!(s.admission, Some(2));
}

#[test]
fn first_decision_holds_everything_when_the_favourite_made_no_offer() {
    let conf = config();
    let colleges = all_colleges();
    let mut s = student(7, 1, ApplyPattern::PrivateOnly, &[(0, 1), (2, 2), (3, 3)]);
    let answers = s.admission1(&conf, &colleges, &vec![0, 3]);
    assert_eq!(answers, vec![(0, (7, 4)), (3, (7, 4))]);
    assert_eq!(s.admission, None);
    assert_eq!(s.admission1(&conf, &colleges, &Vec::new()), Vec::new());
}

#[test]
fn first_decision_of_a_student_of_both_kinds_only_holds() {
    let conf = config();
    let colleges = all_colleges();
    let mut s = student(7, 1, ApplyPattern::Both, &[(0, 1), (2, 2), (1, 3)]);
    let answers = s.admission1(&conf, &colleges, &vec![0, 2]);
    assert_eq!(answers, vec![(0, (7, 4)), (2, (7, 4))]);
    assert_eq!(s.admission, None);
}

#[test]
fn second_decision_commits_to_the_best_held_offer() {
    let conf = config();
    let colleges = all_colleges();
    let mut s = student(7, 1, ApplyPattern::Both, &[(0, 1), (2, 2), (3, 3), (4, 4)]);
    let row = vec![(0, 7), (2, 7), (3, 7), (4, 1)];
    assert_eq!(s.admission2(&conf, &colleges, &row), Some(2));
    assert_eq!(s.admission, Some(2));
    // settled: nothing more happens
    assert_eq!(s.admission2(&conf, &colleges, &row), None);
    assert_eq!(s.admission3(&conf, &colleges, &vec![(0, 65)]), None);
    assert_eq!(s.admission, Some(2));
}

#[test]
fn second_decision_leaves_an_enrolled_student_where_it_is() {
    let conf = config();
    let colleges = all_colleges();
    let mut s = student(7, 1, ApplyPattern::Both, &[(0, 1), (2, 2), (4, 4)]);
    assert_eq!(s.admission2(&conf, &colleges, &vec![(0, 7), (2, 7), (4, 17)]), None);
    assert_eq!(s.admission, Some(4));
    let mut t = student(8, 1, ApplyPattern::PrivateOnly, &[(0, 1), (2, 2)]);
    assert_eq!(t.admission2(&conf, &colleges, &vec![(0, 7), (2, 11)]), None);
    assert_eq!(t.admission, Some(2));
}

#[test]
fn second_decision_of_a_gambler_or_without_offers_is_nothing() {
    let conf = config();
    let colleges = all_colleges();
    let mut s = student(7, 1, ApplyPattern::Both, &[(0, 1), (2, 2)]);
    s.gamble = true;
    assert_eq!(s.admission2(&conf, &colleges, &vec![(0, 7), (2, 7)]), None);
    assert_eq!(s.admission, None);
    s.gamble = false;
    assert_eq!(s.admission2(&conf, &colleges, &vec![(0, 1), (2, 1)]), None);
    assert_eq!(s.admission2(&conf, &colleges, &Vec::new()), None);
    assert_eq!(s.admission, None);
}

#[test]
fn last_decision_takes_the_best_waitlist_offer() {
    let conf = config();
    let colleges = all_colleges();
    let mut s = student(7, 1, ApplyPattern::PrivateOnly, &[(0, 1), (2, 2), (3, 3)]);
    assert_eq!(s.admission3(&conf, &colleges, &vec![(0, 65), (2, 7), (3, 65)]), Some(3));
    assert_eq!(s.admission, Some(3));
    let mut t = student(8, 1, ApplyPattern::PrivateOnly, &[(0, 1), (2, 2), (3, 3)]);
    assert_eq!(t.admission3(&conf, &colleges, &vec![(0, 65), (2, 39), (3, 65)]), None);
    assert_eq!(t.admission, Some(2));
    let mut u = student(9, 1, ApplyPattern::PrivateOnly, &[(0, 1)]);
    u.gamble = true;
    assert_eq!(u.admission3(&conf, &colleges, &vec![(0, 65)]), Some(0));
}

#[test]
fn rows_are_read_for_enrolment_and_best_status() {
    let colleges = all_colleges();
    assert_eq!(find_admitted(&vec![(0, 1), (2, 39), (3, 193)]), Some(2));
    assert_eq!(find_admitted(&vec![(0, 1), (2, 7), (3, 65)]), None);
    assert_eq!(find_best(&vec![(0, 7), (2, 1), (3, 7), (4, 1)], &colleges, 7), Some(3));
    assert_eq!(find_best(&vec![(3, 7), (2, 7)], &colleges, 7), Some(3));
    assert_eq!(find_best(&vec![(0, 7)], &colleges, 65), None);
}

#[test]
fn apply_takes_whole_bands_and_sits_each_exam_once() {
    let conf = config();
    let privates = vec![
        college(0, 3, 40_000),
        college(2, 3, 45_000),
        college(3, 3, 51_000),
        college(5, 3, 56_000),
    ];
    let nationals = vec![college(1, 1, 44_000), college(4, 2, 52_000)];
    let mut root = Xoshiro256StarStar::seed_from_u64(9);
    let mut s = Student::new(50_000, &mut root);
    s.pattern = ApplyPattern::PrivateOnly;
    s.count_pattern = 1;
    s.exam_errors = vec![100, -200, 300, -400, 500, -600, 700, -800];
    let (bands, c_vec) = s.apply(&conf, &nationals, &privates);
    // ranks: [52_000, 60_000], [47_000, 52_000], [40_000, 47_000]
    assert_eq!(bands, vec![(3, 3), (2, 2), (0, 1)]);
    assert_eq!(c_vec, vec![5, 3, 0, 2]);
    assert_eq!(s.c_map, vec![(5, 50_100), (3, 49_800), (0, 50_300), (2, 49_600)]);
    assert_eq!(s.admission, None);
}

#[test]
fn apply_adds_one_public_college_in_range() {
    let conf = config();
    let privates = vec![college(0, 3, 40_000), college(2, 3, 45_000)];
    let nationals = vec![college(1, 1, 44_000), college(3, 2, 52_000)];
    for seed in 0..50 {
        let mut root = Xoshiro256StarStar::seed_from_u64(seed);
        let mut s = Student::new(50_000, &mut root);
        s.exam_errors = vec![0; 8];
        let (_, c_vec) = s.apply(&conf, &nationals, &privates);
        // the only public college within five points is the last one
        assert_eq!(c_vec.last(), Some(&3));
        let mut sorted = c_vec.clone();
        sorted.sort();
        sorted.dedup();
        assert_eq!(sorted.len(), c_vec.len());
        assert_eq!(s.c_map.len(), c_vec.len());
    }
}

#[test]
fn apply_emits_nothing_without_colleges() {
    let conf = config();
    let mut root = Xoshiro256StarStar::seed_from_u64(1);
    let mut s = Student::new(50_000, &mut root);
    s.exam_errors = vec![0; 8];
    let (bands, c_vec) = s.apply(&conf, &Vec::new(), &Vec::new());
    assert_eq!(bands, vec![(0, 0), (0, 0), (0, 0)]);
    assert_eq!(c_vec, Vec::<usize>::new());
    assert!(s.c_map.is_empty());
}

#[test]
fn exam_scores_stay_within_the_range_of_scores() {
    let conf = config();
    let privates = vec![college(0, 3, i32::MAX)];
    let mut root = Xoshiro256StarStar::seed_from_u64(1);
    let mut s = Student::new(i32::MAX, &mut root);
    s.pattern = ApplyPattern::PrivateOnly;
    s.exam_errors = vec![5; 8];
    s.apply(&conf, &Vec::new(), &privates);
    assert_eq!(s.c_map, vec![(0, i32::MAX)]);
}

#[test]
fn from_nationals_finds_the_college_in_range() {
    let conf = config();
    let nationals = vec![college(1, 1, 44_000), college(4, 2, 52_000), college(6, 1, 70_000)];
    let mut root = Xoshiro256StarStar::seed_from_u64(1);
    let mut s = Student::new(50_000, &mut root);
    assert_eq!(s.from_nationals(&conf, &nationals), Some(4));
    // a band that is the first place only counts as no band
    let mut low = Student::new(41_000, &mut root);
    assert_eq!(low.from_nationals(&conf, &nationals), None);
    assert_eq!(s.from_nationals(&conf, &Vec::new()), None);
    let mut high = Student::new(68_000, &mut root);
    assert_eq!(high.from_nationals(&conf, &nationals), Some(6));
}

#[test]
fn select_college_gives_places_in_the_list_of_all_colleges() {
    let privates = vec![college(3, 3, 40_000), college(5, 3, 45_000), college(8, 3, 50_000)];
    let mut root = Xoshiro256StarStar::seed_from_u64(1);
    let mut s = Student::new(50_000, &mut root);
    assert_eq!(s.select_college(&privates, (0, 2), 5, false), vec![3, 5, 8]);
    assert_eq!(s.select_college(&privates, (1, 1), 5, true), vec![5]);
    let two = s.select_college(&privates, (0, 2), 2, false);
    assert_eq!(two.len(), 2);
    assert!(two.iter().all(|c| [3, 5, 8].contains(c)) && two[0] != two[1]);
}

#[test]
fn from_conf_orders_students_by_score_and_splits_their_streams() {
    let conf = config();
    let scores = vec![50_000, 40_000, 60_000, 40_000, 45_000];
    let mut root = Xoshiro256StarStar::seed_from_u64(77);
    let start = root.clone();
    let students = Student::from_conf(&conf, 0, &scores, &mut root);
    let got: Vec<(usize, i32)> = students.iter().map(|s| (s.id, s.score)).collect();
    assert_eq!(got, vec![(0, 40_000), (1, 40_000), (2, 45_000), (3, 50_000), (4, 60_000)]);
    // the streams in the order of creation
    let mut streams = Vec::new();
    let mut r = start.clone();
    for _ in 0..5 {
        r.jump();
        streams.push(r.clone());
    }
    assert_eq!(root, r);
    let born = [1, 3, 4, 0, 2];
    for (s, b) in students.iter().zip(born) {
        assert_eq!(s.rng, streams[b]);
        assert!(s.c_map.is_empty() && s.admission.is_none());
    }
}

#[test]
fn a_copy_of_a_student_applies_to_the_same_colleges() {
    let mut conf = config();
    let privates: Vec<College> = (0..30).map(|i| college(2 * i, 3, 35_000 + 1_000 * i as i32)).collect();
    let nationals: Vec<College> =
        (0..30).map(|i| college(2 * i + 1, 1, 35_500 + 1_000 * i as i32)).collect();
    for proportional in [false, true] {
        conf.college_select_by_enroll = proportional;
        for seed in 0..30 {
            let mut root = Xoshiro256StarStar::seed_from_u64(seed);
            let mut s = Student::new(50_000, &mut root);
            s.count_pattern = (seed % 2) as usize;
            s.exam_errors = vec![0; 8];
            let mut copy = s.clone();
            copy.exam_errors = vec![7; 8];
            let (bands, c_vec) = s.apply(&conf, &nationals, &privates);
            let (bands_again, c_vec_again) = copy.apply(&conf, &nationals, &privates);
            assert_eq!(bands, bands_again);
            assert_eq!(c_vec, c_vec_again);
            assert_eq!(s.rng, copy.rng);
            assert!(c_vec.len() > 1);
        }
    }
}
