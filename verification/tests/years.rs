use admission_sim::college::{College, CollegeResult};
use admission_sim::config::Config;
use admission_sim::flags::is_admitted;
use admission_sim::matrix::StatusMatrix;
use admission_sim::ratio::Fraction;
use admission_sim::round::{
    admission1, admission2, admission3, apply, divide_colleges, enroll1, enroll2, enroll3,
};
use admission_sim::settle::{count, count_eq, settle, student_map, tally};
use admission_sim::student::{ApplyPattern, Student, StudentResult};
use admission_sim::year::{check_cohort, check_roster, step, StepError};
use rand::Rng;
use std::collections::HashMap;
use rand_distr::{Distribution, Normal, StandardNormal};
use rand_xoshiro::rand_core::SeedableRng;
use rand_xoshiro::Xoshiro256StarStar;

fn record(cid: usize, institute: u8, score: i32, enroll: u32) -> College {
    College {
        epoch: 0,
        cid,
        institute,
        capa: 9000,
        enroll,
        over_rate: Fraction { num: 1, den: 1 },
        applicant_num: 0,
        passed_num: 0,
        adm_num: 0,
        own_scale: 0,
        current_rate: 0,
        score,
        index: 0,
        s_vec: Vec::new(),
        new_enroll_num: 0,
        add_enroll_num: 0,
        dev_history: Vec::new(),
        adm_history: Vec::new(),
        fillrate_history: Vec::new(),
    }
}

// every limit and the mean yield are one, so that a private college plans as
// many offers as it has places and aims at as many enrolments
fn config(students: usize, seed: u64) -> Config {
    Config {
        student_number: vec![students],
        random_seed: seed,
        national_range: [-20, 20],
        college_rank_lower: [0, -10, -30],
        college_rank_upper: [30, 10, 0],
        college_rank_select_number: [[2, 1, 1], [2, 2, 1]],
        enroll_add_rate: 0,
        enroll_add_lower: 0,
        epochs: 1,
        start_year: 2030,
        college_select_by_enroll: false,
        small_college_support: true,
        update_dev: true,
        enroll_capa_dics: Vec::new(),
        grounding: false,
        new_limits: [1000, 1000, 1000],
        enroll_algo_version: 2,
        mean_yield_rate: 1000,
        score_floor: None,
        score_ceiling: None,
    }
}

fn three_colleges() -> Vec<College> {
    College::from_conf(&vec![
        record(11, 3, 48_000, 10),
        record(12, 3, 55_000, 5),
        record(13, 1, 52_000, 8),
    ])
}

fn cohort(conf: &Config, public_share: f64) -> Vec<Student> {
    let mut root = Xoshiro256StarStar::seed_from_u64(conf.random_seed);
    let normal = Normal::new(50.0, 10.0).unwrap();
    let scores: Vec<i32> = (0..conf.student_number[0])
        .map(|_| {
            let x: f64 = normal.sample(&mut root);
            (x * 1000.0).round() as i32
        })
        .collect();
    let mut students = Student::from_conf(conf, 0, &scores, &mut root);
    for s in students.iter_mut() {
        s.pattern = if s.rng.gen_bool(public_share) {
            ApplyPattern::Both
        } else {
            ApplyPattern::PrivateOnly
        };
        s.count_pattern = if s.rng.gen_bool(0.5) { 0 } else { 1 };
        s.exam_errors = (0..8)
            .map(|_| {
                let e: f32 = s.rng.sample(StandardNormal);
                (e * 1000.0).round() as i32
            })
            .collect();
    }
    students
}

fn run(seed: u64) -> (Vec<College>, Vec<Student>, Vec<College>, Vec<CollegeResult>, Vec<StudentResult>) {
    let conf = config(100, seed);
    let mut colleges = three_colleges();
    let mut students = cohort(&conf, 0.6);
    let (next, cres, sres) = step(0, &mut colleges, &mut students, &conf).unwrap();
    (colleges, students, next, cres, sres)
}

#[test]
fn one_year_with_three_colleges() {
    let (colleges, students, next, cres, sres) = run(20211211);
    assert_eq!((cres.len(), sres.len(), next.len()), (3, 100, 3));
    // one log entry for each college applied to
    for (s, r) in students.iter().zip(sres.iter()) {
        assert_eq!((r.id, r.score, r.pattern), (s.id, s.score, s.pattern.code()));
        let mut applied: Vec<usize> = s.c_map.iter().map(|e| e.0).collect();
        applied.sort();
        let logged: Vec<usize> = r.result.iter().map(|e| e.1).collect();
        assert_eq!(logged, applied);
        for e in r.result.iter() {
            assert_eq!(e.0, colleges[e.1].institute);
            assert!([1, 7, 11, 17, 39, 65, 193].contains(&e.2));
        }
        // nobody is enrolled twice, and the student knows where it is enrolled
        let enrolled: Vec<usize> = r.result.iter().filter(|e| is_admitted(e.2)).map(|e| e.1).collect();
        assert!(enrolled.len() <= 1);
        assert_eq!(enrolled.first().copied(), s.admission);
        assert_eq!(r.admission, s.admission);
    }
    // conservation, and no more enrolled than places
    let mut total = 0;
    for (c, r) in colleges.iter().zip(cres.iter()) {
        assert_eq!((r.index, r.cid, r.institute, r.enroll), (c.index, c.cid, c.institute, c.enroll));
        assert!(r.admissons <= r.enroll_1st_count + r.enroll_add_count);
        assert!(r.enroll_1st_count + r.enroll_add_count <= r.apply_count);
        assert_eq!(r.admissons, r.admisson_1st + r.admisson_rsv + r.admisson_add);
        assert_eq!(r.payments, r.admissons + r.paid_only_count);
        assert!(r.admissons <= c.enroll);
        let logged = sres.iter().filter(|s| s.result.iter().any(|e| e.1 == c.index)).count();
        assert_eq!(r.apply_count as usize, logged);
        let enrolled = students.iter().filter(|s| s.admission == Some(c.index)).count();
        assert_eq!(r.admissons as usize, enrolled);
        total += r.admissons;
    }
    assert!(total <= 23);
    assert!(total > 0);
    // the colleges of the next year stand by rising score
    for (i, c) in next.iter().enumerate() {
        assert_eq!((c.index, c.epoch), (i, 1));
        assert!(i == 0 || next[i - 1].score <= c.score);
    }
}

#[test]
fn the_same_seed_gives_the_same_year() {
    let (_, _, next_a, cres_a, sres_a) = run(5);
    let (_, _, next_b, cres_b, sres_b) = run(5);
    assert_eq!(cres_a, cres_b);
    assert_eq!(sres_a, sres_b);
    assert_eq!(format!("{:?}", next_a), format!("{:?}", next_b));
    let (_, _, _, _, sres_c) = run(6);
    assert_ne!(sres_a, sres_c);
}

#[test]
fn many_years_keep_their_laws() {
    for seed in 0..40 {
        let (_, students, _, cres, sres) = run(seed);
        for r in sres.iter() {
            assert!(r.result.iter().filter(|e| is_admitted(e.2)).count() <= 1);
        }
        for r in cres.iter() {
            assert!(r.admissons <= r.enroll_1st_count + r.enroll_add_count);
            assert!(r.enroll_1st_count + r.enroll_add_count <= r.apply_count);
        }
        let settled = students.iter().filter(|s| s.admission.is_some()).count() as u32;
        assert_eq!(settled, cres.iter().map(|r| r.admissons).sum::<u32>());
    }
}

#[test]
fn a_year_is_refused_for_a_bad_configuration() {
    let mut conf = config(3, 1);
    conf.enroll_add_rate = 1001;
    let mut colleges = three_colleges();
    let mut students = cohort(&conf, 0.5);
    assert_eq!(step(0, &mut colleges, &mut students, &conf).err(), Some(StepError::Config));
}

#[test]
fn a_year_is_refused_for_colleges_out_of_order() {
    let conf = config(3, 1);
    let mut students = cohort(&conf, 0.5);
    let mut colleges = three_colleges();
    colleges.swap(0, 1);
    assert!(!check_roster(&colleges));
    assert_eq!(step(0, &mut colleges, &mut students, &conf).err(), Some(StepError::Colleges));
    let mut colleges = three_colleges();
    colleges[0].score = 99_000;
    assert_eq!(step(0, &mut colleges, &mut students, &conf).err(), Some(StepError::Colleges));
    let mut colleges = three_colleges();
    colleges[2].epoch = usize::MAX;
    assert_eq!(step(0, &mut colleges, &mut students, &conf).err(), Some(StepError::Colleges));
    assert!(check_roster(&three_colleges()));
    assert!(check_roster(&Vec::new()));
}

#[test]
fn a_year_is_refused_for_students_not_ready() {
    let conf = config(3, 1);
    let mut colleges = three_colleges();
    let mut students = cohort(&conf, 0.5);
    assert!(check_cohort(&students, &conf));
    students[1].id = 2;
    assert_eq!(step(0, &mut colleges, &mut students, &conf).err(), Some(StepError::Students));
    let mut students = cohort(&conf, 0.5);
    students[0].exam_errors.truncate(4);
    assert!(!check_cohort(&students, &conf));
    let mut students = cohort(&conf, 0.5);
    students[2].count_pattern = 2;
    assert!(!check_cohort(&students, &conf));
    let mut students = cohort(&conf, 0.5);
    students[1].admission = Some(0);
    assert!(!check_cohort(&students, &conf));
    let mut students = cohort(&conf, 0.5);
    students[2].c_map.push((0, 1));
    assert_eq!(step(0, &mut colleges, &mut students, &conf).err(), Some(StepError::Students));
    // colleges and students are as they were
    assert_eq!(colleges[0].new_enroll_num, 0);
    assert_eq!(students[2].c_map, vec![(0, 1)]);
}

#[test]
fn a_year_without_students_or_colleges_is_empty() {
    let conf = config(0, 1);
    let mut colleges = three_colleges();
    let mut students = cohort(&conf, 0.5);
    let (next, cres, sres) = step(0, &mut colleges, &mut students, &conf).unwrap();
    assert_eq!((next.len(), cres.len(), sres.len()), (3, 3, 0));
    for r in cres.iter() {
        assert_eq!((r.apply_count, r.admissons, r.new_deviation), (0, 0, 0));
    }
    let conf = config(4, 1);
    let mut none: Vec<College> = Vec::new();
    let mut students = cohort(&conf, 0.5);
    let (next, cres, sres) = step(0, &mut none, &mut students, &conf).unwrap();
    assert_eq!((next.len(), cres.len(), sres.len()), (0, 0, 4));
    assert!(sres.iter().all(|s| s.result.is_empty() && s.admission.is_none()));
}

fn student(id: usize, score: i32, pattern: ApplyPattern, exams: &[(usize, i32)]) -> Student {
    let mut root = Xoshiro256StarStar::seed_from_u64(id as u64);
    let mut s = Student::new(score, &mut root);
    s.id = id;
    s.c_map = exams.to_vec();
    s.pattern = pattern;
    s
}

// four students and three colleges: 0 private (one place), 1 public (one
// place), 2 private (one place)
fn small_world() -> (Config, Vec<College>, Vec<Student>, StatusMatrix) {
    let conf = config(4, 1);
    let colleges = College::from_conf(&vec![
        record(20, 3, 40_000, 1),
        record(21, 2, 50_000, 1),
        record(22, 3, 60_000, 1),
    ]);
    let students = vec![
        student(0, 1, ApplyPattern::PrivateOnly, &[(0, 100), (2, 100)]),
        student(1, 1, ApplyPattern::PrivateOnly, &[(0, 300), (2, 300)]),
        student(2, 1, ApplyPattern::Both, &[(0, 200), (1, 200)]),
        student(3, 1, ApplyPattern::Both, &[(2, 250), (1, 400)]),
    ];
    let apply_mat = StatusMatrix::from_triplets(
        (3, 4),
        vec![0, 2, 0, 2, 0, 1, 2, 1],
        vec![0, 0, 1, 1, 2, 2, 3, 3],
        vec![1; 8],
    );
    (conf, colleges, students, apply_mat)
}

#[test]
fn rounds_of_a_small_year() {
    let (conf, mut colleges, mut students, m0) = small_world();
    let e1 = enroll1(&mut colleges, &students, &m0, &conf);
    // each private college makes one offer, to student 1
    assert_eq!(e1.by_row(), vec![vec![], vec![(0, 2), (2, 2)], vec![], vec![]]);
    assert_eq!(colleges[0].s_vec, vec![1]);
    assert_eq!((colleges[0].new_enroll_num, colleges[0].current_rate), (1, 1000));
    assert_eq!(colleges[1].s_vec, Vec::<usize>::new());
    let a1 = admission1(&mut students, &colleges, &e1, &conf);
    // student 1 enrols at its favourite, college 2, and holds college 0
    assert_eq!(a1.by_row(), vec![vec![(1, 4)], vec![], vec![(1, 8)]]);
    assert_eq!(students[1].admission, Some(2));
    let e2 = enroll2(&mut colleges, &students, &m0, &conf);
    assert_eq!(e2.by_row(), vec![vec![], vec![], vec![], vec![(1, 16)]]);
    let status1 = e1.merge(&e2).merge(&m0.transpose()).merge(&a1.transpose());
    assert_eq!(
        status1.by_row(),
        vec![
            vec![(0, 1), (2, 1)],
            vec![(0, 7), (2, 11)],
            vec![(0, 1), (1, 1)],
            vec![(1, 17), (2, 1)],
        ]
    );
    let a2 = admission2(&mut students, &colleges, &status1, &conf);
    assert_eq!(a2.by_row(), vec![vec![], vec![], vec![]]);
    assert_eq!(students[3].admission, Some(1));
    let status2 = a2.merge(&status1.transpose());
    let e3 = enroll3(&colleges, &students, &status2, &conf);
    // college 0 has nobody enrolled and offers its place to the best it turned down
    assert_eq!(e3.by_row(), vec![vec![], vec![], vec![(0, 64)], vec![]]);
    let status3 = e3.merge(&status2.transpose());
    let a3 = admission3(&mut students, &colleges, &status3, &conf);
    assert_eq!(a3.by_row(), vec![vec![(2, 128)], vec![], vec![]]);
    assert_eq!(students[2].admission, Some(0));
    let status4 = a3.merge(&status3.transpose());
    assert_eq!(
        status4.by_row(),
        vec![vec![(0, 1), (1, 7), (2, 193)], vec![(2, 1), (3, 17)], vec![(0, 1), (1, 11), (3, 1)]]
    );
    let (next, cres, sres) = settle(3, &students, &colleges, &status4, &conf);
    assert_eq!(
        cres[0],
        CollegeResult {
            epoch: 3,
            index: 0,
            cid: 20,
            institute: 3,
            dev: 40_000,
            enroll: 1,
            over_rate: Fraction { num: 1, den: 1 },
            apply_count: 3,
            decline1: 0,
            decline2: 0,
            enroll_1st_count: 1,
            enroll_add_count: 1,
            paid_only_count: 1,
            admisson_1st: 0,
            admisson_rsv: 0,
            admisson_add: 1,
            admissons: 1,
            new_deviation: 200,
            payments: 2,
        }
    );
    assert_eq!((cres[1].admisson_1st, cres[1].admissons, cres[1].new_deviation), (1, 1, 400));
    assert_eq!((cres[2].admisson_1st, cres[2].admissons, cres[2].new_deviation), (1, 1, 300));
    assert_eq!(sres[0].result, vec![(3, 0, 1), (3, 2, 1)]);
    assert_eq!(sres[1].result, vec![(3, 0, 7), (3, 2, 11)]);
    assert_eq!(sres[2].result, vec![(3, 0, 193), (2, 1, 1)]);
    assert_eq!(sres[3].result, vec![(2, 1, 17), (3, 2, 1)]);
    assert_eq!((sres[3].epoch, sres[3].id, sres[3].pattern, sres[3].admission), (3, 3, 1, Some(1)));
    // with their new scores the colleges change places
    let order: Vec<(usize, i32, usize)> = next.iter().map(|c| (c.cid, c.score, c.index)).collect();
    assert_eq!(order, vec![(20, 200, 0), (22, 300, 1), (21, 400, 2)]);
    assert_eq!(next[0].over_rate, Fraction { num: 1, den: 1 });
    assert_eq!((next[0].adm_num, next[0].passed_num, next[0].applicant_num), (1, 2, 3));
    assert_eq!(next[0].fillrate_history, vec![0, 1000]);
}

#[test]
fn a_student_that_holds_back_waits_for_the_waitlist() {
    let (conf, mut colleges, mut students, m0) = small_world();
    students[1].pattern = ApplyPattern::Both;
    students[1].gamble = true;
    let e1 = enroll1(&mut colleges, &students, &m0, &conf);
    let a1 = admission1(&mut students, &colleges, &e1, &conf);
    // a student of both kinds holds all its offers
    assert_eq!(a1.by_row(), vec![vec![(1, 4)], vec![], vec![(1, 4)]]);
    let e2 = enroll2(&mut colleges, &students, &m0, &conf);
    let status1 = e1.merge(&e2).merge(&m0.transpose()).merge(&a1.transpose());
    let a2 = admission2(&mut students, &colleges, &status1, &conf);
    assert_eq!(a2.by_row(), vec![vec![], vec![], vec![]]);
    assert_eq!(students[1].admission, None);
    students[1].gamble = false;
    let a2 = admission2(&mut students, &colleges, &status1, &conf);
    assert_eq!(a2.by_row(), vec![vec![], vec![], vec![(1, 32)]]);
    assert_eq!(students[1].admission, Some(2));
}

#[test]
fn apply_round_records_every_application() {
    let conf = config(30, 3);
    let colleges = three_colleges();
    let mut students = cohort(&conf, 0.5);
    let (nationals, privates) = divide_colleges(&colleges);
    assert_eq!(nationals.iter().map(|c| (c.cid, c.index)).collect::<Vec<_>>(), vec![(13, 1)]);
    assert_eq!(privates.iter().map(|c| (c.cid, c.index)).collect::<Vec<_>>(), vec![(11, 0), (12, 2)]);
    let m = apply(&mut students, &nationals, &privates, &conf);
    assert_eq!((m.nrows(), m.ncols()), (3, 30));
    let by_student = m.transpose().by_row();
    for (s, row) in students.iter().zip(by_student.iter()) {
        let mut applied: Vec<(usize, u8)> = s.c_map.iter().map(|e| (e.0, 1)).collect();
        applied.sort();
        assert_eq!(row, &applied);
        for (k, e) in s.c_map.iter().enumerate() {
            assert_eq!(e.1, s.score.saturating_add(s.exam_errors[k]));
            if colleges[e.0].institute != 3 {
                assert_eq!(s.pattern, ApplyPattern::Both);
                assert_eq!(k, s.c_map.len() - 1);
            }
        }
    }
}

#[test]
fn counts_of_a_row() {
    let row = vec![(0, 1), (1, 7), (2, 11), (3, 39), (4, 65), (5, 193), (6, 17), (7, 7)];
    let counters = tally(&row);
    assert_eq!(count_eq(&counters, &7), 2);
    assert_eq!(count_eq(&counters, &3), 0);
    assert_eq!(counters.values().sum::<u32>() as usize, row.len());
    assert_eq!(count_eq(&tally(&Vec::new()), &1), 0);
    let mut by_hand: HashMap<u8, u32> = HashMap::new();
    by_hand.insert(11, 4);
    assert_eq!(count_eq(&by_hand, &11), 4);
    assert_eq!(count_eq(&by_hand, &193), 0);
    assert_eq!(count(&row, 2), 4);
    assert_eq!(count(&row, 16), 1);
    assert_eq!(count(&row, 64), 2);
    assert_eq!(count(&Vec::new(), 1), 0);
}

#[test]
fn student_results_carry_the_log() {
    let colleges = three_colleges();
    let students = vec![student(0, 5, ApplyPattern::Both, &[]), student(1, 6, ApplyPattern::PrivateOnly, &[])];
    let mut logs = student_map(&vec![vec![(0, 7)], vec![], vec![(0, 39)]]);
    assert_eq!(logs.len(), 1);
    assert_eq!(logs.get(&0), Some(&vec![(0, 7), (2, 39)]));
    let out = admission_sim::student::settle(2, &students, &mut logs, &colleges);
    assert_eq!(logs.len(), 1);
    assert_eq!(out[0].result, vec![(3, 0, 7), (3, 2, 39)]);
    assert_eq!((out[0].epoch, out[0].id, out[0].score, out[0].pattern), (2, 0, 5, 1));
    assert_eq!((out[1].pattern, out[1].result.len()), (2, 0));
}

#[test]
fn no_college_goes_beyond_its_plan() {
    for seed in 0..40 {
        let (colleges, _, _, cres, _) = run(seed);
        for (c, r) in colleges.iter().zip(cres.iter()) {
            assert!(r.enroll_1st_count as usize <= c.new_enroll_num);
            if c.institute == Config::PRIVATE {
                let target = ((c.enroll as u64 * c.current_rate as u64 + 999) / 1000) as usize;
                assert!(
                    r.admissons as usize <= c.new_enroll_num.max(target + c.add_enroll_num)
                );
            } else {
                assert_eq!(r.enroll_add_count, 0);
                assert!(r.admissons <= c.enroll);
            }
        }
    }
}

#[test]
fn student_logs_follow_the_rows_of_the_colleges() {
    let rows = vec![vec![(1, 1), (3, 11)], vec![(0, 17), (1, 7)], vec![], vec![(1, 193), (4, 65)]];
    let logs = student_map(&rows);
    assert_eq!(logs.len(), 4);
    assert_eq!(logs.get(&0), Some(&vec![(1, 17)]));
    assert_eq!(logs.get(&1), Some(&vec![(0, 1), (1, 7), (3, 193)]));
    assert_eq!(logs.get(&2), None);
    assert_eq!(logs.get(&3), Some(&vec![(0, 11)]));
    assert_eq!(logs.get(&4), Some(&vec![(3, 65)]));
    assert!(student_map(&Vec::new()).is_empty());
}

#[test]
fn plans_within_places_keep_enrolment_within_places() {
    let (colleges, _, _, cres, _) = run(20211211);
    let mut places = 0;
    let mut enrolled = 0;
    for (c, r) in colleges.iter().zip(cres.iter()) {
        if c.institute == Config::PRIVATE {
            let target = ((c.enroll as u64 * c.current_rate as u64 + 999) / 1000) as usize;
            assert!(c.new_enroll_num <= c.enroll as usize);
            assert!(target + c.add_enroll_num <= c.enroll as usize);
        }
        assert!(r.admissons <= c.enroll);
        places += c.enroll;
        enrolled += r.admissons;
    }
    assert_eq!(places, 23);
    assert!(enrolled <= places);
}
