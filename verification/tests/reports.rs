use admission_sim::report::{append_number, write_log};
use admission_sim::student::{application_room, StudentResult};
use admission_sim::univ::Univ;

#[test]
fn numbers_are_written_in_decimal() {
    for (n, want) in [(0, "0"), (7, "7"), (10, "10"), (193, "193"), (1002003, "1002003")] {
        let mut text = String::from("x");
        append_number(&mut text, n);
        assert_eq!(text, format!("x{}", want));
    }
    let mut text = String::new();
    append_number(&mut text, usize::MAX);
    assert_eq!(text, format!("{}", usize::MAX));
}

#[test]
fn log_is_written_with_colons_and_blanks() {
    assert_eq!(write_log(&Vec::new()), "");
    assert_eq!(write_log(&vec![(3, 12, 7)]), "3:12:7");
    assert_eq!(write_log(&vec![(3, 0, 193), (1, 401, 17), (2, 9, 1)]), "3:0:193 1:401:17 2:9:1");
    let r = StudentResult {
        epoch: 1,
        id: 4,
        score: 50_000,
        pattern: 2,
        admission: Some(5),
        result: vec![(3, 5, 11), (3, 8, 7)],
    };
    assert_eq!(r.log_string(), "3:5:11 3:8:7");
}

#[test]
fn application_room_counts_one_for_an_empty_rank_and_one_public_college() {
    assert_eq!(application_room(&[2, 2, 2]), 7);
    assert_eq!(application_room(&[0, 0, 0]), 4);
    assert_eq!(application_room(&[3, 0, 1]), 6);
    assert_eq!(application_room(&[usize::MAX, 1, 1]), usize::MAX);
}

#[test]
fn univ_scale_goes_by_capacity() {
    let mut u = Univ {
        uid: 1,
        institute: 3,
        pref: 13,
        capa: 8000,
        dev: 55_000,
        enroll: 2000,
        over_rate: 1500,
        s_vec: Vec::new(),
    };
    assert_eq!(u.univ_scale(), 0);
    u.capa = 4000;
    assert_eq!(u.univ_scale(), 1);
    u.capa = 3999;
    assert_eq!(u.univ_scale(), 2);
}
