use schedule_search::course::{Course, Section};
use schedule_search::enumerate::enumerate_schedules;
use schedule_search::interval::TimeDuration;
use schedule_search::parse::{day_char_to_u8, parse_mins_hours, parse_time, u8_to_day_char};
use schedule_search::prune::prune;
use schedule_search::rank::rank_schedules;
use schedule_search::score::{evaluate_schedule, schedule_bs_time, EvaluatedSchedule, Score};

fn td(day: u8, hour: u32, minutes: u32, length_in_minutes: u32) -> TimeDuration {
    TimeDuration {
        day,
        hour,
        minutes,
        length_in_minutes,
    }
}

fn sec(name: &str, credits: u8, times: Vec<TimeDuration>) -> Section {
    Section {
        name: name.to_string(),
        dept: "DEPT".to_string(),
        course_num: 100,
        section_num: 1,
        credits,
        times,
    }
}

fn course(name: &str, sections: Vec<Section>) -> Course {
    Course {
        name: name.to_string(),
        department: "DEPT".to_string(),
        sections,
    }
}

fn eval_stub(dt: u32, bs: u32, trips: u32, trip_minutes: u32) -> EvaluatedSchedule {
    EvaluatedSchedule {
        schedule: Vec::new(),
        s_time: 0,
        start_time_dt: dt,
        bs_time: bs,
        back_to_dorm_count: trips,
        back_to_dorm_minutes: trip_minutes,
        score: Score::Finite(0),
    }
}

#[test]
fn time_durations() {
    let t1 = TimeDuration {
        day: 0,
        hour: 1,
        minutes: 30,
        length_in_minutes: 60,
    }; // Hour class starting at 1:30 to 2:30
    let t2 = TimeDuration {
        day: 0,
        hour: 1,
        minutes: 30,
        length_in_minutes: 60,
    };

    assert!(t1.intersects_with(&t2));
    assert!(t2.intersects_with(&t1));

    let tt1 = TimeDuration {
        day: 0,
        hour: 1,
        minutes: 30,
        length_in_minutes: 60,
    }; // 1:30 - 2:30
    let tt2 = TimeDuration {
        day: 0,
        hour: 2,
        minutes: 29,
        length_in_minutes: 60,
    }; // 2:29 - 3:29
    let tt3 = TimeDuration {
        day: 0,
        hour: 2,
        minutes: 30,
        length_in_minutes: 60,
    }; // 2:30 - 3:30

    assert!(tt1.intersects_with(&tt2));
    assert!(tt2.intersects_with(&tt1));
    assert!(tt3.intersects_with(&tt1));
}

#[test]
fn time_parsing() {
    assert_eq!(parse_mins_hours("6:00 pm"), (6 + 12, 0));
    assert_eq!(parse_mins_hours("12:00 am"), (0, 0));
    assert_eq!(parse_mins_hours("12:00 pm"), (12, 0));
    assert_eq!(parse_mins_hours("7:15 am"), (7, 15));
    assert_eq!(parse_mins_hours("8:35 pm"), (8 + 12, 35))
}

#[test]
fn parse_time_test() {
    let durs = parse_time("MWF", "9:00 am-9:50 am");
    assert_eq!(durs.len(), 3);
    assert_eq!(durs[0], td(0, 9, 0, 50));
    assert_eq!(durs[1], td(2, 9, 0, 50));
    assert_eq!(durs[2], td(4, 9, 0, 50));

    let one = parse_time("T", "1:30 pm-2:20 pm");
    assert_eq!(one.len(), 1);
    // The length is the end minute of the day minus the start minute.
    assert_eq!(one[0], td(1, 13, 30, 50));
}

#[test]
fn day_letters_round_trip() {
    let letters = ['M', 'T', 'W', 'R', 'F'];
    for (i, &c) in letters.iter().enumerate() {
        assert_eq!(day_char_to_u8(c), i as u8);
        assert_eq!(u8_to_day_char(i as u8), c);
    }
}

#[test]
fn different_days_never_intersect() {
    let a = td(0, 9, 0, 60);
    let b = td(1, 9, 0, 60);
    assert!(!a.intersects_with(&b));
    assert!(!b.intersects_with(&a));
}

#[test]
fn intersects_is_symmetric() {
    let a = td(2, 9, 0, 120);
    let b = td(2, 10, 30, 60);
    assert_eq!(a.intersects_with(&b), b.intersects_with(&a));
    let c = td(2, 13, 0, 60);
    assert_eq!(a.intersects_with(&c), c.intersects_with(&a));
}

#[test]
fn touching_intervals_intersect() {
    // First ends at 10:00, second begins at 10:00: closed intervals touch.
    let a = td(3, 9, 0, 60);
    let b = td(3, 10, 0, 60);
    assert!(a.intersects_with(&b));
    assert!(b.intersects_with(&a));
}

#[test]
fn enumerator_counts_unconstrained_product() {
    // 2 * 3 * 1 pairwise non-conflicting sections.
    let courses = [
        course(
            "a",
            vec![
                sec("a1", 4, vec![td(0, 8, 0, 50)]),
                sec("a2", 4, vec![td(0, 10, 0, 50)]),
            ],
        ),
        course(
            "b",
            vec![
                sec("b1", 4, vec![td(1, 8, 0, 50)]),
                sec("b2", 4, vec![td(1, 10, 0, 50)]),
                sec("b3", 4, vec![td(1, 12, 0, 50)]),
            ],
        ),
        course("c", vec![sec("c1", 4, vec![td(2, 8, 0, 50)])]),
    ];
    let mut stack = Vec::new();
    let mut results = Vec::new();
    enumerate_schedules(&courses, &mut stack, &mut results);
    assert_eq!(results.len(), 6);
    for r in results.iter() {
        assert_eq!(r.len(), 3);
    }
}

#[test]
fn enumerator_never_returns_conflicts() {
    // The 9:00 section of course a conflicts with course b's only section.
    let courses = [
        course(
            "a",
            vec![
                sec("a1", 4, vec![td(0, 9, 0, 50)]),
                sec("a2", 4, vec![td(0, 14, 0, 50)]),
            ],
        ),
        course("b", vec![sec("b1", 4, vec![td(0, 9, 0, 50)])]),
    ];
    let mut stack = Vec::new();
    let mut results = Vec::new();
    enumerate_schedules(&courses, &mut stack, &mut results);
    assert_eq!(results.len(), 1);
    for r in results.iter() {
        for i in 0..r.len() {
            for j in 0..r.len() {
                if i != j {
                    assert!(!r[i].intersects_with(&r[j]));
                }
            }
        }
    }
    assert_eq!(results[0][0].name, "a2");
}

#[test]
fn infeasible_credit_hours_score_negative_infinity() {
    // 5 credit hours: under the bound of 16.
    let under = evaluate_schedule(vec![sec("a", 5, vec![td(0, 9, 0, 50)])]);
    assert_eq!(under.score, Score::NegInfinity);

    // 21 credit hours: above the bound of 20.
    let over = evaluate_schedule(vec![
        sec("a", 11, vec![td(0, 9, 0, 50)]),
        sec("b", 10, vec![td(1, 9, 0, 50)]),
    ]);
    assert_eq!(over.score, Score::NegInfinity);

    // 18 credit hours: inside the bound, so the score is finite.
    let within = evaluate_schedule(vec![
        sec("a", 9, vec![td(0, 9, 0, 50)]),
        sec("b", 9, vec![td(1, 9, 0, 50)]),
    ]);
    assert!(matches!(within.score, Score::Finite(_)));
}

#[test]
fn score_exact_value() {
    // One 18-credit section at 9:00: start deviation 3 hours, no gaps.
    // The scaled score is -(3 * 100).
    let e = evaluate_schedule(vec![sec("a", 18, vec![td(0, 9, 0, 50)])]);
    assert_eq!(e.s_time, 9);
    assert_eq!(e.start_time_dt, 3);
    assert_eq!(e.bs_time, 0);
    assert_eq!(e.back_to_dorm_count, 0);
    assert_eq!(e.back_to_dorm_minutes, 0);
    assert_eq!(e.score, Score::Finite(-300));
}

#[test]
fn ten_minute_gap_is_buffer() {
    // 9:00-10:00, then 10:10-11:00: a gap of exactly 10 minutes.
    let sched = vec![sec("a", 16, vec![td(0, 9, 0, 60), td(0, 10, 10, 50)])];
    let analysis = schedule_bs_time(&sched);
    assert_eq!(analysis.bs_time, 0);
    assert_eq!(analysis.back_to_dorm_count, 0);
    assert_eq!(analysis.back_to_dorm_minutes, 0);
}

#[test]
fn short_gap_counts_as_idle() {
    // 9:00-10:00, then 11:59-12:49: a gap of 119 minutes.
    let sched = vec![sec("a", 16, vec![td(0, 9, 0, 60), td(0, 11, 59, 50)])];
    let analysis = schedule_bs_time(&sched);
    assert_eq!(analysis.bs_time, 119);
    assert_eq!(analysis.back_to_dorm_count, 0);
    assert_eq!(analysis.back_to_dorm_minutes, 0);
}

#[test]
fn two_hour_gap_counts_as_trip() {
    // 9:00-10:00, then 12:00-12:50: a gap of exactly 120 minutes.
    let sched = vec![sec("a", 16, vec![td(0, 9, 0, 60), td(0, 12, 0, 50)])];
    let analysis = schedule_bs_time(&sched);
    assert_eq!(analysis.bs_time, 0);
    assert_eq!(analysis.back_to_dorm_count, 1);
    assert_eq!(analysis.back_to_dorm_minutes, 120);
}

#[test]
fn dominated_assignment_is_excluded() {
    // The second is no worse everywhere and strictly better on idle time.
    let a = eval_stub(3, 50, 1, 120);
    let b = eval_stub(3, 20, 1, 120);
    assert!(b.is_strictly_better_than(&a));
    assert!(!a.is_strictly_better_than(&b));
    let mut v = vec![a, b];
    let kept = prune(&mut v);
    assert_eq!(kept.len(), 1);
    assert_eq!(kept[0].bs_time, 20);
}

#[test]
fn equal_metric_tuples_both_retained() {
    let a = eval_stub(3, 20, 1, 120);
    let b = eval_stub(3, 20, 1, 120);
    assert!(!a.is_strictly_better_than(&b));
    assert!(!b.is_strictly_better_than(&a));
    let mut v = vec![a, b];
    let kept = prune(&mut v);
    assert_eq!(kept.len(), 2);
}

#[test]
fn prune_keeps_original_order_of_incomparable() {
    // Neither dominates: each is strictly better on one metric.
    let a = eval_stub(1, 50, 0, 0);
    let b = eval_stub(5, 10, 0, 0);
    let c = eval_stub(9, 90, 9, 900); // dominated by both
    let mut v = vec![a, c, b];
    let kept = prune(&mut v);
    assert_eq!(kept.len(), 2);
    assert_eq!(kept[0].start_time_dt, 1);
    assert_eq!(kept[1].start_time_dt, 5);
}

#[test]
fn end_to_end_two_assignments() {
    // One course with two non-conflicting 1-credit sections at hours 9 and
    // 14 on Monday; three other courses with one section each (15, 1 and 1
    // credit hours) at disjoint times, for 18 credit hours per assignment.
    let courses = [
        course(
            "a",
            vec![
                sec("a1", 1, vec![td(0, 9, 0, 50)]),
                sec("a2", 1, vec![td(0, 14, 0, 50)]),
            ],
        ),
        course("b", vec![sec("b1", 15, vec![td(1, 9, 0, 50)])]),
        course("c", vec![sec("c1", 1, vec![td(2, 9, 0, 50)])]),
        course("d", vec![sec("d1", 1, vec![td(3, 9, 0, 50)])]),
    ];
    let mut stack = Vec::new();
    let mut results = Vec::new();
    enumerate_schedules(&courses, &mut stack, &mut results);
    assert_eq!(results.len(), 2);

    let mut evaluations = Vec::new();
    for r in results.into_iter() {
        let e = evaluate_schedule(r);
        assert!(matches!(e.score, Score::Finite(_)));
        evaluations.push(e);
    }
    // Both assignments carry identical metric tuples (single classes on
    // each day, earliest hour 9 in both), so neither dominates the other
    // and the filter keeps both.
    let kept = prune(&mut evaluations);
    assert_eq!(kept.len(), 2);

    // The full pipeline reaches the same frontier.
    let ranked = rank_schedules(&courses);
    assert_eq!(ranked.len(), 2);
    assert_eq!(ranked[0].schedule.len(), 4);
    assert!(matches!(ranked[0].score, Score::Finite(_)));
}

#[test]
fn ranking_orders_by_score_descending() {
    // An 18-credit singleton (finite score) and a 5-credit singleton
    // (negative infinity) end up best first.
    let courses = [course(
        "a",
        vec![
            sec("a_light", 5, vec![td(0, 12, 0, 50)]),
            sec("a_full", 18, vec![td(0, 12, 0, 50)]),
        ],
    )];
    let ranked = rank_schedules(&courses);
    assert_eq!(ranked.len(), 2);
    assert_eq!(ranked[0].score, Score::Finite(0));
    assert_eq!(ranked[1].score, Score::NegInfinity);
}
