use timetable_core::config::{
    day_index, default_fg_color, period_index, Config, Mapping, Override, OverrideOutcome,
};
use timetable_core::timetable::{Lesson, Week};

fn rule(prefix: &str, bg: &str, fg: Option<&str>, map_id: &str) -> Mapping {
    Mapping::new(
        prefix.to_string(),
        bg.to_string(),
        fg.map(|s| s.to_string()),
        map_id.to_string(),
        None,
    )
}

fn lesson(subject: &str, room: &str, teacher: &str, class_code: &str, day: usize, period: usize) -> Lesson {
    Lesson {
        subject: subject.into(),
        room: room.into(),
        teacher: teacher.into(),
        class_code: class_code.into(),
        day_index: day,
        period_index: period,
    }
}

fn one_week(lessons: Vec<Lesson>) -> Vec<Week> {
    vec![Week {
        lessons,
        week_name: "Week 1".into(),
        student_name: None,
        form: None,
    }]
}

fn correction(week: usize, day: &str, period: &str) -> Override {
    Override {
        week,
        day: day.into(),
        period: period.into(),
        subject: None,
        room: None,
        teacher: None,
        class_code: None,
    }
}

#[test]
fn test_get_style_for_room_longest_prefix() {
    let cfg = Config {
        mappings: vec![
            rule("M", "#fff", Some("#000"), "M_rooms"),
            rule("MA", "#abc", Some("#111"), "MA_rooms"),
        ],
        overrides: vec![],
    };
    let m = cfg.get_style_for_room("MA12").unwrap();
    assert_eq!(m.prefix, "MA");
    assert_eq!(m.bg_color, "#abc");
}

#[test]
fn test_default_fg_color() {
    let cfg = Config {
        mappings: vec![rule("EN", "#ddeeff", None, "EN_rooms")],
        overrides: vec![],
    };
    let m = cfg.get_style_for_room("EN4").unwrap();
    assert_eq!(m.fg_color, "#231f20");
}

#[test]
fn test_apply_overrides_updates_lesson() {
    let mut weeks = one_week(vec![lesson("Maths", "MA3", "Mr A", "MA3", 3, 1)]);
    let mut o = correction(1, "Thursday", "L1");
    o.room = Some("SC6".into());
    o.teacher = Some("Mr Test B".into());
    let cfg = Config { mappings: vec![], overrides: vec![o] };
    cfg.apply_overrides(&mut weeks);

    let lesson = &weeks[0].lessons[0];
    assert_eq!(lesson.room, "SC6");
    assert_eq!(lesson.teacher, "Mr Test B");
}

#[test]
fn override_scenario_keeps_other_fields() {
    let mut weeks = one_week(vec![lesson("Maths", "MA3", "Mr A", "10X1", 3, 1)]);
    let mut o = correction(1, "Thursday", "L1");
    o.room = Some("SC6".into());
    o.teacher = Some("Mr Test B".into());
    let cfg = Config { mappings: vec![], overrides: vec![o] };
    let outcomes = cfg.apply_overrides(&mut weeks);
    assert_eq!(outcomes, vec![OverrideOutcome::Applied]);
    let l = &weeks[0].lessons[0];
    assert_eq!(l.subject, "Maths");
    assert_eq!(l.class_code, "10X1");
    assert_eq!(l.room, "SC6");
    assert_eq!(l.teacher, "Mr Test B");
}

#[test]
fn style_lookup_without_match_is_none() {
    let cfg = Config {
        mappings: vec![rule("M", "#fff", None, "M_rooms"), rule("SC", "#0f0", None, "SC_rooms")],
        overrides: vec![],
    };
    assert!(cfg.get_style_for_room("EN4").is_none());
    assert!(cfg.get_style_for_room("").is_none());
    let empty = Config { mappings: vec![], overrides: vec![] };
    assert!(empty.get_style_for_room("MA1").is_none());
}

#[test]
fn style_lookup_prefers_longest_then_first() {
    let cfg = Config {
        mappings: vec![
            rule("MA", "#111", None, "first"),
            rule("M", "#222", None, "short"),
            rule("MA", "#333", None, "second"),
        ],
        overrides: vec![],
    };
    assert_eq!(cfg.get_style_for_room("MA12").unwrap().map_id, "first");
    assert_eq!(cfg.get_style_for_room("MB1").unwrap().map_id, "short");
    assert_eq!(cfg.get_style_for_room("M").unwrap().map_id, "short");
}

#[test]
fn style_lookup_empty_prefix_matches_everything() {
    let cfg = Config {
        mappings: vec![rule("", "#000", None, "any"), rule("SC", "#0f0", None, "science")],
        overrides: vec![],
    };
    assert_eq!(cfg.get_style_for_room("EN1").unwrap().map_id, "any");
    assert_eq!(cfg.get_style_for_room("SC2").unwrap().map_id, "science");
}

#[test]
fn explicit_fg_color_is_kept() {
    let m = rule("EN", "#ddeeff", Some("#123456"), "EN_rooms");
    assert_eq!(m.fg_color, "#123456");
    assert_eq!(default_fg_color(), "#231f20");
}

#[test]
fn day_and_period_names() {
    assert_eq!(day_index("Monday"), Some(0));
    assert_eq!(day_index("TUE"), Some(1));
    assert_eq!(day_index("wednesday"), Some(2));
    assert_eq!(day_index("Thu"), Some(3));
    assert_eq!(day_index("FrIdAy"), Some(4));
    assert_eq!(day_index("Saturday"), None);
    assert_eq!(day_index("Thurs"), None);
    assert_eq!(period_index("pd"), Some(0));
    assert_eq!(period_index("L1"), Some(1));
    assert_eq!(period_index("l5"), Some(5));
    assert_eq!(period_index("L6"), None);
    assert_eq!(period_index(""), None);
}

#[test]
fn applying_an_override_twice_equals_once() {
    let mut o = correction(1, "mon", "pd");
    o.subject = Some("Art".into());
    o.class_code = Some("9A".into());
    let mut once = one_week(vec![lesson("Maths", "MA3", "Mr A", "10X1", 0, 0)]);
    let mut twice = one_week(vec![lesson("Maths", "MA3", "Mr A", "10X1", 0, 0)]);
    Config { mappings: vec![], overrides: vec![o.clone()] }.apply_overrides(&mut once);
    Config { mappings: vec![], overrides: vec![o.clone(), o] }.apply_overrides(&mut twice);
    let (a, b) = (&once[0].lessons[0], &twice[0].lessons[0]);
    assert_eq!(a.subject, "Art");
    assert_eq!(a.class_code, "9A");
    assert_eq!((&a.subject, &a.room, &a.teacher, &a.class_code), (&b.subject, &b.room, &b.teacher, &b.class_code));
}

#[test]
fn override_week_out_of_range_changes_nothing() {
    let mut weeks = one_week(vec![lesson("Maths", "MA3", "Mr A", "10X1", 3, 1)]);
    let mut zero = correction(0, "Thursday", "L1");
    zero.room = Some("SC6".into());
    let mut past = correction(2, "Thursday", "L1");
    past.room = Some("SC7".into());
    let cfg = Config { mappings: vec![], overrides: vec![zero, past] };
    let outcomes = cfg.apply_overrides(&mut weeks);
    assert_eq!(outcomes, vec![OverrideOutcome::WeekOutOfRange, OverrideOutcome::WeekOutOfRange]);
    assert_eq!(weeks[0].lessons[0].room, "MA3");
}

#[test]
fn override_without_matching_lesson_changes_nothing() {
    let mut weeks = one_week(vec![lesson("Maths", "MA3", "Mr A", "10X1", 3, 1)]);
    let mut o = correction(1, "Friday", "L1");
    o.room = Some("SC6".into());
    let cfg = Config { mappings: vec![], overrides: vec![o] };
    assert_eq!(cfg.apply_overrides(&mut weeks), vec![OverrideOutcome::NoLesson]);
    assert_eq!(weeks[0].lessons[0].room, "MA3");
    assert_eq!(weeks[0].lessons.len(), 1);
}

#[test]
fn override_with_unknown_day_or_period_is_skipped() {
    let mut weeks = one_week(vec![lesson("Maths", "MA3", "Mr A", "10X1", 3, 1)]);
    let mut bad_day = correction(1, "Someday", "L1");
    bad_day.room = Some("X".into());
    let mut bad_period = correction(1, "Thursday", "L9");
    bad_period.room = Some("Y".into());
    let cfg = Config { mappings: vec![], overrides: vec![bad_day, bad_period] };
    assert_eq!(
        cfg.apply_overrides(&mut weeks),
        vec![OverrideOutcome::UnknownDay, OverrideOutcome::UnknownPeriod]
    );
    assert_eq!(weeks[0].lessons[0].room, "MA3");
}

#[test]
fn later_override_wins_and_first_lesson_is_targeted() {
    let mut weeks = one_week(vec![
        lesson("Maths", "MA3", "Mr A", "10X1", 2, 3),
        lesson("Music", "MU1", "Ms B", "10X2", 2, 3),
    ]);
    let mut first = correction(1, "Wed", "L3");
    first.room = Some("R1".into());
    first.teacher = Some("T1".into());
    let mut second = correction(1, "wednesday", "l3");
    second.room = Some("R2".into());
    let cfg = Config { mappings: vec![], overrides: vec![first, second] };
    assert_eq!(
        cfg.apply_overrides(&mut weeks),
        vec![OverrideOutcome::Applied, OverrideOutcome::Applied]
    );
    assert_eq!(weeks[0].lessons[0].room, "R2");
    assert_eq!(weeks[0].lessons[0].teacher, "T1");
    assert_eq!(weeks[0].lessons[1].room, "MU1");
}
