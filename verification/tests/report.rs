use minecraft_afk_bot::bot::{Action, Settings, State};
use minecraft_afk_bot::datatypes::{Float, VarInt};
use minecraft_afk_bot::packets::ClientBound;
use minecraft_afk_bot::report::{append_decimal, append_name, statistics_text};

fn names() -> Vec<(i64, String)> {
    vec![
        (102, "Zombie".to_string()),
        (80, "Spider".to_string()),
        (8, "Cave Spider".to_string()),
        (80, "Second Spider".to_string()),
    ]
}

fn decimal(n: i128) -> String {
    let mut text = String::new();
    append_decimal(&mut text, n);
    text
}

#[test]
fn decimal_is_the_usual_writing() {
    for n in [
        0i128,
        1,
        9,
        10,
        11,
        99,
        100,
        101,
        1000,
        12345678901234567890,
        -1,
        -9,
        -10,
        -100,
        i64::MAX as i128,
        i64::MIN as i128,
        i64::MAX as i128 - i64::MIN as i128,
        i128::MAX,
        i128::MIN,
    ] {
        assert_eq!(decimal(n), format!("{}", n));
    }
}

#[test]
fn decimal_is_written_behind_the_text() {
    let mut text = "kills: ".to_string();
    append_decimal(&mut text, -42);
    assert_eq!(text, "kills: -42");
}

#[test]
fn name_is_the_first_for_its_id() {
    let mut text = String::new();
    append_name(&mut text, &names(), 80);
    assert_eq!(text, "Spider");
    append_name(&mut text, &names(), 8);
    assert_eq!(text, "SpiderCave Spider");
}

#[test]
fn unknown_mob_has_a_placeholder() {
    let mut text = String::new();
    append_name(&mut text, &names(), 81);
    assert_eq!(text, "{UNKNOWN MOB}");
    let mut text = String::new();
    append_name(&mut text, &vec![], 102);
    assert_eq!(text, "{UNKNOWN MOB}");
}

#[test]
fn report_has_a_line_for_each_entry() {
    assert_eq!(
        statistics_text(&names(), &vec![(VarInt(102), 3)]),
        "Zombie: 3\n"
    );
    assert_eq!(
        statistics_text(
            &names(),
            &vec![(VarInt(102), 3), (VarInt(5), 1), (VarInt(8), -2)]
        ),
        "Zombie: 3\n{UNKNOWN MOB}: 1\nCave Spider: -2\n"
    );
}

#[test]
fn report_without_entries_says_so() {
    assert_eq!(statistics_text(&names(), &vec![]), "No statistics to show yet.");
}

#[test]
fn statistics_from_the_first_report_to_the_text() {
    let settings = Settings {
        sneak: false,
        attack_mobs: vec![],
        eat_food: vec![],
        attack_speed: Float(0),
        weapon: 0,
        min_health: Float(0),
        eat_at: Float(0),
    };
    let stat = |id: i64, value: i64| (VarInt(6), VarInt(id), VarInt(value));
    let mut state = State::new(0);
    let mut shown = Vec::new();
    for report in [
        vec![stat(102, 10), stat(80, 4)],
        vec![stat(102, 15), stat(80, 4)],
        vec![stat(102, 15), stat(80, 4)],
        vec![stat(102, 10), stat(80, 4)],
    ] {
        for action in state.handle_packet(&settings, ClientBound::Statistics(report)) {
            match action {
                Action::Statistics(kills) => shown.push(statistics_text(&names(), &kills)),
                other => panic!("{:?}", other),
            }
        }
    }
    assert_eq!(
        shown,
        vec![
            "No statistics to show yet.".to_string(),
            "Zombie: 5\n".to_string(),
            "Zombie: 5\n".to_string(),
            "No statistics to show yet.".to_string(),
        ]
    );
}
