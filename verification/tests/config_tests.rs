use galaxy_sim::config::{config_entries, count_setting, parse_usize, split_pair, ConfigKey};
use galaxy_sim::text::{is_whitespace, trim_bounds};

fn chars(s: &str) -> Vec<char> {
    s.chars().collect()
}

fn entries(s: &str) -> Vec<(ConfigKey, String)> {
    config_entries(&chars(s))
        .into_iter()
        .map(|e| (e.key, e.value.iter().collect()))
        .collect()
}

#[test]
fn reads_assignments_inside_the_block() {
    let text = "# Title\n\n```config\ndt = 0.1\nn: 200\n```\n";
    assert_eq!(
        entries(text),
        vec![(ConfigKey::Dt, "0.1".to_string()), (ConfigKey::N, "200".to_string())]
    );
}

#[test]
fn ignores_lines_outside_the_block() {
    let text = "dt = 9\n```config\ntheta = 0.5\n```\nepsilon = 3\n";
    assert_eq!(entries(text), vec![(ConfigKey::Theta, "0.5".to_string())]);
}

#[test]
fn text_without_block_gives_nothing() {
    assert!(entries("dt = 1\nn = 2\n").is_empty());
    assert!(entries("").is_empty());
}

#[test]
fn stops_at_the_closing_fence() {
    let text = "```config\nn = 1\n```\n```config\nn = 2\n```\n";
    assert_eq!(entries(text), vec![(ConfigKey::N, "1".to_string())]);
}

#[test]
fn skips_blank_and_comment_lines() {
    let text = "```config\n\n   \n# n = 5\n  #dt=1\nn = 7\n```";
    assert_eq!(entries(text), vec![(ConfigKey::N, "7".to_string())]);
}

#[test]
fn equals_sign_takes_precedence_over_colon() {
    let text = "```config\ndt: 1 = 2\nn: 3\n```";
    // "dt: 1" is not a setting name, so the first line assigns nothing.
    assert_eq!(entries(text), vec![(ConfigKey::N, "3".to_string())]);
    let text = "```config\ndt = a:b\n```";
    assert_eq!(entries(text), vec![(ConfigKey::Dt, "a:b".to_string())]);
}

#[test]
fn unknown_keys_and_lines_without_separator_are_ignored() {
    let text = "```config\nspeed = 3\njust words\nflyby_angle=0.4\n```";
    assert_eq!(entries(text), vec![(ConfigKey::FlybyAngle, "0.4".to_string())]);
}

#[test]
fn trims_keys_values_and_carriage_returns() {
    let text = "  ```config extra  \r\n\t prob_merge \t=\t 0.2 \r\n```\r\n";
    assert_eq!(entries(text), vec![(ConfigKey::ProbMerge, "0.2".to_string())]);
}

#[test]
fn an_opening_fence_inside_the_block_keeps_reading() {
    let text = "```config\nn = 1\n```config\nn = 2\n```\n";
    assert_eq!(
        entries(text),
        vec![(ConfigKey::N, "1".to_string()), (ConfigKey::N, "2".to_string())]
    );
}

#[test]
fn block_without_closing_fence_runs_to_the_end() {
    let text = "```config\nn = 1\nouter_ring_spawn_zone_outer_radius = 400";
    assert_eq!(
        entries(text),
        vec![
            (ConfigKey::N, "1".to_string()),
            (ConfigKey::OuterRingSpawnZoneOuterRadius, "400".to_string())
        ]
    );
}

#[test]
fn every_setting_name_is_recognised() {
    let names = [
        ("dt", ConfigKey::Dt),
        ("n", ConfigKey::N),
        ("theta", ConfigKey::Theta),
        ("epsilon", ConfigKey::Epsilon),
        ("accretion_spawn_rate", ConfigKey::AccretionSpawnRate),
        ("inner_radius", ConfigKey::InnerRadius),
        ("outer_radius", ConfigKey::OuterRadius),
        ("outer_ring_spawn_zone_inner_radius", ConfigKey::OuterRingSpawnZoneInnerRadius),
        ("outer_ring_spawn_zone_outer_radius", ConfigKey::OuterRingSpawnZoneOuterRadius),
        ("central_mass", ConfigKey::CentralMass),
        ("particle_mass_range", ConfigKey::ParticleMassRange),
        ("inflow_strength", ConfigKey::InflowStrength),
        ("restore_strength", ConfigKey::RestoreStrength),
        ("galaxy_separation_factor", ConfigKey::GalaxySeparationFactor),
        ("prob_merge", ConfigKey::ProbMerge),
        ("prob_repeated", ConfigKey::ProbRepeated),
        ("prob_flyby", ConfigKey::ProbFlyby),
        ("merge_speed_factor", ConfigKey::MergeSpeedFactor),
        ("repeated_speed_factor", ConfigKey::RepeatedSpeedFactor),
        ("flyby_speed_factor", ConfigKey::FlybySpeedFactor),
        ("merge_angle", ConfigKey::MergeAngle),
        ("repeated_angle", ConfigKey::RepeatedAngle),
        ("flyby_angle", ConfigKey::FlybyAngle),
    ];
    let mut text = String::from("```config\n");
    for (name, _) in names.iter() {
        text.push_str(&format!("{} = v_{}\n", name, name));
    }
    text.push_str("```\n");
    let got = entries(&text);
    assert_eq!(got.len(), names.len());
    for ((name, key), (k, v)) in names.iter().zip(got.iter()) {
        assert_eq!(key, k);
        assert_eq!(&format!("v_{}", name), v);
    }
}

#[test]
fn values_are_trimmed() {
    for (key, value) in entries("```config\n dt =   \u{3000}7\u{a0} \n```") {
        assert_eq!(key, ConfigKey::Dt);
        assert_eq!(value, "7");
        assert_eq!(value.trim(), value);
    }
}

#[test]
fn parse_usize_examples() {
    assert_eq!(parse_usize(&chars("42")), Some(42));
    assert_eq!(parse_usize(&chars("+7")), Some(7));
    assert_eq!(parse_usize(&chars("007")), Some(7));
    assert_eq!(parse_usize(&chars("0")), Some(0));
    assert_eq!(parse_usize(&chars("")), None);
    assert_eq!(parse_usize(&chars("+")), None);
    assert_eq!(parse_usize(&chars("-1")), None);
    assert_eq!(parse_usize(&chars("-0")), None);
    assert_eq!(parse_usize(&chars("++1")), None);
    assert_eq!(parse_usize(&chars("1_000")), None);
    assert_eq!(parse_usize(&chars(" 1")), None);
    assert_eq!(parse_usize(&chars("1.5")), None);
    assert_eq!(parse_usize(&chars("\u{0661}")), None);
    let max = usize::MAX.to_string();
    assert_eq!(parse_usize(&chars(&max)), Some(usize::MAX));
    let over = format!("{}0", max);
    assert_eq!(parse_usize(&chars(&over)), None);
}

#[test]
fn parse_usize_agrees_with_from_str() {
    let samples = [
        "", "+", "-", "0", "1", "+0", "-5", "12a", "a12", "99999999999999999999",
        "18446744073709551615", "18446744073709551616", "4294967295", "4294967296",
        "+18446744073709551615", "00000000000000000000000001", " 3", "3 ", "٣",
    ];
    for s in samples.iter() {
        assert_eq!(parse_usize(&chars(s)), s.parse::<usize>().ok(), "input {:?}", s);
    }
    let mut state: u64 = 0x2545_f491_4f6c_dd1d;
    let alphabet = ['0', '1', '5', '9', '+', '-', ' ', 'x'];
    for _ in 0..2000 {
        let mut s = String::new();
        state = state.wrapping_mul(6364136223846793005).wrapping_add(1442695040888963407);
        let len = (state >> 60) as usize;
        for _ in 0..len {
            state = state.wrapping_mul(6364136223846793005).wrapping_add(1442695040888963407);
            s.push(alphabet[(state >> 61) as usize]);
        }
        assert_eq!(parse_usize(&chars(&s)), s.parse::<usize>().ok(), "input {:?}", s);
    }
}

#[test]
fn split_pair_examples() {
    let pair = |s: &str| {
        split_pair(&chars(s)).map(|(a, b)| {
            (a.iter().collect::<String>(), b.iter().collect::<String>())
        })
    };
    assert_eq!(pair("0.5, 2.0"), Some(("0.5".to_string(), "2.0".to_string())));
    assert_eq!(pair(" 1 ,2"), Some(("1".to_string(), "2".to_string())));
    assert_eq!(pair(","), Some((String::new(), String::new())));
    assert_eq!(pair("1,2,3"), None);
    assert_eq!(pair("12"), None);
    assert_eq!(pair(""), None);
}

#[test]
fn whitespace_matches_char_is_whitespace() {
    for u in 0u32..=0x10FFFF {
        if let Some(c) = char::from_u32(u) {
            assert_eq!(is_whitespace(c), c.is_whitespace(), "code point {:#x}", u);
        }
    }
}

#[test]
fn trim_bounds_matches_str_trim() {
    let samples = ["", "   ", " a ", "\tab c\r", "x", "\u{2003}y\u{2029}", "a  ", "  a"];
    for s in samples.iter() {
        let v = chars(s);
        let (a, b) = trim_bounds(&v, 0, v.len());
        let got: String = v[a..b].iter().collect();
        assert_eq!(got, s.trim());
    }
    let v = chars("[  mid  ]");
    let (a, b) = trim_bounds(&v, 1, v.len() - 1);
    assert_eq!(v[a..b].iter().collect::<String>(), "mid");
}

#[test]
fn count_setting_takes_the_last_valid_value() {
    let e = |s: &str| config_entries(&chars(s));
    assert_eq!(count_setting(&e("```config\nn = 5\nn = x\ndt = 3\n```"), 100), 5);
    assert_eq!(count_setting(&e("```config\nn = 5\nn = 9\n```"), 100), 9);
    assert_eq!(count_setting(&e("```config\nn = -1\n```"), 100), 100);
    assert_eq!(count_setting(&e("n = 4\n"), 100), 100);
    assert_eq!(count_setting(&e("```config\nn : +12\n```\nn = 3"), 0), 12);
}
