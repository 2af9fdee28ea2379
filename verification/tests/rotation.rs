use log_maintenance::config::{resolve_config, ConfigSource};
use log_maintenance::errors::{ConfigError, Error};
use log_maintenance::groups::{build_groups, ScanEntry};
use log_maintenance::names::{make_file_name, parse_file_name};
use log_maintenance::rotate::{plan_rotation, rotation_plan_for_entries, FileOp};

fn entry(name: &[u8], len: u64) -> ScanEntry {
    ScanEntry { name: name.to_vec(), len }
}

#[test]
fn primary_file_classifies_as_generation_zero() {
    let r = parse_file_name(b"alpha.log").unwrap().unwrap();
    assert_eq!(r.0, b"alpha".to_vec());
    assert_eq!(r.1, 0);
}

#[test]
fn numbered_file_classifies_as_its_generation() {
    let r = parse_file_name(b"alpha.3.log").unwrap().unwrap();
    assert_eq!(r.0, b"alpha".to_vec());
    assert_eq!(r.1, 3);

    let r = parse_file_name(b"server.10.log").unwrap().unwrap();
    assert_eq!(r.0, b"server".to_vec());
    assert_eq!(r.1, 10);
}

#[test]
fn signed_and_zero_padded_numbers_parse() {
    // The standard integer parser tolerates a leading plus sign and
    // leading zeros; classification does too.
    let r = parse_file_name(b"alpha.+7.log").unwrap().unwrap();
    assert_eq!(r.1, 7);
    let r = parse_file_name(b"alpha.007.log").unwrap().unwrap();
    assert_eq!(r.1, 7);
}

#[test]
fn only_the_second_segment_decides() {
    // Segments after the second are ignored, as splitting on `.` and
    // reading only the first two segments implies.
    let r = parse_file_name(b"alpha.log.gz").unwrap().unwrap();
    assert_eq!(r.0, b"alpha".to_vec());
    assert_eq!(r.1, 0);
    let r = parse_file_name(b"alpha.2.old").unwrap().unwrap();
    assert_eq!(r.1, 2);
}

#[test]
fn dotfiles_are_ignored() {
    assert!(parse_file_name(b".hidden").unwrap().is_none());
    assert!(parse_file_name(b".log").unwrap().is_none());
    assert!(parse_file_name(b".alpha.log").unwrap().is_none());
}

#[test]
fn malformed_names_are_rejected() {
    for name in [
        b"weird" as &[u8],
        b"alpha.",
        b"alpha.txt",
        b"alpha.300.log",
        b"alpha.12x.log",
        b"alpha.+.log",
        b"alpha.-3.log",
        b"",
    ] {
        match parse_file_name(name) {
            Err(Error::FilenameParse(n)) => assert_eq!(n, name.to_vec()),
            other => panic!("expected a filename parse error, got {:?}", other),
        }
    }
}

#[test]
fn largest_generation_number_parses() {
    let r = parse_file_name(b"alpha.255.log").unwrap().unwrap();
    assert_eq!(r.1, 255);
    assert!(matches!(
        parse_file_name(b"alpha.256.log"),
        Err(Error::FilenameParse(_))
    ));
}

#[test]
fn scan_groups_by_base_name() {
    let entries = vec![
        entry(b"alpha.log", 150),
        entry(b"beta.1.log", 0),
        entry(b"alpha.2.log", 0),
        entry(b"beta.log", 50),
        entry(b".cache", 0),
    ];
    let groups = build_groups(&entries).unwrap();
    assert_eq!(groups.len(), 2);
    assert_eq!(groups.base_at(0).clone(), b"alpha".to_vec());
    assert_eq!(groups.numbers_at(0).clone(), vec![0, 2]);
    assert_eq!(groups.size_at(0), 150);
    assert_eq!(groups.base_at(1).clone(), b"beta".to_vec());
    assert_eq!(groups.numbers_at(1).clone(), vec![1, 0]);
    assert_eq!(groups.size_at(1), 50);
}

#[test]
fn scan_aborts_on_first_malformed_name() {
    let entries = vec![
        entry(b"alpha.log", 150),
        entry(b"weird", 0),
        entry(b"beta.log", 500),
    ];
    match build_groups(&entries) {
        Err(Error::FilenameParse(n)) => assert_eq!(n, b"weird".to_vec()),
        other => panic!("expected a filename parse error, got {:?}", other),
    }
}

#[test]
fn oversized_primary_without_siblings_is_rotated() {
    // max_size = 100, alpha.log is 150 bytes, no numbered siblings:
    // alpha.log is copied to alpha.1.log and truncated; nothing else.
    let entries = vec![entry(b"alpha.log", 150)];
    let plan = rotation_plan_for_entries(&entries, 100, 10).unwrap();
    assert_eq!(
        plan,
        vec![
            FileOp::CopyTo(b"alpha.log".to_vec(), b"alpha.1.log".to_vec()),
            FileOp::Truncate(b"alpha.log".to_vec()),
        ]
    );
}

#[test]
fn small_primary_is_left_alone() {
    // max_size = 100, alpha.log is 50 bytes: no files are modified.
    let entries = vec![entry(b"alpha.log", 50)];
    let plan = rotation_plan_for_entries(&entries, 100, 10).unwrap();
    assert!(plan.is_empty());
}

#[test]
fn boundary_size_is_not_rotated() {
    // Rotation requires strictly exceeding the threshold.
    let entries = vec![entry(b"alpha.log", 100)];
    let plan = rotation_plan_for_entries(&entries, 100, 10).unwrap();
    assert!(plan.is_empty());
}

#[test]
fn malformed_name_aborts_before_any_rotation() {
    // A file named `weird` aborts the run; no plan is produced even for
    // groups that would otherwise rotate, since classification of all
    // entries completes before any rotation is planned.
    let entries = vec![entry(b"alpha.log", 1000), entry(b"weird", 0)];
    match rotation_plan_for_entries(&entries, 100, 10) {
        Err(Error::FilenameParse(n)) => assert_eq!(n, b"weird".to_vec()),
        other => panic!("expected a filename parse error, got {:?}", other),
    }
}

#[test]
fn full_group_shifts_within_the_ceiling() {
    // Generations {0, 1, ..., 10} present: generation 10 is deleted,
    // 9 down to 1 are shifted up by one, the primary is copied to
    // generation 1 and truncated. No generation 11 appears.
    let mut entries = vec![entry(b"alpha.log", 200)];
    for n in 1..=10u32 {
        entries.push(entry(format!("alpha.{}.log", n).as_bytes(), 7));
    }
    let plan = rotation_plan_for_entries(&entries, 100, 10).unwrap();

    let mut expected = vec![FileOp::Remove(b"alpha.10.log".to_vec())];
    for n in (1..=9u32).rev() {
        expected.push(FileOp::CopyTo(
            format!("alpha.{}.log", n).into_bytes(),
            format!("alpha.{}.log", n + 1).into_bytes(),
        ));
        expected.push(FileOp::Truncate(format!("alpha.{}.log", n).into_bytes()));
    }
    expected.push(FileOp::CopyTo(
        b"alpha.log".to_vec(),
        b"alpha.1.log".to_vec(),
    ));
    expected.push(FileOp::Truncate(b"alpha.log".to_vec()));
    assert_eq!(plan, expected);

    for op in &plan {
        let names: Vec<&Vec<u8>> = match op {
            FileOp::Remove(p) => vec![p],
            FileOp::CopyTo(f, t) => vec![f, t],
            FileOp::Truncate(p) => vec![p],
        };
        for name in names {
            let text = String::from_utf8(name.clone()).unwrap();
            assert!(!text.contains(".11."), "generation beyond the ceiling: {}", text);
        }
    }
}

#[test]
fn second_pass_after_rotation_plans_nothing() {
    // Freshly rotated: the primary is now empty, so an immediate second
    // pass performs no further rotation for any non-negative threshold.
    let entries = vec![
        entry(b"alpha.log", 0),
        entry(b"alpha.1.log", 150),
        entry(b"alpha.2.log", 150),
    ];
    for max_size in [0, 1, 100, u64::MAX] {
        let plan = rotation_plan_for_entries(&entries, max_size, 10).unwrap();
        assert!(plan.is_empty());
    }
}

#[test]
fn gaps_are_shifted_as_found() {
    // Generation 3 present without 1 and 2: it is still shifted to 4;
    // nothing is synthesized for the missing generations.
    let entries = vec![entry(b"alpha.log", 150), entry(b"alpha.3.log", 10)];
    let plan = rotation_plan_for_entries(&entries, 100, 10).unwrap();
    assert_eq!(
        plan,
        vec![
            FileOp::CopyTo(b"alpha.3.log".to_vec(), b"alpha.4.log".to_vec()),
            FileOp::Truncate(b"alpha.3.log".to_vec()),
            FileOp::CopyTo(b"alpha.log".to_vec(), b"alpha.1.log".to_vec()),
            FileOp::Truncate(b"alpha.log".to_vec()),
        ]
    );
}

#[test]
fn generation_above_the_ceiling_is_shifted_past_it() {
    // A leftover generation above the ceiling is treated like any other
    // generation and shifted further up, past the retention window.
    let entries = vec![entry(b"alpha.log", 150), entry(b"alpha.11.log", 10)];
    let plan = rotation_plan_for_entries(&entries, 100, 10).unwrap();
    assert_eq!(
        plan,
        vec![
            FileOp::CopyTo(b"alpha.11.log".to_vec(), b"alpha.12.log".to_vec()),
            FileOp::Truncate(b"alpha.11.log".to_vec()),
            FileOp::CopyTo(b"alpha.log".to_vec(), b"alpha.1.log".to_vec()),
            FileOp::Truncate(b"alpha.log".to_vec()),
        ]
    );
}

#[test]
fn only_oversized_groups_are_touched() {
    let entries = vec![
        entry(b"alpha.log", 150),
        entry(b"beta.log", 10),
        entry(b"beta.1.log", 999),
    ];
    let plan = rotation_plan_for_entries(&entries, 100, 10).unwrap();
    assert_eq!(
        plan,
        vec![
            FileOp::CopyTo(b"alpha.log".to_vec(), b"alpha.1.log".to_vec()),
            FileOp::Truncate(b"alpha.log".to_vec()),
        ]
    );
}

#[test]
fn plan_rotation_follows_group_order() {
    let entries = vec![entry(b"beta.log", 500), entry(b"alpha.log", 500)];
    let groups = build_groups(&entries).unwrap();
    let plan = plan_rotation(&groups, 100, 10);
    assert_eq!(
        plan,
        vec![
            FileOp::CopyTo(b"beta.log".to_vec(), b"beta.1.log".to_vec()),
            FileOp::Truncate(b"beta.log".to_vec()),
            FileOp::CopyTo(b"alpha.log".to_vec(), b"alpha.1.log".to_vec()),
            FileOp::Truncate(b"alpha.log".to_vec()),
        ]
    );
}

#[test]
fn config_defaults_apply_without_a_source() {
    let c = resolve_config(Some(b"/home/u".to_vec()), ConfigSource::Absent, 1024).unwrap();
    assert_eq!(c.log_dir, b"/home/u/logs".to_vec());
    assert_eq!(c.max_size, 1024);
}

#[test]
fn config_declared_values_take_effect() {
    let c = resolve_config(
        Some(b"/home/u".to_vec()),
        ConfigSource::Declared { log_dir: b"/var/log/app".to_vec(), max_size: 4096 },
        1024,
    )
    .unwrap();
    assert_eq!(c.log_dir, b"/var/log/app".to_vec());
    assert_eq!(c.max_size, 4096);
}

#[test]
fn config_fails_without_a_home_directory() {
    match resolve_config(None, ConfigSource::Absent, 1024) {
        Err(Error::Config(ConfigError::HomeNotFound)) => {}
        other => panic!("expected a home lookup failure, got {:?}", other),
    }
}

#[test]
fn config_fails_on_a_malformed_source() {
    match resolve_config(Some(b"/home/u".to_vec()), ConfigSource::Malformed, 1024) {
        Err(Error::Config(ConfigError::Malformed)) => {}
        other => panic!("expected a malformed-source failure, got {:?}", other),
    }
}

#[test]
fn file_names_are_rendered_exactly() {
    assert_eq!(make_file_name(b"alpha", 0), b"alpha.log".to_vec());
    assert_eq!(make_file_name(b"alpha", 7), b"alpha.7.log".to_vec());
    assert_eq!(make_file_name(b"alpha", 12), b"alpha.12.log".to_vec());
    assert_eq!(make_file_name(b"alpha", 256), b"alpha.256.log".to_vec());
}

#[test]
fn duplicate_entries_are_recorded_and_shifted_twice() {
    // The same filename can be listed twice when the traversal reaches
    // nested directories; it is recorded twice and shifted twice.
    let entries = vec![entry(b"alpha.log", 150), entry(b"alpha.log", 150)];
    let groups = build_groups(&entries).unwrap();
    assert_eq!(groups.len(), 1);
    assert_eq!(groups.numbers_at(0).clone(), vec![0, 0]);
    let plan = plan_rotation(&groups, 100, 10);
    assert_eq!(
        plan,
        vec![
            FileOp::CopyTo(b"alpha.log".to_vec(), b"alpha.1.log".to_vec()),
            FileOp::Truncate(b"alpha.log".to_vec()),
            FileOp::CopyTo(b"alpha.log".to_vec(), b"alpha.1.log".to_vec()),
            FileOp::Truncate(b"alpha.log".to_vec()),
        ]
    );
}

#[test]
fn default_group_is_empty() {
    let log = log_maintenance::groups::Log::default();
    assert!(log.numbers.is_empty());
    assert_eq!(log.main_size, 0);
}

#[test]
fn other_errors_carry_their_message() {
    match Error::other("something went wrong") {
        Error::Other(m) => assert_eq!(m, "something went wrong"),
        other => panic!("expected a free-form error, got {:?}", other),
    }
}
