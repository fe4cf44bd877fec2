use caseconv::cases_config::{
    Case, CasesConfig, JudgeType, ResourceLimits, SubtaskEntry, TaskType,
};
use caseconv::config1::ConfigData;
use caseconv::duration::{CustomDuration, DurationVisitor};
use caseconv::error::Error;
use caseconv::memory_size::CustomSize;

fn case(input: &str, answer: &str, score: Option<u32>) -> Case {
    Case::new(String::from(input), String::from(answer), score).unwrap()
}

#[test]
fn serialize_test() {
    let config = CasesConfig::new(
        100,
        JudgeType::Classic,
        ResourceLimits { time: 1000, memory: 512 },
        TaskType::Simple {
            cases: vec![case("1.in", "1.ans", None), case("2.in", "2.ans", Some(60))],
        },
    )
    .unwrap();
    assert_eq!(config.score, 100);
}

#[test]
fn deserialize_test() {
    let simple = CasesConfig::new(
        100,
        JudgeType::Classic,
        ResourceLimits { time: 1000, memory: 256 },
        TaskType::Simple {
            cases: vec![case("1.in", "1.ans", None), case("2.in", "2.ans", Some(60))],
        },
    )
    .unwrap();
    assert_eq!(simple.judge, JudgeType::Classic);
    assert_eq!(simple.resource_limits, ResourceLimits { time: 1000, memory: 256 });

    let subtasks = CasesConfig::new(
        100,
        JudgeType::SpecialJudge { checker: String::from("checker.cpp") },
        ResourceLimits { time: 1000, memory: 256 },
        TaskType::Subtask {
            subtasks: vec![
                SubtaskEntry {
                    cases: vec![case("1.in", "1.ans", None), case("2.in", "2.ans", None)],
                    score: 40,
                },
                SubtaskEntry {
                    cases: vec![case("3.in", "3.ans", None), case("4.in", "4.ans", None)],
                    score: 60,
                },
            ],
        },
    )
    .unwrap();
    match &subtasks.judge {
        JudgeType::SpecialJudge { checker } => assert_eq!(checker, "checker.cpp"),
        JudgeType::Classic => panic!("expected a special judge"),
    }
    match &subtasks.task {
        TaskType::Subtask { subtasks } => {
            assert_eq!(subtasks.len(), 2);
            assert_eq!(subtasks[0].score, 40);
            assert_eq!(subtasks[1].score, 60);
        }
        TaskType::Simple { .. } => panic!("expected subtasks"),
    }
}

#[test]
fn zero_score_always_fails() {
    let r = CasesConfig::new(
        0,
        JudgeType::Classic,
        ResourceLimits { time: 1000, memory: 256 },
        TaskType::Simple { cases: vec![] },
    );
    assert_eq!(r.unwrap_err(), Error::InvalidScore);

    let ok = CasesConfig::new(
        1,
        JudgeType::Classic,
        ResourceLimits { time: 1000, memory: 256 },
        TaskType::Simple { cases: vec![] },
    );
    assert!(ok.is_ok());
}

#[test]
fn zero_case_score_fails() {
    let r = Case::new(String::from("1.in"), String::from("1.ans"), Some(0));
    assert_eq!(r.unwrap_err(), Error::InvalidScore);
    assert!(Case::new(String::from("1.in"), String::from("1.ans"), Some(1)).is_ok());
    assert!(Case::new(String::from("1.in"), String::from("1.ans"), None).is_ok());
}

#[test]
fn adapter_uses_documented_defaults() {
    let data = ConfigData::default();
    let config = CasesConfig::try_from(&data).unwrap();
    // score and judge come from the capability defaults
    assert_eq!(config.score, 100);
    assert_eq!(config.judge, JudgeType::Classic);
    // the limits come from the schema's own decoded fields
    assert_eq!(config.resource_limits, ResourceLimits { time: 1000, memory: 131072 });
    match &config.task {
        TaskType::Simple { cases } => {
            assert_eq!(cases.len(), 1);
            assert_eq!(cases[0].input, "1.in");
            assert_eq!(cases[0].answer, "1.ans");
            assert_eq!(cases[0].score, None);
        }
        TaskType::Subtask { .. } => panic!("expected the fixed simple task"),
    }
}

#[test]
fn adapter_carries_decoded_scalars() {
    let v = DurationVisitor;
    let time = v.visit_str("2s").unwrap();
    let memory = CustomSize::from_kibibyte(262_144);
    let data = ConfigData::new(time, memory);
    let config = CasesConfig::try_from(&data).unwrap();
    assert_eq!(config.resource_limits, ResourceLimits { time: 2000, memory: 262_144 });
}

#[test]
fn adapter_narrows_time_or_fails() {
    // a duration too large for the 32-bit millisecond field
    let time = CustomDuration::from_millis(5_000_000_000);
    let data = ConfigData::new(time, CustomSize::default());
    assert_eq!(CasesConfig::try_from(&data).unwrap_err(), Error::NarrowingOverflow);
}
