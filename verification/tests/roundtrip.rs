use caseconv::cases_config::{
    Case, CasesConfig, JudgeType, ResourceLimits, SubtaskEntry, TaskType,
};
use toml::{Table, Value};

fn case_to_value(c: &Case) -> Value {
    let mut t = Table::new();
    t.insert(String::from("input"), Value::String(c.input.clone()));
    t.insert(String::from("answer"), Value::String(c.answer.clone()));
    if let Some(s) = c.score {
        t.insert(String::from("score"), Value::Integer(s as i64));
    }
    Value::Table(t)
}

fn config_to_value(c: &CasesConfig) -> Value {
    let mut root = Table::new();
    root.insert(String::from("score"), Value::Integer(c.score as i64));

    let mut judge = Table::new();
    match &c.judge {
        JudgeType::Classic => {
            judge.insert(String::from("judgeType"), Value::String(String::from("classic")));
        }
        JudgeType::SpecialJudge { checker } => {
            judge.insert(
                String::from("judgeType"),
                Value::String(String::from("special-judge")),
            );
            judge.insert(String::from("checker"), Value::String(checker.clone()));
        }
    }
    root.insert(String::from("judge"), Value::Table(judge));

    let mut limits = Table::new();
    limits.insert(String::from("time"), Value::Integer(c.resource_limits.time as i64));
    limits.insert(String::from("memory"), Value::Integer(c.resource_limits.memory as i64));
    root.insert(String::from("resourceLimits"), Value::Table(limits));

    let mut task = Table::new();
    match &c.task {
        TaskType::Simple { cases } => {
            task.insert(String::from("taskType"), Value::String(String::from("simple")));
            task.insert(
                String::from("cases"),
                Value::Array(cases.iter().map(case_to_value).collect()),
            );
        }
        TaskType::Subtask { subtasks } => {
            task.insert(String::from("taskType"), Value::String(String::from("subtask")));
            let entries = subtasks
                .iter()
                .map(|s| {
                    let mut e = Table::new();
                    e.insert(
                        String::from("cases"),
                        Value::Array(s.cases.iter().map(case_to_value).collect()),
                    );
                    e.insert(String::from("score"), Value::Integer(s.score as i64));
                    Value::Table(e)
                })
                .collect();
            task.insert(String::from("subtasks"), Value::Array(entries));
        }
    }
    root.insert(String::from("task"), Value::Table(task));
    Value::Table(root)
}

fn value_to_case(v: &Value) -> Case {
    let t = v.as_table().unwrap();
    let input = t.get("input").unwrap().as_str().unwrap().to_string();
    let answer = t.get("answer").unwrap().as_str().unwrap().to_string();
    let score = t.get("score").map(|s| s.as_integer().unwrap() as u32);
    Case::new(input, answer, score).unwrap()
}

fn value_to_config(v: &Value) -> CasesConfig {
    let t = v.as_table().unwrap();
    let score = t.get("score").unwrap().as_integer().unwrap() as u32;

    let judge_t = t.get("judge").unwrap().as_table().unwrap();
    let judge = match judge_t.get("judgeType").unwrap().as_str().unwrap() {
        "classic" => JudgeType::Classic,
        "special-judge" => JudgeType::SpecialJudge {
            checker: judge_t.get("checker").unwrap().as_str().unwrap().to_string(),
        },
        other => panic!("unknown judge type {other}"),
    };

    let limits_t = t.get("resourceLimits").unwrap().as_table().unwrap();
    let resource_limits = ResourceLimits {
        time: limits_t.get("time").unwrap().as_integer().unwrap() as u32,
        memory: limits_t.get("memory").unwrap().as_integer().unwrap() as u32,
    };

    let task_t = t.get("task").unwrap().as_table().unwrap();
    let task = match task_t.get("taskType").unwrap().as_str().unwrap() {
        "simple" => TaskType::Simple {
            cases: task_t
                .get("cases")
                .unwrap()
                .as_array()
                .unwrap()
                .iter()
                .map(value_to_case)
                .collect(),
        },
        "subtask" => TaskType::Subtask {
            subtasks: task_t
                .get("subtasks")
                .unwrap()
                .as_array()
                .unwrap()
                .iter()
                .map(|e| {
                    let et = e.as_table().unwrap();
                    SubtaskEntry {
                        cases: et
                            .get("cases")
                            .unwrap()
                            .as_array()
                            .unwrap()
                            .iter()
                            .map(value_to_case)
                            .collect(),
                        score: et.get("score").unwrap().as_integer().unwrap() as u32,
                    }
                })
                .collect(),
        },
        other => panic!("unknown task type {other}"),
    };

    CasesConfig::new(score, judge, resource_limits, task).unwrap()
}

#[test]
fn canonical_encoding_round_trips() {
    let config = CasesConfig::new(
        100,
        JudgeType::SpecialJudge { checker: String::from("checker.cpp") },
        ResourceLimits { time: 2000, memory: 262_144 },
        TaskType::Subtask {
            subtasks: vec![
                SubtaskEntry {
                    cases: vec![
                        Case::new(String::from("1.in"), String::from("1.out"), None).unwrap(),
                        Case::new(String::from("2.in"), String::from("2.out"), Some(15)).unwrap(),
                    ],
                    score: 40,
                },
                SubtaskEntry {
                    cases: vec![
                        Case::new(String::from("3.in"), String::from("3.out"), None).unwrap(),
                    ],
                    score: 60,
                },
            ],
        },
    )
    .unwrap();

    let text = toml::to_string(&config_to_value(&config)).unwrap();
    let parsed: Value = toml::from_str(&text).unwrap();
    let back = value_to_config(&parsed);
    assert_eq!(back, config);
}

#[test]
fn simple_classic_round_trips() {
    let config = CasesConfig::new(
        60,
        JudgeType::Classic,
        ResourceLimits { time: 1000, memory: 131_072 },
        TaskType::Simple {
            cases: vec![Case::new(String::from("1.in"), String::from("1.out"), None).unwrap()],
        },
    )
    .unwrap();

    let text = toml::to_string(&config_to_value(&config)).unwrap();
    let parsed: Value = toml::from_str(&text).unwrap();
    let back = value_to_config(&parsed);
    assert_eq!(back, config);
}
