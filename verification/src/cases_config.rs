use vstd::prelude::*;

use crate::error::Error;

verus! {

/// One test case: an input file, an expected-answer file, and an optional
/// per-case score that overrides any containing score when present.
#[derive(Debug, PartialEq, Eq, Clone)]
pub struct Case {
    pub input: String,
    pub answer: String,
    pub score: Option<u32>,
}

impl Case {
    /// A present per-case score must be positive; absence means "inherit".
    pub open spec fn wf(self) -> bool {
        self.score matches Some(s) ==> s >= 1
    }

    /// Builds a case, rejecting an explicit zero score.
    pub fn new(input: String, answer: String, score: Option<u32>) -> (r: Result<Case, Error>)
        ensures
            score == Some(0u32) ==> r == Err::<Case, Error>(Error::InvalidScore),
            score != Some(0u32) ==> (r matches Ok(c) && c.input == input && c.answer == answer
                && c.score == score && c.wf()),
    {
        match score {
            Some(0) => Err(Error::InvalidScore),
            _ => Ok(Case { input, answer, score }),
        }
    }
}

/// One subtask: its ordered cases and the score the subtask is worth.
#[derive(Debug, PartialEq, Eq, Clone)]
pub struct SubtaskEntry {
    pub cases: Vec<Case>,
    pub score: u32,
}

impl SubtaskEntry {
    pub open spec fn wf(self) -> bool {
        forall|i: int| 0 <= i < self.cases@.len() ==> (#[trigger] self.cases@[i]).wf()
    }
}

/// How the task is organized: one flat list of cases, or scored subtasks.
#[derive(Debug, PartialEq, Eq, Clone)]
pub enum TaskType {
    Simple { cases: Vec<Case> },
    Subtask { subtasks: Vec<SubtaskEntry> },
}

impl TaskType {
    pub open spec fn wf(self) -> bool {
        match self {
            TaskType::Simple { cases } => forall|i: int|
                0 <= i < cases@.len() ==> (#[trigger] cases@[i]).wf(),
            TaskType::Subtask { subtasks } => forall|i: int|
                0 <= i < subtasks@.len() ==> (#[trigger] subtasks@[i]).wf(),
        }
    }
}

/// How submissions are judged: byte-exact comparison, or a custom checker.
#[derive(Debug, PartialEq, Eq, Clone)]
pub enum JudgeType {
    Classic,
    SpecialJudge { checker: String },
}

/// The canonical resource limits: whole milliseconds and whole kibibytes.
#[derive(Debug, PartialEq, Eq, Clone, Copy, Structural)]
pub struct ResourceLimits {
    pub time: u32,
    pub memory: u32,
}

/// The canonical configuration every legacy schema converges to.
#[derive(Debug, PartialEq, Eq, Clone)]
pub struct CasesConfig {
    pub score: u32,
    pub judge: JudgeType,
    pub resource_limits: ResourceLimits,
    pub task: TaskType,
}

impl CasesConfig {
    /// The model's invariant: a positive total score and well-formed cases.
    pub open spec fn wf(self) -> bool {
        &&& self.score >= 1
        &&& self.task.wf()
    }

    /// Builds the canonical configuration. A zero score always fails; any
    /// positive score always succeeds, whatever the other fields hold.
    pub fn new(score: u32, judge: JudgeType, resource_limits: ResourceLimits, task: TaskType) -> (r:
        Result<CasesConfig, Error>)
        requires
            task.wf(),
        ensures
            score == 0 ==> r == Err::<CasesConfig, Error>(Error::InvalidScore),
            score >= 1 ==> (r matches Ok(c) && c.score == score && c.judge == judge
                && c.resource_limits == resource_limits && c.task == task && c.wf()),
    {
        if score == 0 {
            Err(Error::InvalidScore)
        } else {
            Ok(CasesConfig { score, judge, resource_limits, task })
        }
    }
}

} // verus!
