use vstd::prelude::*;

use crate::cases_config::{Case, CasesConfig, ResourceLimits, TaskType};
use crate::config::Config;
use crate::duration::CustomDuration;
use crate::error::Error;
use crate::memory_size::CustomSize;

verus! {

/// The first supported legacy schema: a document that may carry a time
/// limit and a memory limit, each through the flexible scalar decoders,
/// and nothing else. Absent fields fall back to one second and 128 MiB.
#[derive(Debug, PartialEq, Eq, Clone, Copy, Structural)]
pub struct ConfigData {
    pub time: CustomDuration,
    pub memory: CustomSize,
}

impl ConfigData {
    pub fn new(time: CustomDuration, memory: CustomSize) -> (r: ConfigData)
        ensures
            r.time == time,
            r.memory == memory,
    {
        ConfigData { time, memory }
    }

    /// The canonical limits this document asks for: its decoded duration
    /// narrowed to whole milliseconds of the canonical width, and its
    /// decoded memory size, already in kibibytes.
    pub fn limits(&self) -> (r: Result<ResourceLimits, Error>)
        ensures
            self.time.millis <= u32::MAX ==> r == Ok::<ResourceLimits, Error>(
                ResourceLimits { time: self.time.millis as u32, memory: self.memory.kib },
            ),
            self.time.millis > u32::MAX ==> r == Err::<ResourceLimits, Error>(
                Error::NarrowingOverflow,
            ),
    {
        let millis: u64 = self.time.as_millis();
        if millis > u32::MAX as u64 {
            Err(Error::NarrowingOverflow)
        } else {
            Ok(ResourceLimits { time: millis as u32, memory: self.memory.as_kibibyte() })
        }
    }

    /// The fixed task shape this schema implies: one case, `1.in`/`1.ans`,
    /// no per-case score.
    pub fn fixed_task(&self) -> (r: TaskType)
        ensures
            (r matches TaskType::Simple { cases } && cases@.len() == 1 && cases@[0].input@
                == "1.in"@ && cases@[0].answer@ == "1.ans"@ && cases@[0].score is None),
            r.wf(),
    {
        let case = Case {
            input: String::from_str("1.in"),
            answer: String::from_str("1.ans"),
            score: None,
        };
        let mut cases: Vec<Case> = Vec::new();
        cases.push(case);
        TaskType::Simple { cases }
    }
}

impl Default for ConfigData {
    fn default() -> (r: ConfigData)
        ensures
            r.time.millis == 1000,
            r.memory.kib == 131072,
    {
        ConfigData { time: Default::default(), memory: Default::default() }
    }
}

impl Config for ConfigData {
    fn resource_limits(&self) -> (r: Result<ResourceLimits, Error>)
        ensures
            self.time.millis <= u32::MAX ==> r == Ok::<ResourceLimits, Error>(
                (ResourceLimits { time: self.time.millis as u32, memory: self.memory.kib }),
            ),
            self.time.millis > u32::MAX ==> r == Err::<ResourceLimits, Error>(
                Error::NarrowingOverflow,
            ),
    {
        self.limits()
    }

    fn task(&self) -> (r: Result<TaskType, Error>)
        ensures
            (r matches Ok(t) && t matches TaskType::Simple { cases } && cases@.len() == 1
                && cases@[0].input@ == "1.in"@ && cases@[0].answer@ == "1.ans"@
                && cases@[0].score is None),
    {
        Ok(self.fixed_task())
    }
}

} // verus!
