use vstd::prelude::*;

use crate::cases_config::{CasesConfig, JudgeType, ResourceLimits, TaskType};
use crate::error::Error;

verus! {

/// The capability interface a legacy schema implements to populate the
/// canonical model. Three operations have documented defaults — a score of
/// 100, classic judging, 1000 ms / 256 KiB — so an implementation only
/// overrides what its document shape represents; `task` has no default and
/// every implementation must supply it.
pub trait Config {
    fn score(&self) -> (r: Result<u32, Error>)
        ensures
            r matches Ok(s) ==> s >= 1,
        default_ensures
            r == Ok::<u32, Error>(100),
    {
        Ok(100)
    }

    fn judge(&self) -> (r: Result<JudgeType, Error>)
        default_ensures
            r == Ok::<JudgeType, Error>(JudgeType::Classic),
    {
        Ok(JudgeType::Classic)
    }

    fn resource_limits(&self) -> (r: Result<ResourceLimits, Error>)
        default_ensures
            r == Ok::<ResourceLimits, Error>((ResourceLimits { time: 1000, memory: 256 })),
    {
        Ok(ResourceLimits { time: 1000, memory: 256 })
    }

    fn task(&self) -> (r: Result<TaskType, Error>)
        ensures
            r matches Ok(t) ==> t.wf(),
    ;
}

impl CasesConfig {
    /// Assembles the canonical configuration from any capability
    /// implementation, propagating the first decode error encountered.
    /// A produced configuration carries its invariant, and each of its
    /// fields is verbatim an `Ok` answer of the corresponding capability
    /// operation on `value`; a failure is an error answer of one of the
    /// four operations.
    pub fn try_from<C: Config>(value: &C) -> (r: Result<CasesConfig, Error>)
        ensures
            r matches Ok(c) ==> c.wf() && call_ensures(C::score, (value,), Ok::<u32, Error>(c.score))
                && call_ensures(C::judge, (value,), Ok::<JudgeType, Error>(c.judge))
                && call_ensures(
                C::resource_limits,
                (value,),
                Ok::<ResourceLimits, Error>(c.resource_limits),
            ) && call_ensures(C::task, (value,), Ok::<TaskType, Error>(c.task)),
            r matches Err(e) ==> call_ensures(C::score, (value,), Err::<u32, Error>(e))
                || call_ensures(C::judge, (value,), Err::<JudgeType, Error>(e)) || call_ensures(
                C::resource_limits,
                (value,),
                Err::<ResourceLimits, Error>(e),
            ) || call_ensures(C::task, (value,), Err::<TaskType, Error>(e)),
    {
        let score = match value.score() {
            Ok(s) => s,
            Err(e) => return Err(e),
        };
        let judge = match value.judge() {
            Ok(j) => j,
            Err(e) => return Err(e),
        };
        let resource_limits = match value.resource_limits() {
            Ok(l) => l,
            Err(e) => return Err(e),
        };
        let task = match value.task() {
            Ok(t) => t,
            Err(e) => return Err(e),
        };
        CasesConfig::new(score, judge, resource_limits, task)
    }
}

} // verus!
