//! Presentation types for planned routes.

use vstd::prelude::*;

use std::collections::HashMap;

use crate::error::Error;
use crate::search::SystemId;

verus! {

broadcast use vstd::std_specs::hash::group_hash_axioms;

/// Classifies the high-level command that produced a route summary.
#[derive(Debug, Clone, Copy, PartialEq, Eq, Structural)]
pub enum RouteOutputKind {
    Route,
}

/// Presentation style for turning a route summary into text.
#[derive(Debug, Clone, Copy, PartialEq, Eq, Structural)]
pub enum RouteRenderMode {
    PlainText,
    RichText,
    InGameNote,
}

/// Endpoint within a planned route.
#[derive(Debug, Clone)]
pub struct RouteEndpoint {
    pub id: SystemId,
    pub name: Option<String>,
}

impl RouteEndpoint {
    /// The endpoint's name, or `<unknown>` when it has none.
    pub fn display_name(&self) -> (r: &str)
        ensures
            match self.name {
                Some(n) => r@ == n@,
                None => r@ == "<unknown>"@,
            },
    {
        match &self.name {
            Some(n) => n.as_str(),
            None => "<unknown>",
        }
    }
}

/// How a step of a route is reached from the step before it.
#[derive(Debug, Clone, Copy, PartialEq, Eq, Structural)]
pub enum StepMethod {
    /// Through a jump gate.
    Gate,
    /// By a spatial jump.
    Jump,
}

impl StepMethod {
    /// The method's name as shown to users.
    pub fn as_str(&self) -> (r: &'static str)
        ensures
            *self == StepMethod::Gate ==> r@ == "gate"@,
            *self == StepMethod::Jump ==> r@ == "jump"@,
    {
        match self {
            StepMethod::Gate => "gate",
            StepMethod::Jump => "jump",
        }
    }
}

/// The star map has a gate from `from` to `to`.
pub open spec fn gate_between(gates: Map<SystemId, Vec<SystemId>>, from: SystemId, to: SystemId) -> bool {
    gates.contains_key(from) && gates[from]@.contains(to)
}

/// The method of a step reached from `from`.
pub open spec fn method_between(gates: Map<SystemId, Vec<SystemId>>, from: SystemId, to: SystemId) -> StepMethod {
    if gate_between(gates, from, to) {
        StepMethod::Gate
    } else {
        StepMethod::Jump
    }
}

/// Law: a step is reached by gate exactly when the system it leaves has a
/// gate list in the star map and the step's system occurs in that list, at
/// whatever index; otherwise it is reached by a spatial jump.
pub proof fn lemma_gate_step_iff_listed(gates: Map<SystemId, Vec<SystemId>>, from: SystemId, to: SystemId)
    ensures
        (method_between(gates, from, to) == StepMethod::Gate) <==> (gates.contains_key(from)
            && exists|j: int| 0 <= j < gates[from]@.len() && #[trigger] gates[from]@[j] == to),
        (method_between(gates, from, to) == StepMethod::Jump) <==> !(gates.contains_key(from)
            && exists|j: int| 0 <= j < gates[from]@.len() && #[trigger] gates[from]@[j] == to),
{
    if gates.contains_key(from) && exists|j: int| 0 <= j < gates[from]@.len() && #[trigger] gates[from]@[j] == to {
        let j = choose|j: int| 0 <= j < gates[from]@.len() && #[trigger] gates[from]@[j] == to;
        assert(gates[from]@.contains(to));
    }
}

fn has_gate(gates: &HashMap<SystemId, Vec<SystemId>>, from: SystemId, to: SystemId) -> (r: bool)
    ensures
        r == gate_between(gates@, from, to),
        r <==> (gates@.contains_key(from) && exists|j: int| 0 <= j < gates@[from]@.len() && #[trigger] gates@[from]@[j] == to),
{
    match gates.get(&from) {
        None => false,
        Some(list) => {
            let mut k: usize = 0;
            while k < list.len()
                invariant
                    gates@.contains_key(from),
                    gates@[from] == *list,
                    k <= list@.len(),
                    forall|j: int| 0 <= j < k ==> list@[j] != to,
                decreases list@.len() - k,
            {
                if list[k] == to {
                    return true;
                }
                k = k + 1;
            }
            false
        },
    }
}

/// How each step of a route is reached: nothing for the first step, then
/// a gate where the star map has one from the step before, else a spatial
/// jump. A route without steps has no summary.
pub fn step_methods(gates: &HashMap<SystemId, Vec<SystemId>>, steps: &Vec<SystemId>) -> (r: Result<Vec<Option<StepMethod>>, Error>)
    ensures
        match r {
            Ok(m) => {
                &&& steps@.len() > 0
                &&& m@.len() == steps@.len()
                &&& m@[0] is None
                &&& forall|i: int| 1 <= i < m@.len() ==> #[trigger] m@[i] == Some(method_between(gates@, steps@[i - 1], steps@[i]))
                &&& forall|i: int| 1 <= i < m@.len() ==> (#[trigger] m@[i] == Some(StepMethod::Gate) <==> (gates@.contains_key(steps@[i - 1])
                    && exists|j: int| 0 <= j < gates@[steps@[i - 1]]@.len() && #[trigger] gates@[steps@[i - 1]]@[j] == steps@[i]))
                &&& forall|i: int| 1 <= i < m@.len() ==> (#[trigger] m@[i] == Some(StepMethod::Jump) <==> !(gates@.contains_key(steps@[i - 1])
                    && exists|j: int| 0 <= j < gates@[steps@[i - 1]]@.len() && #[trigger] gates@[steps@[i - 1]]@[j] == steps@[i]))
            },
            Err(e) => steps@.len() == 0 && e == Error::EmptyRoutePlan,
        },
{
    if steps.len() == 0 {
        return Err(Error::EmptyRoutePlan);
    }
    let mut methods: Vec<Option<StepMethod>> = Vec::new();
    methods.push(None);
    let mut i: usize = 1;
    while i < steps.len()
        invariant
            1 <= i <= steps@.len(),
            methods@.len() == i,
            methods@[0] is None,
            forall|k: int| 1 <= k < i ==> #[trigger] methods@[k] == Some(method_between(gates@, steps@[k - 1], steps@[k])),
            forall|k: int| 1 <= k < i ==> (#[trigger] methods@[k] == Some(StepMethod::Gate) <==> (gates@.contains_key(steps@[k - 1])
                && exists|j: int| 0 <= j < gates@[steps@[k - 1]]@.len() && #[trigger] gates@[steps@[k - 1]]@[j] == steps@[k])),
            forall|k: int| 1 <= k < i ==> (#[trigger] methods@[k] == Some(StepMethod::Jump) <==> !(gates@.contains_key(steps@[k - 1])
                && exists|j: int| 0 <= j < gates@[steps@[k - 1]]@.len() && #[trigger] gates@[steps@[k - 1]]@[j] == steps@[k])),
        decreases steps@.len() - i,
    {
        proof {
            lemma_gate_step_iff_listed(gates@, steps@[i - 1], steps@[i as int]);
        }
        let m = if has_gate(gates, steps[i - 1], steps[i]) {
            StepMethod::Gate
        } else {
            StepMethod::Jump
        };
        methods.push(Some(m));
        i = i + 1;
    }
    Ok(methods)
}

} // verus!
