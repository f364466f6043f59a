use vstd::prelude::*;

use crate::json;

verus! {

/// An effect of a firing: add `constant` to the marking of the transition at
/// position `transition_index`.
#[derive(Clone, Copy, Debug, PartialEq, Eq, Structural)]
pub struct Payload {
    pub transition_index: usize,
    pub constant: isize,
}

/// One node of the network.
#[derive(Debug)]
pub struct Transition {
    /// Identifier from the persisted record; never used as a position.
    pub id: usize,
    /// The marking.
    pub constant: isize,
    /// The cycle at which the marking was last set.
    pub cycle: usize,
    /// Cycles between a firing and its deferred effects.
    pub duration: usize,
    /// Effects applied at firing time, in order.
    pub iul_payloads: Vec<Payload>,
    /// Effects scheduled as events at `cycle + duration`, in order.
    pub pul_payloads: Vec<Payload>,
}

/// The mathematical value of a transition.
pub struct TransitionModel {
    pub id: usize,
    pub constant: isize,
    pub cycle: usize,
    pub duration: usize,
    pub iul: Seq<Payload>,
    pub pul: Seq<Payload>,
}

impl View for Transition {
    type V = TransitionModel;

    open spec fn view(&self) -> TransitionModel {
        TransitionModel {
            id: self.id,
            constant: self.constant,
            cycle: self.cycle,
            duration: self.duration,
            iul: self.iul_payloads@,
            pul: self.pul_payloads@,
        }
    }
}

/// The network: the transitions, indexed by position, and the stack of
/// positions found enabled in the current step.
#[derive(Debug)]
pub struct Lefs {
    pub transitions: Vec<Transition>,
    pub estimulated_transition_indices: Vec<usize>,
}

impl Lefs {
    /// The transitions, as values.
    pub open spec fn transitions_view(&self) -> Seq<TransitionModel> {
        self.transitions@.map_values(|t: Transition| t@)
    }

    /// Builds the network from its persisted records. The record at position
    /// `i` of the list becomes the transition at position `i`; the stack of
    /// enabled positions starts empty.
    pub fn new(records: json::Lefs) -> (r: Lefs)
        ensures
            r.transitions_view() == records@,
            r.estimulated_transition_indices@ == Seq::<usize>::empty(),
    {
        let mut transitions: Vec<Transition> = Vec::new();
        let n = records.ia_red.len();
        let mut i: usize = 0;
        while i < n
            invariant
                n == records.ia_red@.len(),
                i <= n,
                transitions@.len() == i,
                forall|j: int| 0 <= j < i ==> (#[trigger] transitions@[j])@ == records.ia_red@[j]@,
            decreases n - i,
        {
            let rec = &records.ia_red[i];
            let iul_payloads = effects_from(&rec.ii_listactes_iul);
            let pul_payloads = effects_from(&rec.ii_listactes_pul);
            transitions.push(Transition {
                id: rec.ii_idglobal,
                constant: rec.ii_valor,
                cycle: rec.ii_tiempo,
                duration: rec.ii_duracion_disparo,
                iul_payloads,
                pul_payloads,
            });
            i += 1;
        }
        let r = Lefs { transitions, estimulated_transition_indices: Vec::new() };
        assert(r.transitions_view() =~= records@);
        r
    }
}

/// The effects that a persisted list describes, in the same order.
fn effects_from(pairs: &Vec<json::Payload>) -> (r: Vec<Payload>)
    ensures
        r@ == json::effects_of(pairs@),
{
    let mut out: Vec<Payload> = Vec::new();
    let mut k: usize = 0;
    while k < pairs.len()
        invariant
            k <= pairs@.len(),
            out@ == json::effects_of(pairs@.take(k as int)),
        decreases pairs@.len() - k,
    {
        let p = pairs[k];
        out.push(Payload { transition_index: p.0, constant: p.1 });
        assert(pairs@.take(k as int + 1) =~= pairs@.take(k as int).push(p));
        k += 1;
    }
    assert(pairs@.take(k as int) =~= pairs@);
    out
}

} // verus!
