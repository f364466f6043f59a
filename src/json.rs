use vstd::prelude::*;

use crate::polyfill::{Payload as Effect, TransitionModel};

verus! {

/// The persisted form of a network: the list of transition records, in the
/// order that defines their positions.
#[derive(Debug)]
pub struct Lefs {
    pub ia_red: Vec<Transition>,
}

/// One persisted transition record.
#[derive(Debug)]
pub struct Transition {
    pub ii_idglobal: usize,
    pub ii_valor: isize,
    pub ii_tiempo: usize,
    pub ii_duracion_disparo: usize,
    /// Immediate effects, as `(target position, delta)` pairs.
    pub ii_listactes_iul: Vec<Payload>,
    /// Deferred effects, as `(target position, delta)` pairs.
    pub ii_listactes_pul: Vec<Payload>,
}

/// A persisted effect: a target position and a delta.
#[derive(Clone, Copy, Debug, PartialEq, Eq, Structural)]
pub struct Payload(pub usize, pub isize);

/// The effect that a persisted pair describes.
pub open spec fn effect_of(p: Payload) -> Effect {
    Effect { transition_index: p.0, constant: p.1 }
}

/// The effects that a persisted list describes, in the same order.
pub open spec fn effects_of(ps: Seq<Payload>) -> Seq<Effect> {
    ps.map_values(|p: Payload| effect_of(p))
}

impl View for Transition {
    type V = TransitionModel;

    open spec fn view(&self) -> TransitionModel {
        TransitionModel {
            id: self.ii_idglobal,
            constant: self.ii_valor,
            cycle: self.ii_tiempo,
            duration: self.ii_duracion_disparo,
            iul: effects_of(self.ii_listactes_iul@),
            pul: effects_of(self.ii_listactes_pul@),
        }
    }
}

impl View for Lefs {
    type V = Seq<TransitionModel>;

    open spec fn view(&self) -> Seq<TransitionModel> {
        self.ia_red@.map_values(|t: Transition| t@)
    }
}

} // verus!
