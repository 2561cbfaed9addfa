//! Configuration of the reference generator: a growth switch paired with an
//! attachment method.

use vstd::prelude::*;

verus! {

#[derive(Copy, Clone, Debug, Eq, PartialEq, PartialOrd, Ord, Structural)]
pub enum AttachementMethod {
    Preferential,
    Random,
}

/// A generator setting; random attachment without growth is not a valid
/// combination and cannot be constructed.
pub struct BarabasiAlbertGenConfig {
    pub growth: bool,
    pub attachement_method: AttachementMethod,
}

impl BarabasiAlbertGenConfig {
    pub fn new(growth: bool, attachement_method: AttachementMethod) -> (r: Self)
        requires
            growth || attachement_method == AttachementMethod::Preferential,
        ensures
            r.growth == growth,
            r.attachement_method == attachement_method,
    {
        BarabasiAlbertGenConfig { growth, attachement_method }
    }
}

} // verus!
