use vstd::prelude::*;

use crate::common::dyn_vec::TypeInfo;

verus! {

/// The data of one component of a stored game entity, until it is taken.
pub struct WorldGameComponentAsset {
    type_info: TypeInfo,
    data: Option<Vec<u8>>,
}

impl WorldGameComponentAsset {
    pub closed spec fn type_info_spec(&self) -> TypeInfo {
        self.type_info
    }

    /// The component's bytes, if not taken yet.
    pub closed spec fn data_spec(&self) -> Option<Seq<u8>> {
        match self.data {
            Some(d) => Some(d@),
            None => None,
        }
    }

    pub fn new(type_info: TypeInfo, data: Vec<u8>) -> (r: Self)
        ensures
            r.type_info_spec() == type_info,
            r.data_spec() == Some(data@),
    {
        Self { type_info, data: Some(data) }
    }

    /// Takes the component's bytes, which must not have been taken already.
    pub fn take_data(&mut self) -> (r: Vec<u8>)
        requires
            old(self).data_spec() is Some,
        ensures
            Some(r@) == old(self).data_spec(),
            final(self).data_spec() is None,
            final(self).type_info_spec() == old(self).type_info_spec(),
    {
        let d = self.data.take();
        d.unwrap()
    }
}

} // verus!
