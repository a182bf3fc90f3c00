//! The choices of the KyTea entry point.
use vstd::prelude::*;
use super::common::c_string;
use super::error::Error;

verus! {

/// Which tags are written, and in what order.
///
/// `Asis` writes the tags as KyTea gives them; `Specified` writes the tags at the given
/// positions, in the given order, and an empty tag for a position that has none.
#[derive(Debug, Clone, Copy)]
pub enum TagIndex<'a> {
    Asis,
    Specified(&'a [usize]),
}

/// The model path as the C string that KyTea reads.
pub fn model_path(model: &[u8]) -> (r: Result<Vec<u8>, Error>)
    ensures
        match r {
            Ok(v) => v@ == model@.push(0u8),
            Err(e) => e is KyTeaModelPath,
        },
        r is Ok <==> forall|i: int| 0 <= i < model@.len() ==> model@[i] != 0u8,
{
    match c_string(model) {
        Ok(v) => Ok(v),
        Err(e) => Err(Error::KyTeaModelPath(e)),
    }
}

} // verus!
