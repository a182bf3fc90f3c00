//! The choices of the MeCab entry point.
use vstd::prelude::*;
use super::common::c_string;
use super::error::Error;

verus! {

/// Where the model files are. MeCab is handed the argument `-d {dict} -r {rc}`; the paths should
/// not hold white space, which MeCab would split at.
#[derive(Debug, Clone, Copy)]
pub struct ModelPath<'a> {
    pub dict: &'a [u8],
    pub rc: &'a [u8],
}

/// Which tags are written, and in what order.
///
/// `Asis` writes the features as MeCab gives them; `Specified` writes the features at the given
/// positions, in the given order, and an empty tag for a position that has none.
#[derive(Debug, Clone, Copy)]
pub enum TagIndex<'a> {
    Asis,
    Specified(&'a [usize]),
}

/// The argument that MeCab is handed for the model files: `-d {dict} -r {rc}`.
pub open spec fn spec_model_arg(dict: Seq<u8>, rc: Seq<u8>) -> Seq<u8> {
    seq![45u8, 100u8, 32u8] + dict + seq![32u8, 45u8, 114u8, 32u8] + rc
}

impl<'a> ModelPath<'a> {
    /// The argument for the model files as the C string that MeCab reads.
    pub fn cli_arg(&self) -> (r: Result<Vec<u8>, Error>)
        ensures
            match r {
                Ok(v) => v@ == spec_model_arg(self.dict@, self.rc@).push(0u8),
                Err(e) => e is MeCabModelPath,
            },
            r is Ok <==> forall|i: int|
                0 <= i < spec_model_arg(self.dict@, self.rc@).len() ==> spec_model_arg(self.dict@, self.rc@)[i]
                    != 0u8,
    {
        let mut arg: Vec<u8> = Vec::new();
        arg.push(45u8);
        arg.push(100u8);
        arg.push(32u8);
        let mut k: usize = 0;
        while k < self.dict.len()
            invariant
                k <= self.dict@.len(),
                arg@ == seq![45u8, 100u8, 32u8] + self.dict@.take(k as int),
            decreases self.dict@.len() - k,
        {
            arg.push(self.dict[k]);
            k = k + 1;
            assert(self.dict@.take(k as int) =~= self.dict@.take(k - 1).push(self.dict@[k - 1]));
        }
        arg.push(32u8);
        arg.push(45u8);
        arg.push(114u8);
        arg.push(32u8);
        let ghost head = arg@;
        let mut j: usize = 0;
        while j < self.rc.len()
            invariant
                j <= self.rc@.len(),
                arg@ == head + self.rc@.take(j as int),
            decreases self.rc@.len() - j,
        {
            arg.push(self.rc[j]);
            j = j + 1;
            assert(self.rc@.take(j as int) =~= self.rc@.take(j - 1).push(self.rc@[j - 1]));
        }
        assert(self.dict@.take(self.dict@.len() as int) =~= self.dict@);
        assert(self.rc@.take(self.rc@.len() as int) =~= self.rc@);
        assert(arg@ =~= spec_model_arg(self.dict@, self.rc@));
        match c_string(arg.as_slice()) {
            Ok(v) => Ok(v),
            Err(e) => Err(Error::MeCabModelPath(e)),
        }
    }
}

} // verus!
