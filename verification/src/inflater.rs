//! A zlib inflater that is given the same input at every call, with that
//! input and the number of calls made so far kept beside it.
use vstd::prelude::*;
use crate::pack::{InflateStatus, status_code};

verus! {

#[verifier::external_type_specification]
#[verifier::external_body]
pub struct ExDecompress(flate2::Decompress);

/// The status code (0 `Ok`, 1 `BufError`, 2 `StreamEnd`, 3 an error) of the
/// `k`-th `decompress` call (no flushing) of a fresh zlib inflater
/// (`flate2::Decompress::new(true)`) that is given `input` and the same
/// output buffer of `out_len` bytes at every call, and its `total_in` after
/// that call.
pub uninterp spec fn inflate_calls(input: Seq<u8>, out_len: nat, k: nat) -> (u8, nat);

/// `flate2::Decompress::new(true)`: a fresh inflater for zlib streams.
#[verifier::external_body]
fn new_decompress() -> flate2::Decompress {
    flate2::Decompress::new(true)
}

/// An inflater, the input it is given at every call, the length of its
/// output buffer, and how many calls it has made. Only this module makes or
/// changes one, so the calls counted are the calls made.
pub struct Inflater {
    d: flate2::Decompress,
    input: Ghost<Seq<u8>>,
    out_len: Ghost<nat>,
    calls: Ghost<nat>,
}

impl Inflater {
    /// The input given at every call.
    pub closed spec fn input(&self) -> Seq<u8> {
        self.input@
    }

    /// The length of the output buffer given at every call.
    pub closed spec fn out_len(&self) -> nat {
        self.out_len@
    }

    /// How many calls have been made.
    pub closed spec fn calls(&self) -> nat {
        self.calls@
    }

    /// A fresh inflater for `input`, with an output buffer of `out_len`
    /// bytes.
    pub fn start(input: &[u8], out_len: usize) -> (r: Inflater)
        ensures
            r.input() == input@,
            r.out_len() == out_len,
            r.calls() == 0,
    {
        Inflater { d: new_decompress(), input: Ghost(input@), out_len: Ghost(out_len as nat), calls: Ghost(0) }
    }

    /// `flate2::Decompress::decompress` (no flushing) of the input into the
    /// buffer, then `total_in`: the status and input count that
    /// `inflate_calls` names for this call. The buffer keeps its length.
    #[verifier::external_body]
    pub fn call(&mut self, input: &[u8], output: &mut Vec<u8>) -> (r: (InflateStatus, u64))
        requires
            input@ == old(self).input(),
            old(output)@.len() == old(self).out_len(),
        ensures
            final(self).input() == old(self).input(),
            final(self).out_len() == old(self).out_len(),
            final(self).calls() == old(self).calls() + 1,
            final(output)@.len() == old(output)@.len(),
            inflate_calls(old(self).input(), old(self).out_len(), old(self).calls() + 1) == (
                status_code(r.0),
                r.1 as nat,
            ),
    {
        let status = match self.d.decompress(input, output.as_mut_slice(), flate2::FlushDecompress::None) {
            Ok(flate2::Status::Ok) => InflateStatus::Progress,
            Ok(flate2::Status::BufError) => InflateStatus::BufError,
            Ok(flate2::Status::StreamEnd) => InflateStatus::StreamEnd,
            Err(e) => InflateStatus::Failed(format!("{:?}", e)),
        };
        (status, self.d.total_in())
    }
}

} // verus!
