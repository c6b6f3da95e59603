//! The decisions of the encryptor stage: how the outcomes of its teardown
//! steps combine, and its sticky failed state.
use vstd::prelude::*;
use vstd::string::StringExecFns;
use crate::transport::is_trim_end_of;
use crate::transport::trim_end;

verus! {

/// The first error of `steps`, in order; success where none failed.
pub open spec fn first_error(steps: Seq<Result<(), String>>) -> Result<(), String>
    decreases steps.len(),
{
    if steps.len() == 0 {
        Ok(())
    } else if steps[0] is Err {
        steps[0]
    } else {
        first_error(steps.drop_first())
    }
}

/// Combines the outcomes of teardown steps, taken in order: the first error
/// wins.
pub fn combine_results(steps: &Vec<Result<(), String>>) -> (r: Result<(), String>)
    ensures
        r == first_error(steps@),
{
    let mut i: usize = 0;
    assert(steps@.skip(0) =~= steps@);
    while i < steps.len()
        invariant
            0 <= i <= steps@.len(),
            first_error(steps@) == first_error(steps@.skip(i as int)),
        decreases steps.len() - i,
    {
        assert(steps@.skip(i as int).drop_first() =~= steps@.skip(i as int + 1));
        assert(steps@.skip(i as int)[0] == steps@[i as int]);
        if let Err(e) = &steps[i] {
            return Err(e.clone());
        }
        i = i + 1;
    }
    Ok(())
}

/// The outcome that the encrypter's diagnostics give: success where it wrote
/// nothing on its standard error, else an error that carries what it wrote.
pub fn stderr_outcome(stderr: &String) -> (r: Result<(), String>)
    ensures
        stderr@.len() == 0 ==> r is Ok,
        stderr@.len() > 0 ==> (r matches Err(m) && exists|t: Seq<char>|
            #[trigger] is_trim_end_of(t, stderr@) && m@ == "gpg error: "@ + t),
{
    if stderr.as_str().is_empty() {
        Ok(())
    } else {
        let trimmed = trim_end(stderr.as_str());
        let mut m = String::from_str("gpg error: ");
        m.append(trimmed);
        Err(m)
    }
}


/// The outcome that the encrypter's exit status gives.
pub fn exit_outcome(success: bool) -> (r: Result<(), String>)
    ensures
        r is Ok <==> success,
        r matches Err(m) ==> m@ == "gpg process has terminated with an error exit code"@,
{
    if success {
        Ok(())
    } else {
        Err(String::from_str("gpg process has terminated with an error exit code"))
    }
}

/// The lifecycle of an encryptor: open, or closed with the outcome that it
/// recorded. Once recorded, an outcome never changes.
pub struct EncryptorState {
    pub result: Option<Result<(), String>>,
}

/// The state after closing `s` with `result`: the first outcome is kept.
pub open spec fn closed_with(s: EncryptorState, result: Result<(), String>) -> EncryptorState {
    match s.result {
        None => EncryptorState { result: Some(result) },
        Some(_) => s,
    }
}

impl EncryptorState {
    pub fn new() -> (s: EncryptorState)
        ensures
            s.result is None,
    {
        EncryptorState { result: None }
    }

    /// Checks a write or a flush before it reaches the encrypter: it goes on
    /// while the encryptor is open, and fails with the recorded error once the
    /// encryptor has failed.
    pub fn gate(&self) -> (r: Result<(), String>)
        ensures
            self.result is None ==> r is Ok,
            self.result matches Some(Err(m)) ==> r == Err::<(), String>(m),
            self.result matches Some(Ok(())) ==> r matches Err(m) && m@ == "encryptor is closed"@,
    {
        match &self.result {
            None => Ok(()),
            Some(Err(m)) => Err(m.clone()),
            Some(Ok(())) => Err(String::from_str("encryptor is closed")),
        }
    }

    /// Closes the encryptor with `result` unless it is closed already, and
    /// returns the recorded outcome.
    pub fn close(&mut self, result: Result<(), String>) -> (r: Result<(), String>)
        ensures
            *final(self) == closed_with(*old(self), result),
            final(self).result == Some(r),
    {
        if self.result.is_none() {
            self.result = Some(result);
        }
        let r = match &self.result {
            Some(Ok(())) => Ok(()),
            Some(Err(m)) => Err(m.clone()),
            None => Ok(()),
        };
        proof {
            match self.result {
                Some(Ok(u)) => {
                    assert(u == ());
                },
                _ => {},
            }
            assert(self.result =~~= Some(r));
        }
        r
    }

    /// A write or a flush failed with `error`: the encryptor enters the failed
    /// state, unless it is closed already, and the recorded error is returned.
    pub fn fail(&mut self, error: String) -> (r: Result<(), String>)
        ensures
            *final(self) == closed_with(*old(self), Err(error)),
            final(self).result == Some(r),
    {
        self.close(Err(error))
    }

    /// Ends the encryptor's life and reports its outcome.
    pub fn finish(self) -> (r: Result<(), String>)
        ensures
            r == match self.result {
                None => Ok::<(), String>(()),
                Some(x) => x,
            },
    {
        match self.result {
            None => Ok(()),
            Some(x) => x,
        }
    }
}

/// Once the encryptor has failed with an error, it stays failed with that same
/// error whatever closes it later, so every later write and flush (see `gate`)
/// and the final report return that error.
pub proof fn lemma_sticky_failure(s: EncryptorState, m: String, later: Seq<Result<(), String>>)
    requires
        s.result == Some(Err::<(), String>(m)),
    ensures
        ({
            let t = later.fold_left(s, |acc: EncryptorState, x: Result<(), String>| closed_with(acc, x));
            t.result == Some(Err::<(), String>(m))
        }),
    decreases later.len(),
{
    if later.len() > 0 {
        lemma_sticky_failure(s, m, later.drop_last());
    }
}

} // verus!
