use vstd::prelude::*;
use crate::seqs::splice;

verus! {

broadcast use vstd::std_specs::vec::axiom_spec_len;

/// The fixed object size of the remote library store.
pub const BLOCK_SIZE: usize = 1024;

/// How often a failed transport exchange is retried before the operation
/// surfaces an I/O error.
pub const MAX_ATTEMPTS: u32 = 8;

/// The failures the remote provider can report.
#[derive(Clone, Copy, Debug, PartialEq, Eq, Structural)]
pub enum SeafileError {
    AuthError,
    NoLibraryError,
    IOError,
    BadTotalSizeError,
    BadResponseError(u16),
}

/// What one HTTP exchange came back as: a status code, or no answer at all.
#[derive(Clone, Copy, Debug, PartialEq, Eq, Structural)]
pub enum TransportResult {
    Status(u16),
    Failed,
}

/// What the transport got when fetching a block: the object's bytes, a
/// not-found answer (an object never written), an unexpected status, or no
/// answer at all.
pub enum FetchOutcome {
    Body(Vec<u8>),
    NotFound,
    BadStatus(u16),
    Failed,
}

/// What the caller of a remote step should do next.
#[derive(Clone, Copy, Debug, PartialEq, Eq, Structural)]
pub enum RemoteStep {
    Proceed,
    Retry(u32),
    Fail(SeafileError),
}

/// The sizing of a remote device: the device length must be a whole number of
/// remote objects.
#[derive(Clone, Copy, Debug, PartialEq, Eq, Structural)]
pub struct SeafileConfig {
    pub total_size: usize,
    pub block_size: usize,
}

impl SeafileConfig {
    /// Accepts a device size exactly when it is a positive whole number of
    /// blocks of a positive block size.
    pub fn new(total_size: usize, block_size: usize) -> (r: Result<SeafileConfig, SeafileError>)
        ensures
            r is Ok <==> block_size >= 1 && total_size % block_size == 0,
            r is Ok ==> r->Ok_0 == (SeafileConfig { total_size, block_size }),
            r is Err ==> r == Err::<SeafileConfig, SeafileError>(SeafileError::BadTotalSizeError),
    {
        if block_size >= 1 && total_size % block_size == 0 {
            Ok(SeafileConfig { total_size, block_size })
        } else {
            Err(SeafileError::BadTotalSizeError)
        }
    }
}

/// The connect-time authentication probe: only a 200 answer passes; a missing
/// answer is an I/O failure, anything else means the credential was refused.
pub fn check_auth_response(r: TransportResult) -> (res: Result<(), SeafileError>)
    ensures
        res is Ok <==> r == TransportResult::Status(200u16),
        r == TransportResult::Failed ==> res == Err::<(), SeafileError>(SeafileError::IOError),
        (r is Status && r != TransportResult::Status(200u16)) ==> res == Err::<(), SeafileError>(
            SeafileError::AuthError,
        ),
{
    match r {
        TransportResult::Status(s) => if s == 200 {
            Ok(())
        } else {
            Err(SeafileError::AuthError)
        },
        TransportResult::Failed => Err(SeafileError::IOError),
    }
}

/// The connect-time library probe: only a 200 answer passes; a missing answer
/// is an I/O failure, anything else means the library does not exist.
pub fn check_library_response(r: TransportResult) -> (res: Result<(), SeafileError>)
    ensures
        res is Ok <==> r == TransportResult::Status(200u16),
        r == TransportResult::Failed ==> res == Err::<(), SeafileError>(SeafileError::IOError),
        (r is Status && r != TransportResult::Status(200u16)) ==> res == Err::<(), SeafileError>(
            SeafileError::NoLibraryError,
        ),
{
    match r {
        TransportResult::Status(s) => if s == 200 {
            Ok(())
        } else {
            Err(SeafileError::NoLibraryError)
        },
        TransportResult::Failed => Err(SeafileError::IOError),
    }
}

/// Bounded retry: try again while fewer than `MAX_ATTEMPTS` exchanges have
/// failed, then surface an I/O error.
pub fn retry_step(attempt: u32) -> (r: RemoteStep)
    ensures
        attempt + 1 < MAX_ATTEMPTS ==> r == RemoteStep::Retry((attempt + 1) as u32),
        attempt + 1 >= MAX_ATTEMPTS ==> r == RemoteStep::Fail(SeafileError::IOError),
{
    if attempt < MAX_ATTEMPTS - 1 {
        RemoteStep::Retry(attempt + 1)
    } else {
        RemoteStep::Fail(SeafileError::IOError)
    }
}

/// Settles one fetched block into the caller's buffer at `[req_lo, req_lo +
/// seg_len)`.  A body is copied in (shorter bodies leave the zero-filled tail
/// alone); a not-found block is an object never written and leaves the
/// caller's zero-filled range as it is; a transport failure is retried a
/// bounded number of times.
pub fn apply_fetch_outcome(
    buf: &mut Vec<u8>,
    req_lo: usize,
    seg_len: usize,
    outcome: &FetchOutcome,
    attempt: u32,
) -> (r: RemoteStep)
    requires
        req_lo + seg_len <= old(buf)@.len(),
    ensures
        final(buf)@.len() == old(buf)@.len(),
        match *outcome {
            FetchOutcome::Body(ref body) => {
                &&& (body@.len() <= seg_len ==> r == RemoteStep::Proceed && final(buf)@ == splice(
                    old(buf)@,
                    req_lo as int,
                    body@,
                ))
                &&& (body@.len() > seg_len ==> r == RemoteStep::Fail(SeafileError::IOError)
                    && final(buf)@ == old(buf)@)
            },
            FetchOutcome::NotFound => r == RemoteStep::Proceed && final(buf)@ == old(buf)@,
            FetchOutcome::BadStatus(s) => r == RemoteStep::Fail(SeafileError::BadResponseError(s))
                && final(buf)@ == old(buf)@,
            FetchOutcome::Failed => final(buf)@ == old(buf)@ && (if attempt + 1 < MAX_ATTEMPTS {
                r == RemoteStep::Retry((attempt + 1) as u32)
            } else {
                r == RemoteStep::Fail(SeafileError::IOError)
            }),
        },
{
    match outcome {
        FetchOutcome::Body(body) => {
            let blen = body.len();
            if blen > seg_len {
                return RemoteStep::Fail(SeafileError::IOError);
            }
            crate::seqs::copy_bytes(buf, req_lo, body, 0, blen);
            proof {
                assert(body@.subrange(0, body@.len() as int) =~= body@);
            }
            RemoteStep::Proceed
        },
        FetchOutcome::NotFound => RemoteStep::Proceed,
        FetchOutcome::BadStatus(s) => RemoteStep::Fail(SeafileError::BadResponseError(*s)),
        FetchOutcome::Failed => retry_step(attempt),
    }
}

/// Decides on the answer of the upload-link exchange.  Only a 200 answer
/// proceeds to the upload itself; a not-found answer means the block cannot be
/// persisted and is an error; a transport failure is retried.
pub fn upload_link_step(r: TransportResult, attempt: u32) -> (res: RemoteStep)
    ensures
        r == TransportResult::Status(200u16) ==> res == RemoteStep::Proceed,
        (r is Status && r != TransportResult::Status(200u16)) ==> res == RemoteStep::Fail(
            SeafileError::BadResponseError(r->Status_0),
        ),
        r == TransportResult::Failed ==> (if attempt + 1 < MAX_ATTEMPTS {
            res == RemoteStep::Retry((attempt + 1) as u32)
        } else {
            res == RemoteStep::Fail(SeafileError::IOError)
        }),
{
    match r {
        TransportResult::Status(s) => if s == 200 {
            RemoteStep::Proceed
        } else {
            RemoteStep::Fail(SeafileError::BadResponseError(s))
        },
        TransportResult::Failed => retry_step(attempt),
    }
}

/// Decides on the answer of the upload itself: any answered exchange counts as
/// done; a transport failure is retried.
pub fn upload_post_step(r: TransportResult, attempt: u32) -> (res: RemoteStep)
    ensures
        r is Status ==> res == RemoteStep::Proceed,
        r == TransportResult::Failed ==> (if attempt + 1 < MAX_ATTEMPTS {
            res == RemoteStep::Retry((attempt + 1) as u32)
        } else {
            res == RemoteStep::Fail(SeafileError::IOError)
        }),
{
    match r {
        TransportResult::Status(_) => RemoteStep::Proceed,
        TransportResult::Failed => retry_step(attempt),
    }
}

} // verus!
