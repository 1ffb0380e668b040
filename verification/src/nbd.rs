use vstd::prelude::*;
use crate::provider::CloudProvider;
use crate::request_ok;
use crate::seqs::{splice, zeroed_vec};

verus! {

broadcast use vstd::std_specs::vec::axiom_spec_len;

/// The block size advertised for the in-memory export.
pub const PREFERRED_BLOCK_SIZE: usize = 4096;

pub const NBDMAGIC: u64 = 0x4e42444d41474943;

pub const IHAVEOPT: u64 = 0x49484156454f5054;

pub const HANDSHAKE_FLAGS: u16 = 1;

pub const REPLY_OPT: u64 = 0x3e889045565a9;

pub const NBD_OPT_EXPORT_NAME: u32 = 1;

pub const NBD_OPT_ABORT: u32 = 2;

pub const NBD_REP_ACK: u32 = 1;

pub const NBD_REP_ERR_UNSUP: u32 = 0x80000001;

pub const NBD_FLAG_HAS_FLAGS: u16 = 1;

pub const NBD_FLAG_SEND_FLUSH: u16 = 4;

pub const NBD_FLAG_SEND_FUA: u16 = 8;

/// The transmission flags the server advertises: flags are meaningful, and
/// both FLUSH and FUA are honored.
pub const TRANSMISSION_FLAGS: u16 = NBD_FLAG_HAS_FLAGS | NBD_FLAG_SEND_FLUSH | NBD_FLAG_SEND_FUA;

pub const NBD_REQUEST_MAGIC: u32 = 0x25609513;

pub const NBD_SIMPLE_REPLY_MAGIC: u32 = 0x67446698;

pub const NBD_CMD_FLAG_FUA: u16 = 1;

pub const NBD_CMD_READ: u16 = 0;

pub const NBD_CMD_WRITE: u16 = 1;

pub const NBD_CMD_DISC: u16 = 2;

pub const NBD_CMD_FLUSH: u16 = 3;

pub const NBD_EIO: u32 = 5;

pub const NBD_EINVAL: u32 = 22;

pub const NBD_ENOSPC: u32 = 28;

/// The ways a connection can fail outside of normal request handling.
#[derive(Clone, Copy, Debug, PartialEq, Eq, Structural)]
pub enum NBDError {
    ClientFlagsError,
    ClientOptionsError,
    BadExportError,
    Abort,
    RequestMagicError,
}

/// The big-endian value of two bytes.
pub open spec fn be16(b0: u8, b1: u8) -> nat {
    (b0 as nat) * 0x100 + (b1 as nat)
}

/// The big-endian value of four bytes.
pub open spec fn be32(b0: u8, b1: u8, b2: u8, b3: u8) -> nat {
    (b0 as nat) * 0x1000000 + (b1 as nat) * 0x10000 + (b2 as nat) * 0x100 + (b3 as nat)
}

/// The big-endian value of eight bytes.
pub open spec fn be64(b0: u8, b1: u8, b2: u8, b3: u8, b4: u8, b5: u8, b6: u8, b7: u8) -> nat {
    (b0 as nat) * 0x100000000000000 + (b1 as nat) * 0x1000000000000 + (b2 as nat) * 0x10000000000
        + (b3 as nat) * 0x100000000 + (b4 as nat) * 0x1000000 + (b5 as nat) * 0x10000 + (b6 as nat)
        * 0x100 + (b7 as nat)
}

/// Reads a 16-bit big-endian integer.
pub fn u16_from_be(b0: u8, b1: u8) -> (r: u16)
    ensures
        r == be16(b0, b1),
{
    (b0 as u16) * 0x100 + (b1 as u16)
}

/// Reads a 32-bit big-endian integer.
pub fn u32_from_be(b0: u8, b1: u8, b2: u8, b3: u8) -> (r: u32)
    ensures
        r == be32(b0, b1, b2, b3),
{
    (b0 as u32) * 0x1000000 + (b1 as u32) * 0x10000 + (b2 as u32) * 0x100 + (b3 as u32)
}

/// Reads a 64-bit big-endian integer.
pub fn u64_from_be(b0: u8, b1: u8, b2: u8, b3: u8, b4: u8, b5: u8, b6: u8, b7: u8) -> (r: u64)
    ensures
        r == be64(b0, b1, b2, b3, b4, b5, b6, b7),
{
    (b0 as u64) * 0x100000000000000 + (b1 as u64) * 0x1000000000000 + (b2 as u64) * 0x10000000000
        + (b3 as u64) * 0x100000000 + (b4 as u64) * 0x1000000 + (b5 as u64) * 0x10000 + (b6 as u64)
        * 0x100 + (b7 as u64)
}

/// Appends a 16-bit integer in big-endian order.
pub fn push_u16_be(out: &mut Vec<u8>, x: u16)
    requires
        old(out)@.len() + 2 <= usize::MAX,
    ensures
        final(out)@.len() == old(out)@.len() + 2,
        final(out)@.subrange(0, old(out)@.len() as int) == old(out)@,
        be16(final(out)@[old(out)@.len() as int], final(out)@[old(out)@.len() + 1 as int]) == x,
{
    let b0: u16 = x / 0x100;
    let b1: u16 = x % 0x100;
    proof {
        vstd::arithmetic::div_mod::lemma_fundamental_div_mod(x as int, 0x100);
    }
    out.push(b0 as u8);
    out.push(b1 as u8);
    proof {
        assert(out@.subrange(0, old(out)@.len() as int) =~= old(out)@);
    }
}

/// Appends a 32-bit integer in big-endian order.
pub fn push_u32_be(out: &mut Vec<u8>, x: u32)
    requires
        old(out)@.len() + 4 <= usize::MAX,
    ensures
        final(out)@.len() == old(out)@.len() + 4,
        final(out)@.subrange(0, old(out)@.len() as int) == old(out)@,
        be32(
            final(out)@[old(out)@.len() as int],
            final(out)@[old(out)@.len() + 1 as int],
            final(out)@[old(out)@.len() + 2 as int],
            final(out)@[old(out)@.len() + 3 as int],
        ) == x,
{
    let b0: u32 = x / 0x1000000;
    let b1: u32 = (x / 0x10000) % 0x100;
    let b2: u32 = (x / 0x100) % 0x100;
    let b3: u32 = x % 0x100;
    proof {
        assert(b0 < 0x100 && (b0 as u8) as u32 == b0 && ((b0 * 0x1000000 + b1 * 0x10000 + b2
            * 0x100 + b3) == x)) by (bit_vector)
            requires
                b0 == x / 0x1000000,
                b1 == (x / 0x10000) % 0x100,
                b2 == (x / 0x100) % 0x100,
                b3 == x % 0x100,
        ;
    }
    out.push(b0 as u8);
    out.push(b1 as u8);
    out.push(b2 as u8);
    out.push(b3 as u8);
    proof {
        assert(out@.subrange(0, old(out)@.len() as int) =~= old(out)@);
    }
}

/// Appends a 64-bit integer in big-endian order.
pub fn push_u64_be(out: &mut Vec<u8>, x: u64)
    requires
        old(out)@.len() + 8 <= usize::MAX,
    ensures
        final(out)@.len() == old(out)@.len() + 8,
        final(out)@.subrange(0, old(out)@.len() as int) == old(out)@,
        be64(
            final(out)@[old(out)@.len() as int],
            final(out)@[old(out)@.len() + 1 as int],
            final(out)@[old(out)@.len() + 2 as int],
            final(out)@[old(out)@.len() + 3 as int],
            final(out)@[old(out)@.len() + 4 as int],
            final(out)@[old(out)@.len() + 5 as int],
            final(out)@[old(out)@.len() + 6 as int],
            final(out)@[old(out)@.len() + 7 as int],
        ) == x,
{
    let b0: u64 = x / 0x100000000000000;
    let b1: u64 = (x / 0x1000000000000) % 0x100;
    let b2: u64 = (x / 0x10000000000) % 0x100;
    let b3: u64 = (x / 0x100000000) % 0x100;
    let b4: u64 = (x / 0x1000000) % 0x100;
    let b5: u64 = (x / 0x10000) % 0x100;
    let b6: u64 = (x / 0x100) % 0x100;
    let b7: u64 = x % 0x100;
    proof {
        assert(b0 < 0x100 && (b0 * 0x100000000000000 + b1 * 0x1000000000000 + b2 * 0x10000000000
            + b3 * 0x100000000 + b4 * 0x1000000 + b5 * 0x10000 + b6 * 0x100 + b7 == x))
            by (bit_vector)
            requires
                b0 == x / 0x100000000000000,
                b1 == (x / 0x1000000000000) % 0x100,
                b2 == (x / 0x10000000000) % 0x100,
                b3 == (x / 0x100000000) % 0x100,
                b4 == (x / 0x1000000) % 0x100,
                b5 == (x / 0x10000) % 0x100,
                b6 == (x / 0x100) % 0x100,
                b7 == x % 0x100,
        ;
    }
    out.push(b0 as u8);
    out.push(b1 as u8);
    out.push(b2 as u8);
    out.push(b3 as u8);
    out.push(b4 as u8);
    out.push(b5 as u8);
    out.push(b6 as u8);
    out.push(b7 as u8);
    proof {
        assert(out@.subrange(0, old(out)@.len() as int) =~= old(out)@);
    }
}

/// One framed request of the transmission phase.  `data` carries the payload
/// of a WRITE and is `None` for every other command.
pub struct TransmissionRequest {
    pub flags: u16,
    pub cmdtype: u16,
    pub handle: u64,
    pub offset: u64,
    pub length: u32,
    pub data: Option<Vec<u8>>,
}

/// One simple reply: an error code, the echoed handle, and the data of a
/// successful READ.
pub struct TransmissionSimpleResponse {
    pub error: u32,
    pub handle: u64,
    pub data: Option<Vec<u8>>,
}

/// Parses the fixed 28-byte request header.  Succeeds exactly when the magic
/// is right; the payload of a WRITE is read separately and attached by the
/// caller.
pub fn parse_transmission_header(h: &Vec<u8>) -> (r: Result<TransmissionRequest, NBDError>)
    requires
        h@.len() == 28,
    ensures
        r is Ok <==> be32(h@[0], h@[1], h@[2], h@[3]) == NBD_REQUEST_MAGIC,
        r is Err ==> r == Err::<TransmissionRequest, NBDError>(NBDError::RequestMagicError),
        r is Ok ==> ({
            let q = r->Ok_0;
            &&& q.flags == be16(h@[4], h@[5])
            &&& q.cmdtype == be16(h@[6], h@[7])
            &&& q.handle == be64(h@[8], h@[9], h@[10], h@[11], h@[12], h@[13], h@[14], h@[15])
            &&& q.offset == be64(h@[16], h@[17], h@[18], h@[19], h@[20], h@[21], h@[22], h@[23])
            &&& q.length == be32(h@[24], h@[25], h@[26], h@[27])
            &&& q.data is None
        }),
{
    let magic = u32_from_be(h[0], h[1], h[2], h[3]);
    if magic != NBD_REQUEST_MAGIC {
        return Err(NBDError::RequestMagicError);
    }
    Ok(TransmissionRequest {
        flags: u16_from_be(h[4], h[5]),
        cmdtype: u16_from_be(h[6], h[7]),
        handle: u64_from_be(h[8], h[9], h[10], h[11], h[12], h[13], h[14], h[15]),
        offset: u64_from_be(h[16], h[17], h[18], h[19], h[20], h[21], h[22], h[23]),
        length: u32_from_be(h[24], h[25], h[26], h[27]),
        data: None,
    })
}

/// Encodes a simple reply: magic, error, handle, then the data if any.
pub fn encode_simple_reply(resp: &TransmissionSimpleResponse) -> (r: Vec<u8>)
    requires
        resp.data is Some ==> resp.data->Some_0@.len() + 16 <= usize::MAX,
    ensures
        r@.len() == 16 + (if resp.data is Some {
            resp.data->Some_0@.len()
        } else {
            0
        }),
        be32(r@[0], r@[1], r@[2], r@[3]) == NBD_SIMPLE_REPLY_MAGIC,
        be32(r@[4], r@[5], r@[6], r@[7]) == resp.error,
        be64(r@[8], r@[9], r@[10], r@[11], r@[12], r@[13], r@[14], r@[15]) == resp.handle,
        resp.data is Some ==> r@.subrange(16, r@.len() as int) == resp.data->Some_0@,
{
    let mut out: Vec<u8> = Vec::new();
    push_u32_be(&mut out, NBD_SIMPLE_REPLY_MAGIC);
    push_u32_be(&mut out, resp.error);
    let ghost before_handle = out@;
    push_u64_be(&mut out, resp.handle);
    let ghost header = out@;
    match &resp.data {
        Some(data) => {
            let ghost dview = data@;
            let mut payload = crate::seqs::subvec(data, 0, data.len());
            out.append(&mut payload);
            proof {
                assert(dview.subrange(0, dview.len() as int) =~= dview);
                assert(out@.subrange(16, out@.len() as int) =~= dview);
                assert(out@.subrange(0, 16) =~= header);
            }
        },
        None => {},
    }
    proof {
        assert(header.subrange(0, 8) =~= before_handle);
    }
    out
}

/// Whether a request asks for forced unit access: its FUA flag is set.
pub open spec fn fua_set(flags: u16) -> bool {
    flags & NBD_CMD_FLAG_FUA != 0
}

/// Handles one transmission request against the exported provider and builds
/// the reply.  The second component says whether the connection must close
/// (after a DISC).  Bounds and alignment are validated before any lower layer
/// is touched; a zero-length READ or WRITE is rejected.
pub fn handle_request<T: CloudProvider>(provider: &mut T, req: &TransmissionRequest) -> (r: (
    TransmissionSimpleResponse,
    bool,
))
    requires
        old(provider).inv(),
        req.cmdtype == NBD_CMD_WRITE ==> req.data is Some && req.data->Some_0@.len()
            == req.length,
    ensures
        final(provider).inv(),
        final(provider).contents().len() == old(provider).contents().len(),
        final(provider).block_size_spec() == old(provider).block_size_spec(),
        final(provider).infallible() == old(provider).infallible(),
        r.0.handle == req.handle,
        r.1 <==> req.cmdtype == NBD_CMD_DISC,
        req.cmdtype != NBD_CMD_WRITE ==> final(provider).contents() == old(provider).contents(),
        req.cmdtype == NBD_CMD_READ ==> ({
            let bs = old(provider).block_size_spec();
            let total = old(provider).contents().len();
            let ok = request_ok(bs, total, req.offset as nat, req.length as nat) && req.length
                >= 1;
            &&& (!ok ==> r.0.error == NBD_EINVAL && r.0.data is None && *final(provider)
                == *old(provider))
            &&& (ok && r.0.error == 0 ==> r.0.data is Some && r.0.data->Some_0@
                == old(provider).contents().subrange(req.offset as int, req.offset + req.length))
            &&& (r.0.error == 0 || r.0.error == NBD_EINVAL || r.0.error == NBD_EIO)
            &&& (r.0.error == NBD_EIO ==> r.0.data is None)
            &&& (ok && old(provider).infallible() ==> r.0.error == 0)
        }),
        req.cmdtype == NBD_CMD_WRITE ==> ({
            let bs = old(provider).block_size_spec();
            let total = old(provider).contents().len();
            let oob = req.offset as nat >= total || req.offset as nat + req.length as nat > total;
            let misaligned = !oob && (req.offset as nat % bs != 0 || req.length as nat % bs != 0);
            let ok = request_ok(bs, total, req.offset as nat, req.length as nat) && req.length
                >= 1;
            &&& r.0.data is None
            &&& (oob ==> r.0.error == NBD_ENOSPC && *final(provider) == *old(provider))
            &&& (misaligned ==> r.0.error == NBD_EINVAL && *final(provider) == *old(provider))
            &&& (!oob && !misaligned && req.length == 0 ==> r.0.error == NBD_EINVAL
                && *final(provider) == *old(provider))
            &&& (ok && r.0.error == 0 ==> final(provider).contents() == splice(
                old(provider).contents(),
                req.offset as int,
                req.data->Some_0@,
            ))
            &&& (r.0.error == 0 || r.0.error == NBD_EINVAL || r.0.error == NBD_ENOSPC
                || r.0.error == NBD_EIO)
            &&& (ok && old(provider).infallible() ==> r.0.error == 0)
        }),
        req.cmdtype == NBD_CMD_DISC ==> r.0.error == 0 && r.0.data is None && *final(provider)
            == *old(provider),
        req.cmdtype == NBD_CMD_FLUSH ==> ({
            &&& r.0.data is None
            &&& (r.0.error == 0 || r.0.error == NBD_EIO)
            &&& (r.0.error == 0 ==> final(provider).synced())
            &&& (old(provider).infallible() ==> r.0.error == 0)
        }),
        req.cmdtype != NBD_CMD_READ && req.cmdtype != NBD_CMD_WRITE && req.cmdtype != NBD_CMD_DISC
            && req.cmdtype != NBD_CMD_FLUSH ==> r.0.error == NBD_EINVAL && r.0.data is None
            && *final(provider) == *old(provider),
{
    proof {
        old(provider).lemma_inv();
    }
    let block_size = provider.block_size();
    let total_size = provider.total_size();
    if req.cmdtype == NBD_CMD_READ {
        let valid = req.offset <= usize::MAX as u64 && req.offset as usize <= usize::MAX
            - req.length as usize && crate::bound_and_align_check(
            block_size,
            total_size,
            req.offset as usize,
            req.length as usize,
        ) && req.length >= 1;
        if !valid {
            return (
                TransmissionSimpleResponse { error: NBD_EINVAL, handle: req.handle, data: None },
                false,
            );
        }
        let mut data = zeroed_vec(req.length as usize);
        match provider.unsafe_read(req.offset as usize, &mut data) {
            Ok(()) => (
                TransmissionSimpleResponse { error: 0, handle: req.handle, data: Some(data) },
                false,
            ),
            Err(_) => (
                TransmissionSimpleResponse { error: NBD_EIO, handle: req.handle, data: None },
                false,
            ),
        }
    } else if req.cmdtype == NBD_CMD_WRITE {
        if req.offset >= total_size as u64 || req.offset > usize::MAX as u64 || (req.offset
            as usize) > usize::MAX - (req.length as usize) || req.offset as usize + req.length
            as usize > total_size {
            return (
                TransmissionSimpleResponse { error: NBD_ENOSPC, handle: req.handle, data: None },
                false,
            );
        }
        if (req.offset as usize) % block_size != 0 || (req.length as usize) % block_size != 0 {
            return (
                TransmissionSimpleResponse { error: NBD_EINVAL, handle: req.handle, data: None },
                false,
            );
        }
        if req.length == 0 {
            return (
                TransmissionSimpleResponse { error: NBD_EINVAL, handle: req.handle, data: None },
                false,
            );
        }
        let fua_write_through = req.flags & NBD_CMD_FLAG_FUA != 0;
        let payload = match &req.data {
            Some(p) => p,
            None => {
                proof {
                    assert(false);
                }
                return (
                    TransmissionSimpleResponse {
                        error: NBD_EINVAL,
                        handle: req.handle,
                        data: None,
                    },
                    false,
                );
            },
        };
        match provider.unsafe_write(req.offset as usize, payload, fua_write_through) {
            Ok(()) => (
                TransmissionSimpleResponse { error: 0, handle: req.handle, data: None },
                false,
            ),
            Err(_) => (
                TransmissionSimpleResponse { error: NBD_EIO, handle: req.handle, data: None },
                false,
            ),
        }
    } else if req.cmdtype == NBD_CMD_DISC {
        (TransmissionSimpleResponse { error: 0, handle: req.handle, data: None }, true)
    } else if req.cmdtype == NBD_CMD_FLUSH {
        match provider.flush() {
            Ok(()) => (
                TransmissionSimpleResponse { error: 0, handle: req.handle, data: None },
                false,
            ),
            Err(_) => (
                TransmissionSimpleResponse { error: NBD_EIO, handle: req.handle, data: None },
                false,
            ),
        }
    } else {
        (TransmissionSimpleResponse { error: NBD_EINVAL, handle: req.handle, data: None }, false)
    }
}

/// What the handshake does with one client option.
#[derive(Clone, Copy, Debug, PartialEq, Eq, Structural)]
pub enum HandshakeAction {
    ServeExport,
    AckAbort,
    Unsupported,
}

/// The handshake's dispatch on a client option code.
pub fn classify_option(option: u32) -> (r: HandshakeAction)
    ensures
        option == NBD_OPT_EXPORT_NAME ==> r == HandshakeAction::ServeExport,
        option == NBD_OPT_ABORT ==> r == HandshakeAction::AckAbort,
        option != NBD_OPT_EXPORT_NAME && option != NBD_OPT_ABORT ==> r
            == HandshakeAction::Unsupported,
{
    if option == NBD_OPT_EXPORT_NAME {
        HandshakeAction::ServeExport
    } else if option == NBD_OPT_ABORT {
        HandshakeAction::AckAbort
    } else {
        HandshakeAction::Unsupported
    }
}

/// The client's 32-bit handshake flags must be exactly one.
pub fn check_client_flags(flags: u32) -> (r: Result<(), NBDError>)
    ensures
        r is Ok <==> flags == 1,
        r is Err ==> r == Err::<(), NBDError>(NBDError::ClientFlagsError),
{
    if flags == 1 {
        Ok(())
    } else {
        Err(NBDError::ClientFlagsError)
    }
}

/// Parses the fixed 16-byte option header of the handshake: the option magic,
/// the option code, and the length of the option data that follows.
pub fn parse_option_header(h: &Vec<u8>) -> (r: Result<(u32, u32), NBDError>)
    requires
        h@.len() == 16,
    ensures
        r is Ok <==> be64(h@[0], h@[1], h@[2], h@[3], h@[4], h@[5], h@[6], h@[7]) == IHAVEOPT,
        r is Err ==> r == Err::<(u32, u32), NBDError>(NBDError::ClientOptionsError),
        r is Ok ==> r->Ok_0.0 == be32(h@[8], h@[9], h@[10], h@[11]) && r->Ok_0.1 == be32(
            h@[12],
            h@[13],
            h@[14],
            h@[15],
        ),
{
    let magic = u64_from_be(h[0], h[1], h[2], h[3], h[4], h[5], h[6], h[7]);
    if magic != IHAVEOPT {
        return Err(NBDError::ClientOptionsError);
    }
    Ok((u32_from_be(h[8], h[9], h[10], h[11]), u32_from_be(h[12], h[13], h[14], h[15])))
}

/// Encodes the server's handshake greeting: both magics and the flags.
pub fn encode_handshake_greeting() -> (r: Vec<u8>)
    ensures
        r@.len() == 18,
        be64(r@[0], r@[1], r@[2], r@[3], r@[4], r@[5], r@[6], r@[7]) == NBDMAGIC,
        be64(r@[8], r@[9], r@[10], r@[11], r@[12], r@[13], r@[14], r@[15]) == IHAVEOPT,
        be16(r@[16], r@[17]) == HANDSHAKE_FLAGS,
{
    let mut out: Vec<u8> = Vec::new();
    push_u64_be(&mut out, NBDMAGIC);
    let ghost first = out@;
    push_u64_be(&mut out, IHAVEOPT);
    let ghost second = out@;
    push_u16_be(&mut out, HANDSHAKE_FLAGS);
    proof {
        assert(second.subrange(0, 8) =~= first);
        assert(out@.subrange(0, 16) =~= second);
    }
    out
}

/// Encodes one option reply of the handshake.
pub fn encode_option_reply(option: u32, reply_type: u32, data: &Vec<u8>) -> (r: Vec<u8>)
    requires
        data@.len() + 20 <= usize::MAX,
        data@.len() <= u32::MAX,
    ensures
        r@.len() == 20 + data@.len(),
        be64(r@[0], r@[1], r@[2], r@[3], r@[4], r@[5], r@[6], r@[7]) == REPLY_OPT,
        be32(r@[8], r@[9], r@[10], r@[11]) == option,
        be32(r@[12], r@[13], r@[14], r@[15]) == reply_type,
        be32(r@[16], r@[17], r@[18], r@[19]) == data@.len(),
        r@.subrange(20, r@.len() as int) == data@,
{
    let mut out: Vec<u8> = Vec::new();
    push_u64_be(&mut out, REPLY_OPT);
    let ghost s1 = out@;
    push_u32_be(&mut out, option);
    let ghost s2 = out@;
    push_u32_be(&mut out, reply_type);
    let ghost s3 = out@;
    push_u32_be(&mut out, data.len() as u32);
    let ghost s4 = out@;
    let ghost dview = data@;
    let mut payload = crate::seqs::subvec(data, 0, data.len());
    out.append(&mut payload);
    proof {
        assert(s2.subrange(0, 8) =~= s1);
        assert(s3.subrange(0, 12) =~= s2);
        assert(s4.subrange(0, 16) =~= s3);
        assert(dview.subrange(0, dview.len() as int) =~= dview);
        assert(out@.subrange(0, 20) =~= s4);
        assert(out@.subrange(20, out@.len() as int) =~= dview);
    }
    out
}

/// Encodes the export item sent after EXPORT_NAME: the size and the
/// transmission flags.
pub fn encode_export_item(size: u64, transmission_flags: u16) -> (r: Vec<u8>)
    ensures
        r@.len() == 10,
        be64(r@[0], r@[1], r@[2], r@[3], r@[4], r@[5], r@[6], r@[7]) == size,
        be16(r@[8], r@[9]) == transmission_flags,
{
    let mut out: Vec<u8> = Vec::new();
    push_u64_be(&mut out, size);
    let ghost s1 = out@;
    push_u16_be(&mut out, transmission_flags);
    proof {
        assert(out@.subrange(0, 8) =~= s1);
    }
    out
}

} // verus!
