//! The SNTP exchange behind `internet-time-sync`: the 48-byte client
//! request, and the decision on the server's reply bytes. Sending and
//! receiving stay with the caller.
use vstd::prelude::*;

verus! {

/// Why a reply was refused.
#[derive(Debug, Clone, Copy, PartialEq, Eq)]
pub enum NtpError {
    /// Fewer than 48 bytes came back.
    ShortResponse,
    /// The mode is not server or broadcast, or the stratum is not 1 to 15.
    InvalidResponse,
    /// The transmit time lies before the Unix epoch.
    InvalidEpoch,
}

impl NtpError {
    /// The reason symbol reported for this refusal.
    pub fn reason(&self) -> (s: &'static str)
        ensures
            s@ == reason_text(*self),
    {
        match self {
            NtpError::ShortResponse => "short-response",
            NtpError::InvalidResponse => "invalid-response",
            NtpError::InvalidEpoch => "invalid-epoch",
        }
    }
}

pub open spec fn reason_text(e: NtpError) -> Seq<char> {
    match e {
        NtpError::ShortResponse => "short-response"@,
        NtpError::InvalidResponse => "invalid-response"@,
        NtpError::InvalidEpoch => "invalid-epoch"@,
    }
}

/// Seconds from the NTP era (1900) to the Unix epoch (1970).
pub const NTP_UNIX_OFFSET: u64 = 2_208_988_800;

/// The big-endian 32-bit word at `i`.
pub open spec fn be32(b: Seq<u8>, i: int) -> int {
    ((b[i] * 256 + b[i + 1]) * 256 + b[i + 2]) * 256 + b[i + 3]
}

/// The decision on a reply: the Unix seconds and the nanosecond of the
/// server's transmit time, or why the reply is refused.
pub open spec fn ntp_reply_spec(reply: Seq<u8>) -> Result<(u64, u32), NtpError> {
    if reply.len() < 48 {
        Err(NtpError::ShortResponse)
    } else if !(reply[0] % 8 == 4 || reply[0] % 8 == 5) || reply[1] == 0 || reply[1] > 15 {
        Err(NtpError::InvalidResponse)
    } else if be32(reply, 40) < NTP_UNIX_OFFSET {
        Err(NtpError::InvalidEpoch)
    } else {
        Ok(
            (
                (be32(reply, 40) - NTP_UNIX_OFFSET) as u64,
                ((be32(reply, 44) * 1_000_000_000) / 0x1_0000_0000) as u32,
            ),
        )
    }
}

/// The client request: version 4, client mode, all else zero.
pub fn ntp_request() -> (r: Vec<u8>)
    ensures
        r@.len() == 48,
        r@[0] == 0x23,
        forall|i: int| 1 <= i < 48 ==> r@[i] == 0,
{
    let mut r: Vec<u8> = Vec::new();
    r.push(0x23);
    while r.len() < 48
        invariant
            1 <= r@.len() <= 48,
            r@[0] == 0x23,
            forall|i: int| 1 <= i < r@.len() ==> r@[i] == 0,
        decreases 48 - r@.len(),
    {
        r.push(0);
    }
    r
}

fn word_at(reply: &[u8], i: usize) -> (w: u64)
    requires
        i + 4 <= reply@.len(),
    ensures
        w == be32(reply@, i as int),
        w < 0x1_0000_0000,
{
    (((reply[i] as u64) * 256 + reply[i + 1] as u64) * 256 + reply[i + 2] as u64) * 256
        + reply[i + 3] as u64
}

/// Reads a reply to `ntp_request`.
pub fn ntp_reply(reply: &[u8]) -> (r: Result<(u64, u32), NtpError>)
    ensures
        r == ntp_reply_spec(reply@),
{
    if reply.len() < 48 {
        return Err(NtpError::ShortResponse);
    }
    let first = reply[0];
    let mode = first & 0x07;
    assert(first & 0x07 == first % 8) by (bit_vector);
    let stratum = reply[1];
    if !(mode == 4 || mode == 5) || stratum == 0 || stratum > 15 {
        return Err(NtpError::InvalidResponse);
    }
    let seconds = word_at(reply, 40);
    if seconds < NTP_UNIX_OFFSET {
        return Err(NtpError::InvalidEpoch);
    }
    let fraction = word_at(reply, 44);
    let scaled = fraction * 1_000_000_000;
    let nanos = scaled >> 32;
    assert(scaled >> 32 == scaled / 0x1_0000_0000) by (bit_vector);
    assert(nanos < 1_000_000_000);
    Ok((seconds - NTP_UNIX_OFFSET, nanos as u32))
}

} // verus!
