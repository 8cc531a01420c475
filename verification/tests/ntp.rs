use lib::ntp::{ntp_reply, ntp_request, NtpError};

fn reply(mode_byte: u8, stratum: u8, seconds: u32, fraction: u32) -> Vec<u8> {
    let mut r = vec![0u8; 48];
    r[0] = mode_byte;
    r[1] = stratum;
    r[40..44].copy_from_slice(&seconds.to_be_bytes());
    r[44..48].copy_from_slice(&fraction.to_be_bytes());
    r
}

#[test]
fn request_is_a_version_four_client_packet() {
    let r = ntp_request();
    assert_eq!(r.len(), 48);
    assert_eq!(r[0], 0x23);
    assert!(r[1..].iter().all(|b| *b == 0));
}

#[test]
fn a_server_reply_gives_unix_seconds_and_nanoseconds() {
    let r = reply(0x24, 2, 2_208_988_800 + 1_700_000_000, 0x8000_0000);
    assert_eq!(ntp_reply(&r), Ok((1_700_000_000, 500_000_000)));
    let b = reply(0x25, 15, 2_208_988_800, 1);
    assert_eq!(ntp_reply(&b), Ok((0, 0)));
    let full = reply(0x1c, 1, u32::MAX, u32::MAX);
    assert_eq!(ntp_reply(&full), Ok((u32::MAX as u64 - 2_208_988_800, 999_999_999)));
}

#[test]
fn refusals_name_their_reason() {
    assert_eq!(ntp_reply(&[0u8; 47]), Err(NtpError::ShortResponse));
    assert_eq!(ntp_reply(&reply(0x23, 2, 3_000_000_000, 0)), Err(NtpError::InvalidResponse));
    assert_eq!(ntp_reply(&reply(0x24, 0, 3_000_000_000, 0)), Err(NtpError::InvalidResponse));
    assert_eq!(ntp_reply(&reply(0x24, 16, 3_000_000_000, 0)), Err(NtpError::InvalidResponse));
    assert_eq!(ntp_reply(&reply(0x24, 3, 2_208_988_799, 0)), Err(NtpError::InvalidEpoch));
    assert_eq!(NtpError::InvalidEpoch.reason(), "invalid-epoch");
    assert_eq!(NtpError::ShortResponse.reason(), "short-response");
}
