use ptt::base64::base64url_decode;

#[test]
fn decodes_unpadded_base64url() {
    assert_eq!(base64url_decode("aGVsbG8").unwrap(), b"hello".to_vec());
    assert_eq!(base64url_decode("-_8").unwrap(), vec![0xfb, 0xff]);
    assert_eq!(base64url_decode("").unwrap(), Vec::<u8>::new());
}

#[test]
fn stops_at_padding() {
    assert_eq!(base64url_decode("aGk=").unwrap(), b"hi".to_vec());
    assert_eq!(base64url_decode("aGk=!!!!").unwrap(), b"hi".to_vec());
}

#[test]
fn refuses_bad_lengths_and_digits() {
    assert!(base64url_decode("a").is_err());
    assert!(base64url_decode("aGVsb").is_err());
    assert!(base64url_decode("a+bc").is_err());
    assert!(base64url_decode("a/bc").is_err());
}

fn base64url_encode(input: &[u8]) -> String {
    const TABLE: &[u8; 64] = b"ABCDEFGHIJKLMNOPQRSTUVWXYZabcdefghijklmnopqrstuvwxyz0123456789-_";
    let mut out = String::new();
    for chunk in input.chunks(3) {
        let b0 = chunk[0];
        let b1 = *chunk.get(1).unwrap_or(&0);
        let b2 = *chunk.get(2).unwrap_or(&0);
        let n = ((b0 as u32) << 16) | ((b1 as u32) << 8) | b2 as u32;

        out.push(TABLE[((n >> 18) & 63) as usize] as char);
        out.push(TABLE[((n >> 12) & 63) as usize] as char);
        if chunk.len() > 1 {
            out.push(TABLE[((n >> 6) & 63) as usize] as char);
        }
        if chunk.len() > 2 {
            out.push(TABLE[(n & 63) as usize] as char);
        }
    }
    out
}

#[test]
fn encoded_bytes_decode_back() {
    let all: Vec<u8> = (0..=255u8).collect();
    for len in 0..=all.len() {
        let bytes = &all[all.len() - len..];
        let encoded = base64url_encode(bytes);
        assert_eq!(encoded.len(), (bytes.len() * 4 + 2) / 3);
        assert_eq!(base64url_decode(&encoded).unwrap(), bytes.to_vec());
    }
}

#[test]
fn decoded_length_is_three_quarters_of_the_digits() {
    assert_eq!(base64url_decode("AAAA").unwrap().len(), 3);
    assert_eq!(base64url_decode("AAAAAA").unwrap().len(), 4);
    assert_eq!(base64url_decode("AAAAAAA").unwrap().len(), 5);
    assert_eq!(base64url_decode("AAAAAAA=xyz").unwrap().len(), 5);
}
