use ipv4util::bits::bit_to_int;
use ipv4util::ip_trait::Ip;
use ipv4util::my_ipv4::{octets2bit, Ipv4};

#[test]
fn test_bit_to_int() {
    assert_eq!(bit_to_int("0"), 0);
    assert_eq!(bit_to_int("0000000000000000000000000"), 0);
    let bit = "00000000001";
    assert_eq!(bit_to_int(bit), 1);
    let bit = "1111111";
    assert_eq!(bit_to_int(bit), 127);
    assert_eq!(bit_to_int("1111111111111111111111111111111"), (1 << 31) - 1);
}

#[test]
fn test_ping() {}

#[test]
fn test_octets2bit() {
    assert_eq!(octets2bit(&[0, 0, 0, 0]), 0);
    assert_eq!(octets2bit(&[0, 0, 0, 1]), 1);
    assert_eq!(octets2bit(&[0, 0, 1, 0]), 256);
    assert_eq!(octets2bit(&[1, 1, 1, 1]), 16843009);
    assert_eq!(octets2bit(&[255, 255, 255, 254]), 4294967294);
    assert_eq!(octets2bit(&[255, 255, 255, 255]), 4294967295);
}

#[test]
fn test_ipv4_new() {
    assert_eq!(Ipv4::new("1111").unwrap_err(), "Invalid IP 1111".to_string());
    assert_eq!(
        Ipv4::new("255.255.255.256").unwrap_err(),
        "Invalid IP 255.255.255.256".to_string()
    );
    assert_eq!(
        Ipv4::new("0.0.0.0").unwrap(),
        Ipv4 { octets: [0, 0, 0, 0], bit: 0 }
    );
    assert_eq!(
        Ipv4::new("0.0.0.1").unwrap(),
        Ipv4 { octets: [0, 0, 0, 1], bit: 1 }
    );
    assert_eq!(
        Ipv4::new("1.1.1.1").unwrap(),
        Ipv4 { octets: [1, 1, 1, 1], bit: 16843009 }
    );
    assert_eq!(
        Ipv4::new("255.255.255.255").unwrap(),
        Ipv4 { octets: [255, 255, 255, 255], bit: 4294967295 }
    );

    assert_eq!(
        "1.1.1.1".parse::<Ipv4>().unwrap(),
        Ipv4 { octets: [1, 1, 1, 1], bit: 16843009 }
    );
    assert_eq!("1".parse::<Ipv4>().unwrap_err(), "Invalid IP 1".to_string());
}

#[test]
fn test_ipv4_bits() {
    assert_eq!(
        Ipv4::new("0.0.0.0").unwrap().bits_string(),
        "00000000000000000000000000000000".to_string()
    );
    assert_eq!(
        Ipv4::new("0.0.0.1").unwrap().bits_string(),
        "00000000000000000000000000000001".to_string()
    );
    assert_eq!(
        Ipv4::new("255.255.255.254").unwrap().bits_string(),
        "11111111111111111111111111111110".to_string()
    );
    assert_eq!(
        Ipv4::new("255.255.255.255").unwrap().bits_string(),
        "11111111111111111111111111111111".to_string()
    );
}

#[test]
fn test_ipv4_bits_one_one_one_one() {
    assert_eq!(
        Ipv4::new("1.1.1.1").unwrap().bits_string(),
        "00000001000000010000000100000001".to_string()
    );
}

#[test]
fn test_ipv4_native() {
    assert_eq!(Ipv4::new("0.0.0.0").unwrap().native(), [0, 0, 0, 0]);
    assert_eq!(Ipv4::new("1.1.1.1").unwrap().native(), [1, 1, 1, 1]);
    assert_eq!(Ipv4::new("8.8.8.8").unwrap().native(), [8, 8, 8, 8]);
    assert_eq!(
        Ipv4::new("127.127.127.127").unwrap().native(),
        [127, 127, 127, 127]
    );
    assert_eq!(
        Ipv4::new("255.255.255.255").unwrap().native(),
        [255, 255, 255, 255]
    );
}

#[test]
fn test_ipv4_to_string() {
    assert_eq!(Ipv4::new("0.0.0.0").unwrap().to_string(), "0.0.0.0".to_string());
    assert_eq!(Ipv4::new("1.1.1.1").unwrap().to_string(), "1.1.1.1".to_string());
    assert_eq!(
        Ipv4::new("255.255.255.255").unwrap().to_string(),
        "255.255.255.255".to_string()
    );
    assert_eq!(
        Ipv4::new("192.168.10.2").unwrap().to_string(),
        "192.168.10.2".to_string()
    );
}

#[test]
fn test_ipv4_leading_zeros_normalized() {
    let ip = Ipv4::new("001.020.003.000").unwrap();
    assert_eq!(ip.octets, [1, 20, 3, 0]);
    assert_eq!(ip.to_string(), "1.20.3.0".to_string());
    let ip = Ipv4::new("099.000.010.255").unwrap();
    assert_eq!(ip.octets, [99, 0, 10, 255]);
    assert_eq!(ip.to_string(), "99.0.10.255".to_string());
}

#[test]
fn test_ipv4_rejects_malformed() {
    assert_eq!(Ipv4::new("").unwrap_err(), "Invalid IP ".to_string());
    assert_eq!(Ipv4::new("1.2.3").unwrap_err(), "Invalid IP 1.2.3".to_string());
    assert_eq!(
        Ipv4::new("1.2.3.4.5").unwrap_err(),
        "Invalid IP 1.2.3.4.5".to_string()
    );
    assert_eq!(Ipv4::new("1..2.3").unwrap_err(), "Invalid IP 1..2.3".to_string());
    assert_eq!(
        Ipv4::new("a.b.c.d").unwrap_err(),
        "Invalid IP a.b.c.d".to_string()
    );
    assert_eq!(
        Ipv4::new("256.1.1.1").unwrap_err(),
        "Invalid IP 256.1.1.1".to_string()
    );
    assert_eq!(
        Ipv4::new("1.1.1.1 ").unwrap_err(),
        "Invalid IP 1.1.1.1 ".to_string()
    );
    assert_eq!(
        Ipv4::new(" 1.1.1.1").unwrap_err(),
        "Invalid IP  1.1.1.1".to_string()
    );
    assert_eq!(
        Ipv4::new("1.2.3.0004").unwrap_err(),
        "Invalid IP 1.2.3.0004".to_string()
    );
    assert_eq!(Ipv4::new("1.2.3.").unwrap_err(), "Invalid IP 1.2.3.".to_string());
    assert_eq!(Ipv4::new(".1.2.3").unwrap_err(), "Invalid IP .1.2.3".to_string());
}

#[test]
fn test_bits_round_trip() {
    for text in [
        "0.0.0.0",
        "0.0.0.1",
        "1.1.1.1",
        "10.0.200.31",
        "255.255.255.254",
        "255.255.255.255",
    ] {
        let ip = Ipv4::new(text).unwrap();
        let bits = ip.bits_string();
        assert_eq!(bits.len(), 32);
        assert_eq!(bit_to_int(&bits), ip.bit);
    }
}

#[test]
fn test_value_packing() {
    let ip = Ipv4::new("1.2.3.4").unwrap();
    assert_eq!(ip.bit, 1 * 16777216 + 2 * 65536 + 3 * 256 + 4);
    assert_eq!(ip.bit, octets2bit(&ip.octets));
}
