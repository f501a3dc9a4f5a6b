use evm_loader::addr::{addr_cmp, AddrOrder, Address};
use evm_loader::hashing::{create2_address_for_code, keccak256, legacy_address};
use evm_loader::l64;
use evm_loader::LogContext;

fn hex(s: &str) -> Vec<u8> {
    let b = s.as_bytes();
    assert!(b.len() % 2 == 0);
    let mut out = Vec::new();
    let nib = |c: u8| -> u8 {
        match c {
            b'0'..=b'9' => c - b'0',
            b'a'..=b'f' => c - b'a' + 10,
            b'A'..=b'F' => c - b'A' + 10,
            _ => panic!("bad hex"),
        }
    };
    let mut i = 0;
    while i < b.len() {
        out.push(nib(b[i]) * 16 + nib(b[i + 1]));
        i += 2;
    }
    out
}

fn addr(s: &str) -> Address {
    let b = hex(s);
    assert_eq!(b.len(), 20);
    Address { bytes: b }
}

#[test]
fn test_evm_integration() {
}

#[test]
fn keccak_empty_vector() {
    let h = keccak256(&Vec::new());
    assert_eq!(
        h,
        hex("c5d2460186f7233c927e7db2dcc703c0e500b653ca82273b7bfad8045d85a470")
    );
}

#[test]
fn create2_reference_vectors() {
    // deployer zero, salt zero, init code 0x00
    let caller = addr("0000000000000000000000000000000000000000");
    let salt = hex("0000000000000000000000000000000000000000000000000000000000000000");
    let r = create2_address_for_code(&caller, &salt, &vec![0u8]);
    assert_eq!(r.bytes, hex("4d1a2e2bb4f88f0250f26ffff098b0b30b26bf38"));

    // deployer deadbeef, salt zero, init code 0x00
    let caller = addr("deadbeef00000000000000000000000000000000");
    let r = create2_address_for_code(&caller, &salt, &vec![0u8]);
    assert_eq!(r.bytes, hex("b928f69bb1d91cd65274e3c79d8986362984fda3"));

    // deployer zero, salt zero, empty init code
    let caller = addr("0000000000000000000000000000000000000000");
    let r = create2_address_for_code(&caller, &salt, &Vec::new());
    assert_eq!(r.bytes, hex("e33c0c7f7df4809055c3eba6c09cfe4baf1bd9e0"));
}

#[test]
fn legacy_create_reference_vectors() {
    let caller = addr("6ac7ea33f8831ea9dcc53393aaa88b25a785dbf0");
    let r0 = legacy_address(&caller, 0);
    assert_eq!(r0.bytes, hex("cd234a471b72ba2f1ccf0a70fcaba648a5eecd8d"));
    let r1 = legacy_address(&caller, 1);
    assert_eq!(r1.bytes, hex("343c43a37d37dff08ae8c4a11544c718abb4fcf8"));
}

#[test]
fn address_order_and_equality() {
    let a = addr("0000000000000000000000000000000000000001");
    let b = addr("0000000000000000000000000000000000000002");
    assert!(matches!(addr_cmp(&a, &b), AddrOrder::Less));
    assert!(matches!(addr_cmp(&b, &a), AddrOrder::Greater));
    assert!(matches!(addr_cmp(&a, &a), AddrOrder::Equal));
    assert!(a.eq_addr(&a));
    assert!(!a.eq_addr(&b));
}

#[test]
fn l64_withholds_a_sixty_fourth() {
    assert_eq!(l64(64), 63);
    assert_eq!(l64(6400), 6300);
    assert_eq!(l64(0), 0);
    assert_eq!(l64(63), 63);
}

#[test]
fn log_context_keeps_id() {
    let c = LogContext::new(String::from("req-7"));
    assert_eq!(c.req_id, "req-7");
}
