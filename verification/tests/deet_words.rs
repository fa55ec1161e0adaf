use cs110l::address::{parse_address, parse_breakpoint_target, parse_radix, BreakpointTarget};
use cs110l::word::{align_addr_to_word, patch_word};

const WORD: usize = std::mem::size_of::<usize>();

#[test]
fn align_rounds_down_to_word() {
    assert_eq!(align_addr_to_word(0x1000), 0x1000);
    assert_eq!(align_addr_to_word(0x1003), 0x1000);
    assert_eq!(align_addr_to_word(0x1000 + WORD - 1), 0x1000);
    assert_eq!(align_addr_to_word(0x1000 + WORD), 0x1000 + WORD);
    assert_eq!(align_addr_to_word(0), 0);
    assert_eq!(align_addr_to_word(usize::MAX), usize::MAX - (WORD - 1));
}

#[test]
fn patch_word_replaces_one_byte() {
    let w: u64 = 0x1122_3344_5566_7788;
    let (updated, orig) = patch_word(w, 0x1002, 0xcc);
    assert_eq!(orig, 0x66);
    assert_eq!(updated, 0x1122_3344_55cc_7788);
    let (updated0, orig0) = patch_word(w, 0x1000, 0xcc);
    assert_eq!(orig0, 0x88);
    assert_eq!(updated0, 0x1122_3344_5566_77cc);
}

#[test]
fn patch_word_restore_round_trip() {
    let w: u64 = 0xdead_beef_0bad_f00d;
    for offset in 0..WORD {
        let addr = 0x4000 + offset;
        let (armed, orig) = patch_word(w, addr, 0xcc);
        let (restored, trap) = patch_word(armed, addr, orig);
        assert_eq!(trap, 0xcc);
        assert_eq!(restored, w);
        let (again, _) = patch_word(patch_word(w, addr, 0x01).0, addr, 0x02);
        assert_eq!(again, patch_word(w, addr, 0x02).0);
    }
}

#[test]
fn parse_address_accepts_hex_with_or_without_prefix() {
    assert_eq!(parse_address("0x1F"), Some(31));
    assert_eq!(parse_address("0X1f"), Some(31));
    assert_eq!(parse_address("ff"), Some(255));
    assert_eq!(parse_address("401126"), Some(0x401126));
    assert_eq!(parse_address("+10"), Some(16));
    assert_eq!(parse_address("0x+10"), Some(16));
}

#[test]
fn parse_address_rejects_non_addresses() {
    assert_eq!(parse_address(""), None);
    assert_eq!(parse_address("0x"), None);
    assert_eq!(parse_address("+"), None);
    assert_eq!(parse_address("-1"), None);
    assert_eq!(parse_address("0xzz"), None);
    assert_eq!(parse_address("12 "), None);
    assert_eq!(parse_address("0x1ffffffffffffffffffff"), None);
}

#[test]
fn parse_radix_matches_std() {
    for s in ["0", "10", "+7", "-7", "", "+", "-", "12a", "99999999999999999999999", "007"] {
        assert_eq!(parse_radix(s, 0, 10), usize::from_str_radix(s, 10).ok(), "{:?}", s);
        assert_eq!(parse_radix(s, 0, 16), usize::from_str_radix(s, 16).ok(), "{:?}", s);
    }
    assert_eq!(parse_radix("x42", 1, 10), Some(42));
}

#[test]
fn breakpoint_targets() {
    assert_eq!(parse_breakpoint_target("*0x401126"), BreakpointTarget::Address(0x401126));
    assert_eq!(parse_breakpoint_target("*401126"), BreakpointTarget::Address(0x401126));
    assert_eq!(parse_breakpoint_target("*nothex"), BreakpointTarget::InvalidAddress);
    assert_eq!(parse_breakpoint_target("*"), BreakpointTarget::InvalidAddress);
    assert_eq!(parse_breakpoint_target("15"), BreakpointTarget::Line(15));
    assert_eq!(parse_breakpoint_target("main"), BreakpointTarget::Function);
    assert_eq!(parse_breakpoint_target("0x10"), BreakpointTarget::Function);
}

#[test]
fn printed_addresses_parse_back() {
    for n in [0usize, 1, 0xf, 0x10, 0x401126, 0xdead_beef, usize::MAX] {
        assert_eq!(parse_address(&format!("{:#x}", n)), Some(n));
        assert_eq!(parse_address(&format!("{:x}", n)), Some(n));
        assert_eq!(parse_address(&format!("{:#X}", n)), Some(n));
        assert_eq!(parse_address(&format!("{:#018x}", n)), Some(n));
    }
}

#[test]
fn parse_address_ignores_letter_case() {
    for s in ["0xDeadBeef", "0Xabc", "AbC", "0xG1", "+fF", "0x"] {
        assert_eq!(parse_address(&s.to_ascii_uppercase()), parse_address(s));
        assert_eq!(parse_address(&s.to_ascii_lowercase()), parse_address(s));
    }
}
