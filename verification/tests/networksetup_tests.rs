use clash_verge_service::error::ServiceError;
use clash_verge_service::networksetup::{
    default_network_service_by_ns, get_server_by_order, listnetworkserviceorder,
    service_order_from_text, service_order_listing_ok,
};

fn entry(s: &str, p: &str, d: &str) -> (String, String, String) {
    (s.to_string(), p.to_string(), d.to_string())
}

const ORDER_LISTING: &str = "An asterisk (*) denotes that a network service is disabled.\n\
(1) Wi-Fi\n\
(Hardware Port: Wi-Fi, Device: en0)\n\
\n\
(2) Thunderbolt Bridge\n\
(Hardware Port: Thunderbolt Bridge, Device: bridge0)\n\
\n\
(*) iPhone USB\n\
(Hardware Port: iPhone USB, Device: en5)\n\
\n";

#[test]
fn lists_services_in_order() {
    let out = listnetworkserviceorder(ORDER_LISTING.as_bytes().to_vec()).unwrap();
    assert_eq!(
        out,
        vec![
            entry("Wi-Fi", "Wi-Fi", "en0"),
            entry("Thunderbolt Bridge", "Thunderbolt Bridge", "bridge0"),
            entry("iPhone USB", "iPhone USB", "en5"),
        ]
    );
}

#[test]
fn first_line_is_skipped_even_when_it_names_a_service() {
    let text = "(1) Hidden\n(Hardware Port: Wi-Fi, Device: en0)\n".to_string();
    // The first line is a hint, so the detail line finds no service waiting
    // and names one itself: the empty text after its closing bracket.
    let out = service_order_from_text(&text).unwrap();
    assert_eq!(out, vec![]);
}

#[test]
fn detail_line_without_labels_keeps_service_waiting() {
    let text = "hint\n(1) Ethernet\n(no labels here)\n(Hardware Port: USB LAN, Device: en7)\n".to_string();
    let out = service_order_from_text(&text).unwrap();
    assert_eq!(out, vec![entry("Ethernet", "USB LAN", "en7")]);
}

#[test]
fn lines_without_bracket_are_ignored() {
    let text = "hint\n  (1) Indented\n(1) Real\nplain\n(Hardware Port: X, Device: y)".to_string();
    let out = service_order_from_text(&text).unwrap();
    assert_eq!(out, vec![entry("Real", "X", "y")]);
}

#[test]
fn service_line_without_closing_bracket_is_ignored() {
    let text = "hint\n(no close\n(2) Next\n(Hardware Port: P, Device: d)\n".to_string();
    let out = service_order_from_text(&text).unwrap();
    assert_eq!(out, vec![entry("Next", "P", "d")]);
}

#[test]
fn unicode_whitespace_is_trimmed() {
    let text = "hint\n(1)\u{3000}Name\u{a0}\n(Hardware Port:\u{2003}Port A , Device: \ten0 )\n".to_string();
    let out = service_order_from_text(&text).unwrap();
    assert_eq!(out, vec![entry("Name", "Port A", "en0")]);
}

#[test]
fn device_taken_up_to_closing_bracket() {
    let text = "hint\n(1) A\n(Hardware Port: P, Device: en0) \n".to_string();
    // The last character (a space) is dropped as if it were the bracket.
    let out = service_order_from_text(&text).unwrap();
    assert_eq!(out, vec![entry("A", "P", "en0)")]);
}

#[test]
fn invalid_utf8_listing_is_an_error() {
    let bytes = vec![b'h', b'\n', 0xff, 0xfe];
    assert!(service_order_listing_ok(&bytes));
    assert_eq!(
        listnetworkserviceorder(bytes),
        Err(ServiceError::InvalidUtf8 { valid_up_to: 2, error_len: Some(1) })
    );
}

#[test]
fn slicing_out_of_bounds_is_detected() {
    // A detail line of one character.
    let short = "hint\n(1) A\n(\n".as_bytes().to_vec();
    assert!(!service_order_listing_ok(&short));
    assert!(service_order_from_text(&String::from_utf8(short).unwrap()).is_none());
    // A detail line that ends in a multi-byte character.
    let wide = "hint\n(1) A\n(Hardware Port: P, Device: é".as_bytes().to_vec();
    assert!(!service_order_listing_ok(&wide));
    // Labels in the wrong order.
    let swapped = "hint\n(1) A\n(, Device: d Port: p)\n".as_bytes().to_vec();
    assert!(!service_order_listing_ok(&swapped));
    // The same lines with no service waiting are never sliced.
    let fine = "hint\n(\n(, Device: d Port: p)\n".as_bytes().to_vec();
    assert!(service_order_listing_ok(&fine));
    assert_eq!(listnetworkserviceorder(fine), Ok(vec![]));
}

#[test]
fn utf8_error_matches_std() {
    for bytes in [
        vec![0xffu8],
        vec![b'a', 0xe2, 0x82],
        vec![b'a', b'b', 0xe2, 0x28, 0xa1],
        vec![0xf0, 0x90, 0x80, b'x'],
        vec![b'x', 0xed, 0xa0, 0x80],
    ] {
        let e = String::from_utf8(bytes.clone()).unwrap_err();
        let expected = ServiceError::InvalidUtf8 {
            valid_up_to: e.utf8_error().valid_up_to(),
            error_len: e.utf8_error().error_len(),
        };
        assert_eq!(listnetworkserviceorder(bytes.clone()), Err(expected));
        assert_eq!(default_network_service_by_ns(bytes), Err(expected));
    }
}

#[test]
fn lines_without_bracket_inserted_change_nothing() {
    let noisy = "An asterisk (*) denotes that a network service is disabled.\n\
*foo\n\
(1) Wi-Fi\n\
  x\n\
\n\
(Hardware Port: Wi-Fi, Device: en0)\n";
    let plain = "An asterisk (*) denotes that a network service is disabled.\n\
(1) Wi-Fi\n\
(Hardware Port: Wi-Fi, Device: en0)\n";
    assert_eq!(
        listnetworkserviceorder(noisy.as_bytes().to_vec()),
        listnetworkserviceorder(plain.as_bytes().to_vec())
    );
}

#[test]
fn hint_line_content_never_matters() {
    let rest = "(1) Wi-Fi\n(Hardware Port: Wi-Fi, Device: en0)\n";
    let a = format!("(1) Looks like a service\n{}", rest);
    let b = format!("An asterisk (*) denotes that a network service is disabled.\n{}", rest);
    assert_eq!(listnetworkserviceorder(a.into_bytes()), listnetworkserviceorder(b.into_bytes()));
    assert_eq!(listnetworkserviceorder(b"(1) Wi-Fi".to_vec()), Ok(vec![]));
}

#[test]
fn all_services_second_line_alone_decides() {
    assert_eq!(default_network_service_by_ns(b"x\nEthernet".to_vec()), Ok("Ethernet".to_string()));
    assert_eq!(
        default_network_service_by_ns(b"other hint\nEthernet\nWi-Fi\n".to_vec()),
        Ok("Ethernet".to_string())
    );
}

#[test]
fn empty_listing_has_no_services() {
    assert_eq!(listnetworkserviceorder(Vec::new()), Ok(vec![]));
}

#[test]
fn server_by_order_takes_first_match() {
    let services = vec![
        entry("Wi-Fi", "Wi-Fi", "en0"),
        entry("Ethernet", "Ethernet", "en1"),
        entry("Other", "Other", "en1"),
    ];
    assert_eq!(get_server_by_order(&services, "en1".to_string()), Ok("Ethernet".to_string()));
    assert_eq!(get_server_by_order(&services, "en0".to_string()), Ok("Wi-Fi".to_string()));
}

#[test]
fn server_by_order_reports_missing_device() {
    let services = vec![entry("Wi-Fi", "Wi-Fi", "en0")];
    assert_eq!(
        get_server_by_order(&services, "en9".to_string()),
        Err(ServiceError::NoNetworkService)
    );
    assert_eq!(get_server_by_order(&vec![], "en0".to_string()), Err(ServiceError::NoNetworkService));
}

#[test]
fn parsed_listing_feeds_server_lookup() {
    let services = listnetworkserviceorder(ORDER_LISTING.as_bytes().to_vec()).unwrap();
    assert_eq!(
        get_server_by_order(&services, "bridge0".to_string()),
        Ok("Thunderbolt Bridge".to_string())
    );
}

#[test]
fn all_services_first_entry() {
    let out = "An asterisk (*) denotes that a network service is disabled.\nWi-Fi\nEthernet\n";
    assert_eq!(default_network_service_by_ns(out.as_bytes().to_vec()), Ok("Wi-Fi".to_string()));
}

#[test]
fn all_services_second_line_may_be_empty() {
    assert_eq!(default_network_service_by_ns(b"hint\n".to_vec()), Ok(String::new()));
    assert_eq!(default_network_service_by_ns(b"hint\n  Wi-Fi  ".to_vec()), Ok("  Wi-Fi  ".to_string()));
}

#[test]
fn all_services_without_second_line() {
    assert_eq!(
        default_network_service_by_ns(b"only a hint".to_vec()),
        Err(ServiceError::NoNetworkService)
    );
    assert_eq!(default_network_service_by_ns(Vec::new()), Err(ServiceError::NoNetworkService));
}

#[test]
fn all_services_invalid_utf8() {
    assert_eq!(
        default_network_service_by_ns(vec![b'a', b'\n', 0xc3]),
        Err(ServiceError::InvalidUtf8 { valid_up_to: 2, error_len: None })
    );
}
