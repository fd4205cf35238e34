use fastboot_sparse::client::{
    parse_variable, AltSetting, Direction, EndpointInfo, InterfaceInfo, NusbFastBoot,
    NusbFastBootError, NusbFastBootOpenError, TransferType,
};
use fastboot_sparse::protocol::{FastBootResponse, FastBootResponseParseError};

fn interface(interface_number: u8, class: u8, subclass: u8, protocol: u8) -> InterfaceInfo {
    InterfaceInfo {
        interface_number,
        class,
        subclass,
        protocol,
    }
}

fn endpoint(
    address: u8,
    direction: Direction,
    transfer_type: TransferType,
    max_packet_size: usize,
) -> EndpointInfo {
    EndpointInfo {
        address,
        direction,
        transfer_type,
        max_packet_size,
    }
}

#[test]
fn find_fastboot_interface_takes_the_first() {
    let interfaces = [
        interface(0, 0xff, 0x42, 0x01),
        interface(1, 0x08, 0x06, 0x50),
        interface(4, 0xff, 0x42, 0x03),
        interface(5, 0xff, 0x42, 0x03),
    ];
    assert_eq!(NusbFastBoot::find_fastboot_interface(&interfaces), Some(4));
    assert_eq!(
        NusbFastBoot::find_fastboot_interface(&interfaces[..2]),
        None
    );
    assert_eq!(NusbFastBoot::find_fastboot_interface(&[]), None);
}

#[test]
fn find_fastboot_interface_checks_each_field() {
    assert_eq!(
        NusbFastBoot::find_fastboot_interface(&[interface(0, 0xfe, 0x42, 0x03)]),
        None
    );
    assert_eq!(
        NusbFastBoot::find_fastboot_interface(&[interface(0, 0xff, 0x43, 0x03)]),
        None
    );
    assert_eq!(
        NusbFastBoot::find_fastboot_interface(&[interface(0, 0xff, 0x42, 0x02)]),
        None
    );
    assert_eq!(
        NusbFastBoot::find_fastboot_interface(&[interface(7, 0xff, 0x42, 0x03)]),
        Some(7)
    );
}

#[test]
fn from_interface_takes_first_usable_setting() {
    let settings = [
        AltSetting {
            endpoints: vec![endpoint(0x01, Direction::Out, TransferType::Bulk, 64)],
        },
        AltSetting {
            endpoints: vec![
                endpoint(0x83, Direction::In, TransferType::Interrupt, 8),
                endpoint(0x81, Direction::In, TransferType::Bulk, 512),
                endpoint(0x02, Direction::Out, TransferType::Isochronous, 1024),
                endpoint(0x03, Direction::Out, TransferType::Bulk, 256),
                endpoint(0x04, Direction::Out, TransferType::Bulk, 128),
                endpoint(0x85, Direction::In, TransferType::Bulk, 64),
            ],
        },
        AltSetting {
            endpoints: vec![
                endpoint(0x06, Direction::Out, TransferType::Bulk, 16),
                endpoint(0x87, Direction::In, TransferType::Bulk, 32),
            ],
        },
    ];
    let client = NusbFastBoot::from_interface(&settings).unwrap();
    assert_eq!(client.ep_out(), 0x03);
    assert_eq!(client.max_out(), 256);
    assert_eq!(client.ep_in(), 0x81);
    assert_eq!(client.max_in(), 512);
}

#[test]
fn from_interface_missing_endpoints() {
    let settings = [
        AltSetting {
            endpoints: vec![endpoint(0x01, Direction::Out, TransferType::Bulk, 64)],
        },
        AltSetting {
            endpoints: vec![endpoint(0x81, Direction::In, TransferType::Bulk, 64)],
        },
        AltSetting {
            endpoints: vec![
                endpoint(0x01, Direction::Out, TransferType::Interrupt, 64),
                endpoint(0x81, Direction::In, TransferType::Bulk, 64),
            ],
        },
        AltSetting { endpoints: vec![] },
    ];
    assert!(matches!(
        NusbFastBoot::from_interface(&settings),
        Err(NusbFastBootOpenError::MissingEndpoints)
    ));
    assert!(matches!(
        NusbFastBoot::from_interface(&[]),
        Err(NusbFastBootOpenError::MissingEndpoints)
    ));
}

#[test]
fn handle_response_of_each_kind() {
    assert_eq!(
        NusbFastBoot::handle_response(FastBootResponse::Info("working".to_string())),
        None
    );
    assert_eq!(
        NusbFastBoot::handle_response(FastBootResponse::Text("more".to_string())),
        None
    );
    assert_eq!(
        NusbFastBoot::handle_response(FastBootResponse::Okay("0.4".to_string())),
        Some(Ok("0.4".to_string()))
    );
    assert_eq!(
        NusbFastBoot::handle_response(FastBootResponse::Fail("no such variable".to_string())),
        Some(Err(NusbFastBootError::FastbootFailed(
            "no such variable".to_string()
        )))
    );
    assert_eq!(
        NusbFastBoot::handle_response(FastBootResponse::Data(16)),
        Some(Err(NusbFastBootError::FastbootUnexpectedReply))
    );
}

#[test]
fn command_runs_until_okay_or_fail() {
    // what a transport does with the responses to one command
    let responses = [
        FastBootResponse::Info("erasing".to_string()),
        FastBootResponse::Text("still erasing".to_string()),
        FastBootResponse::Info("done".to_string()),
        FastBootResponse::Okay("fine".to_string()),
        FastBootResponse::Fail("never read".to_string()),
    ];
    let mut read: usize = 0;
    let mut outcome = None;
    for response in responses {
        read += 1;
        if let Some(result) = NusbFastBoot::handle_response(response) {
            outcome = Some(result);
            break;
        }
    }
    assert_eq!(read, 4);
    assert_eq!(outcome, Some(Ok("fine".to_string())));
}

#[test]
fn parse_variable_splits_at_last_colon() {
    assert_eq!(
        parse_variable("version: 0.4"),
        Some(("version".to_string(), "0.4".to_string()))
    );
    assert_eq!(
        parse_variable("partition-size:boot: 0x4000000"),
        Some(("partition-size:boot".to_string(), "0x4000000".to_string()))
    );
    assert_eq!(
        parse_variable("key:"),
        Some(("key".to_string(), String::new()))
    );
    assert_eq!(
        parse_variable(":value"),
        Some((String::new(), "value".to_string()))
    );
    assert_eq!(parse_variable(":"), Some((String::new(), String::new())));
    assert_eq!(parse_variable("no variable here"), None);
    assert_eq!(parse_variable(""), None);
}

#[test]
fn parse_variable_trims_both_parts() {
    assert_eq!(
        parse_variable("  max-download-size \t:\t 0x20000000 \n"),
        Some(("max-download-size".to_string(), "0x20000000".to_string()))
    );
    assert_eq!(
        parse_variable("a b : c d"),
        Some(("a b".to_string(), "c d".to_string()))
    );
    // white space of Unicode goes too
    assert_eq!(
        parse_variable("\u{2003}key\u{a0}:\u{3000}value\u{2028}"),
        Some(("key".to_string(), "value".to_string()))
    );
}

#[test]
fn all_vars_response_collects_variables() {
    let mut vars: Vec<(String, String)> = Vec::new();
    assert_eq!(
        NusbFastBoot::all_vars_response(
            &mut vars,
            FastBootResponse::Info("version: 0.4".to_string())
        ),
        None
    );
    assert_eq!(
        NusbFastBoot::all_vars_response(
            &mut vars,
            FastBootResponse::Info("not a variable".to_string())
        ),
        None
    );
    assert_eq!(
        NusbFastBoot::all_vars_response(&mut vars, FastBootResponse::Text("a: b".to_string())),
        None
    );
    assert_eq!(
        NusbFastBoot::all_vars_response(
            &mut vars,
            FastBootResponse::Info("is-userspace:  no ".to_string())
        ),
        None
    );
    assert_eq!(
        NusbFastBoot::all_vars_response(&mut vars, FastBootResponse::Okay(String::new())),
        Some(Ok(()))
    );
    assert_eq!(
        vars,
        vec![
            ("version".to_string(), "0.4".to_string()),
            ("is-userspace".to_string(), "no".to_string()),
        ]
    );
}

#[test]
fn all_vars_response_stops_on_errors() {
    let mut vars: Vec<(String, String)> = vec![("a".to_string(), "b".to_string())];
    assert_eq!(
        NusbFastBoot::all_vars_response(&mut vars, FastBootResponse::Data(4)),
        Some(Err(NusbFastBootError::FastbootUnexpectedReply))
    );
    assert_eq!(
        NusbFastBoot::all_vars_response(&mut vars, FastBootResponse::Fail("locked".to_string())),
        Some(Err(NusbFastBootError::FastbootFailed("locked".to_string())))
    );
    assert_eq!(vars, vec![("a".to_string(), "b".to_string())]);
}

#[test]
fn supports_download_needs_a_packet_size() {
    let with = |max_packet_size: usize| {
        NusbFastBoot::from_interface(&[AltSetting {
            endpoints: vec![
                endpoint(0x01, Direction::Out, TransferType::Bulk, max_packet_size),
                endpoint(0x81, Direction::In, TransferType::Bulk, 64),
            ],
        }])
        .unwrap()
    };
    assert!(with(512).supports_download());
    assert!(with(1).supports_download());
    assert!(with(1 << 20).supports_download());
    assert!(with(1000).supports_download());
    assert!(!with(0).supports_download());
    assert!(with(u32::MAX as usize).supports_download());
    // the buffer would be one packet of more than `u32::MAX` bytes
    assert!(!with(usize::MAX).supports_download());
}

#[test]
fn errors_convert() {
    assert_eq!(
        NusbFastBootError::from(FastBootResponseParseError::DataLength),
        NusbFastBootError::FastbootParseError(FastBootResponseParseError::DataLength)
    );
    assert_eq!(
        NusbFastBootError::from(nusb::transfer::TransferError::Stall),
        NusbFastBootError::Transfer(nusb::transfer::TransferError::Stall)
    );
    assert!(matches!(
        NusbFastBootOpenError::from(FastBootResponseParseError::UnknownReply),
        NusbFastBootOpenError::FastbootParseError(FastBootResponseParseError::UnknownReply)
    ));
}

#[test]
fn all_vars_response_keeps_later_values_last() {
    let mut vars: Vec<(String, String)> = Vec::new();
    for line in ["slot: a", "version: 1", "slot: b"] {
        assert_eq!(
            NusbFastBoot::all_vars_response(&mut vars, FastBootResponse::Info(line.to_string())),
            None
        );
    }
    let map: std::collections::HashMap<String, String> = vars.into_iter().collect();
    assert_eq!(map.len(), 2);
    assert_eq!(map["slot"], "b");
    assert_eq!(map["version"], "1");
}
