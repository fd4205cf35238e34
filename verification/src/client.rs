//! The Fastboot client: which interface and endpoints of a device it talks
//! to, and what each response of the device means for the command that is
//! running.
//!
//! The client does not move bytes itself.  A transport sends what
//! [`FastBootCommand::to_bytes`] gives, reads a response, parses it with
//! [`FastBootResponse::from_bytes`] and asks the functions here what to do
//! with it: read on, or stop with a result.

use crate::download::{buffer_size, DataDownload, BUFFER_BYTES};
use crate::protocol::{FastBootResponse, FastBootResponseParseError, Reply};
use nusb::transfer::TransferError;
use vstd::prelude::*;

verus! {

/// The transfer error of `nusb`.
#[verifier::external_type_specification]
#[verifier::external_body]
pub struct ExTransferError(nusb::transfer::TransferError);

/// The I/O error of the standard library.
#[verifier::external_type_specification]
#[verifier::external_body]
pub struct ExIoError(std::io::Error);

/// Fastboot communication errors
#[derive(Debug, PartialEq, Eq)]
pub enum NusbFastBootError {
    /// Transfer error
    Transfer(TransferError),
    /// Fastboot client failure: the device answered `FAIL`, with this reason
    FastbootFailed(String),
    /// Unexpected fastboot response
    FastbootUnexpectedReply,
    /// Unknown fastboot response
    FastbootParseError(FastBootResponseParseError),
}

impl From<TransferError> for NusbFastBootError {
    fn from(e: TransferError) -> (r: NusbFastBootError) {
        NusbFastBootError::Transfer(e)
    }
}

impl vstd::std_specs::convert::FromSpecImpl<TransferError> for NusbFastBootError {
    open spec fn obeys_from_spec() -> bool {
        true
    }

    open spec fn from_spec(e: TransferError) -> NusbFastBootError {
        NusbFastBootError::Transfer(e)
    }
}

impl From<FastBootResponseParseError> for NusbFastBootError {
    fn from(e: FastBootResponseParseError) -> (r: NusbFastBootError) {
        NusbFastBootError::FastbootParseError(e)
    }
}

impl vstd::std_specs::convert::FromSpecImpl<FastBootResponseParseError> for NusbFastBootError {
    open spec fn obeys_from_spec() -> bool {
        true
    }

    open spec fn from_spec(e: FastBootResponseParseError) -> NusbFastBootError {
        NusbFastBootError::FastbootParseError(e)
    }
}

/// Errors when opening the fastboot device
#[derive(Debug)]
pub enum NusbFastBootOpenError {
    /// Failed to open device
    Device(std::io::Error),
    /// Failed to claim interface
    Interface(std::io::Error),
    /// Failed to find interface for fastboot
    MissingInterface,
    /// Failed to find required endpoints for fastboot
    MissingEndpoints,
    /// Unknown fastboot response
    FastbootParseError(FastBootResponseParseError),
}

impl From<FastBootResponseParseError> for NusbFastBootOpenError {
    fn from(e: FastBootResponseParseError) -> (r: NusbFastBootOpenError) {
        NusbFastBootOpenError::FastbootParseError(e)
    }
}

impl vstd::std_specs::convert::FromSpecImpl<FastBootResponseParseError> for NusbFastBootOpenError {
    open spec fn obeys_from_spec() -> bool {
        true
    }

    open spec fn from_spec(e: FastBootResponseParseError) -> NusbFastBootOpenError {
        NusbFastBootOpenError::FastbootParseError(e)
    }
}

/// Class of a Fastboot interface: vendor specific
pub const FASTBOOT_CLASS: u8 = 0xff;

/// Subclass of a Fastboot interface
pub const FASTBOOT_SUBCLASS: u8 = 0x42;

/// Protocol of a Fastboot interface
pub const FASTBOOT_PROTOCOL: u8 = 0x03;

/// What a device says of one of its interfaces before it is opened.
#[derive(Debug, Clone, Copy, PartialEq, Eq)]
pub struct InterfaceInfo {
    /// Identifier of the interface
    pub interface_number: u8,
    /// Code of the interface class
    pub class: u8,
    /// Subclass within the class
    pub subclass: u8,
    /// Protocol within the subclass
    pub protocol: u8,
}

impl InterfaceInfo {
    /// Whether this is a Fastboot interface.
    pub open spec fn is_fastboot(&self) -> bool {
        self.class == FASTBOOT_CLASS && self.subclass == FASTBOOT_SUBCLASS && self.protocol
            == FASTBOOT_PROTOCOL
    }
}

/// Direction of an endpoint
#[derive(Debug, Clone, Copy, PartialEq, Eq, Structural)]
pub enum Direction {
    /// Host to device
    Out,
    /// Device to host
    In,
}

/// Transfer type of an endpoint
#[derive(Debug, Clone, Copy, PartialEq, Eq, Structural)]
pub enum TransferType {
    /// Control endpoint
    Control,
    /// Isochronous endpoint
    Isochronous,
    /// Bulk endpoint
    Bulk,
    /// Interrupt endpoint
    Interrupt,
}

/// The descriptor of an endpoint, as far as the client reads it.
#[derive(Debug, Clone, Copy, PartialEq, Eq)]
pub struct EndpointInfo {
    /// Address of the endpoint
    pub address: u8,
    /// Direction of the endpoint
    pub direction: Direction,
    /// Transfer type of the endpoint
    pub transfer_type: TransferType,
    /// Largest packet that the endpoint accepts, in bytes
    pub max_packet_size: usize,
}

impl EndpointInfo {
    /// Whether this is a bulk endpoint in the given direction.
    pub open spec fn is_bulk(&self, direction: Direction) -> bool {
        self.transfer_type == TransferType::Bulk && self.direction == direction
    }
}

/// An alternate setting of an interface: its endpoints, in descriptor order.
#[derive(Debug, Clone, PartialEq, Eq)]
pub struct AltSetting {
    /// The endpoints of the setting
    pub endpoints: Vec<EndpointInfo>,
}

/// Whether `at` is where the first bulk endpoint of the given direction
/// stands among `endpoints`.
pub open spec fn first_bulk(endpoints: Seq<EndpointInfo>, direction: Direction, at: int) -> bool {
    &&& 0 <= at < endpoints.len()
    &&& endpoints[at].is_bulk(direction)
    &&& forall|j: int| 0 <= j < at ==> !(#[trigger] endpoints[j]).is_bulk(direction)
}

/// Whether some endpoint among `endpoints` is a bulk endpoint of the given
/// direction.
pub open spec fn has_bulk(endpoints: Seq<EndpointInfo>, direction: Direction) -> bool {
    exists|j: int| 0 <= j < endpoints.len() && (#[trigger] endpoints[j]).is_bulk(direction)
}

/// Whether a setting offers what Fastboot needs: one bulk OUT and one bulk
/// IN endpoint.
pub open spec fn usable(setting: AltSetting) -> bool {
    has_bulk(setting.endpoints@, Direction::Out) && has_bulk(setting.endpoints@, Direction::In)
}

/// The first bulk endpoint of the given direction, if there is one.
fn find_bulk(endpoints: &Vec<EndpointInfo>, direction: Direction) -> (r: Option<EndpointInfo>)
    ensures
        match r {
            Some(endpoint) => exists|at: int|
                first_bulk(endpoints@, direction, at) && endpoints@[at] == endpoint,
            None => !has_bulk(endpoints@, direction),
        },
{
    let mut i: usize = 0;
    while i < endpoints.len()
        invariant
            i <= endpoints@.len(),
            forall|j: int| 0 <= j < i ==> !(#[trigger] endpoints@[j]).is_bulk(direction),
        decreases endpoints@.len() - i,
    {
        let endpoint = endpoints[i];
        if endpoint.transfer_type == TransferType::Bulk && endpoint.direction == direction {
            assert(first_bulk(endpoints@, direction, i as int));
            return Some(endpoint);
        }
        i += 1;
    }
    None
}

/// Nusb fastboot client: the endpoints it talks to
#[derive(Debug, Clone, Copy, PartialEq, Eq)]
pub struct NusbFastBoot {
    ep_out: u8,
    ep_in: u8,
    max_out: usize,
    max_in: usize,
}

impl NusbFastBoot {
    /// Address of the bulk OUT endpoint
    pub closed spec fn spec_ep_out(&self) -> u8 {
        self.ep_out
    }

    /// Address of the bulk IN endpoint
    pub closed spec fn spec_ep_in(&self) -> u8 {
        self.ep_in
    }

    /// Largest packet of the bulk OUT endpoint
    pub closed spec fn spec_max_out(&self) -> usize {
        self.max_out
    }

    /// Largest packet of the bulk IN endpoint
    pub closed spec fn spec_max_in(&self) -> usize {
        self.max_in
    }

    /// Whether this client talks to the first bulk OUT and the first bulk IN
    /// endpoint of `setting`.
    pub open spec fn uses(&self, setting: AltSetting) -> bool {
        exists|out_at: int, in_at: int|
            {
                &&& first_bulk(setting.endpoints@, Direction::Out, out_at)
                &&& first_bulk(setting.endpoints@, Direction::In, in_at)
                &&& self.spec_ep_out() == setting.endpoints@[out_at].address
                &&& self.spec_max_out() == setting.endpoints@[out_at].max_packet_size
                &&& self.spec_ep_in() == setting.endpoints@[in_at].address
                &&& self.spec_max_in() == setting.endpoints@[in_at].max_packet_size
            }
    }

    /// Find fastboot interface within a USB device: the number of the first
    /// interface with the class, subclass and protocol of Fastboot
    pub fn find_fastboot_interface(interfaces: &[InterfaceInfo]) -> (r: Option<u8>)
        ensures
            match r {
                Some(number) => exists|at: int|
                    {
                        &&& 0 <= at < interfaces@.len()
                        &&& (#[trigger] interfaces@[at]).is_fastboot()
                        &&& interfaces@[at].interface_number == number
                        &&& forall|j: int|
                            0 <= j < at ==> !(#[trigger] interfaces@[j]).is_fastboot()
                    },
                None => forall|j: int|
                    0 <= j < interfaces@.len() ==> !(#[trigger] interfaces@[j]).is_fastboot(),
            },
    {
        let mut i: usize = 0;
        while i < interfaces.len()
            invariant
                i <= interfaces@.len(),
                forall|j: int| 0 <= j < i ==> !(#[trigger] interfaces@[j]).is_fastboot(),
            decreases interfaces@.len() - i,
        {
            let info = &interfaces[i];
            if info.class == FASTBOOT_CLASS && info.subclass == FASTBOOT_SUBCLASS && info.protocol
                == FASTBOOT_PROTOCOL {
                return Some(info.interface_number);
            }
            i += 1;
        }
        None
    }

    /// Create a fastboot client based on the alternate settings of a USB interface. Interface is
    /// assumed to be a fastboot interface.  The first setting with a bulk
    /// OUT and a bulk IN endpoint is taken, and the first such endpoints in
    /// it.
    pub fn from_interface(alt_settings: &[AltSetting]) -> (r: Result<Self, NusbFastBootOpenError>)
        ensures
            match r {
                Ok(client) => exists|at: int|
                    {
                        &&& 0 <= at < alt_settings@.len()
                        &&& usable(#[trigger] alt_settings@[at])
                        &&& client.uses(alt_settings@[at])
                        &&& forall|j: int| 0 <= j < at ==> !usable(#[trigger] alt_settings@[j])
                    },
                Err(e) => e is MissingEndpoints && forall|j: int|
                    0 <= j < alt_settings@.len() ==> !usable(#[trigger] alt_settings@[j]),
            },
    {
        let mut i: usize = 0;
        while i < alt_settings.len()
            invariant
                i <= alt_settings@.len(),
                forall|j: int| 0 <= j < i ==> !usable(#[trigger] alt_settings@[j]),
            decreases alt_settings@.len() - i,
        {
            let alt = &alt_settings[i];
            // Requires one bulk IN and one bulk OUT
            match find_bulk(&alt.endpoints, Direction::Out) {
                Some(ep_out) => {
                    match find_bulk(&alt.endpoints, Direction::In) {
                        Some(ep_in) => {
                            let client = Self {
                                ep_out: ep_out.address,
                                ep_in: ep_in.address,
                                max_out: ep_out.max_packet_size,
                                max_in: ep_in.max_packet_size,
                            };
                            assert(client.uses(alt_settings@[i as int]));
                            return Ok(client);
                        },
                        None => {},
                    }
                },
                None => {},
            }
            i += 1;
        }
        Err(NusbFastBootOpenError::MissingEndpoints)
    }

    /// Address of the bulk OUT endpoint
    pub fn ep_out(&self) -> (r: u8)
        ensures
            r == self.spec_ep_out(),
    {
        self.ep_out
    }

    /// Address of the bulk IN endpoint
    pub fn ep_in(&self) -> (r: u8)
        ensures
            r == self.spec_ep_in(),
    {
        self.ep_in
    }

    /// Largest packet of the bulk OUT endpoint
    pub fn max_out(&self) -> (r: usize)
        ensures
            r == self.spec_max_out(),
    {
        self.max_out
    }

    /// Largest packet of the bulk IN endpoint: the size of the buffer to read a response into
    pub fn max_in(&self) -> (r: usize)
        ensures
            r == self.spec_max_in(),
    {
        self.max_in
    }
}

/// What `str::trim` makes of a text: the text without the white space at
/// its start and at its end.
pub uninterp spec fn trimmed(text: Seq<char>) -> Seq<char>;

/// Calls `str::trim`.
///
/// Trusted: the result depends on the characters of the text alone; it is
/// given the name `trimmed`.
#[verifier::external_body]
fn trim<'a>(text: &'a str) -> (r: &'a str)
    ensures
        r@ == trimmed(text@),
{
    text.trim()
}

/// Calls `str::rsplit_once`.
///
/// Trusted: the text is split at the last place where `delimiter` stands,
/// into what stands before it and what stands after it; where it stands
/// nowhere there is no result.
#[verifier::external_body]
fn rsplit_once<'a>(text: &'a str, delimiter: char) -> (r: Option<(&'a str, &'a str)>)
    ensures
        match r {
            Some((head, tail)) => text@ == head@ + seq![delimiter] + tail@ && !tail@.contains(
                delimiter,
            ),
            None => !text@.contains(delimiter),
        },
{
    text.rsplit_once(delimiter)
}

/// Whether the last colon of `line` stands at `at`.
pub open spec fn is_last_colon(line: Seq<char>, at: int) -> bool {
    &&& 0 <= at < line.len()
    &&& line[at] == ':'
    &&& forall|j: int| at < j < line.len() ==> line[j] != ':'
}

/// The characters of each text of each pair.
pub open spec fn pairs_view(vars: Seq<(String, String)>) -> Seq<(Seq<char>, Seq<char>)> {
    Seq::new(vars.len(), |i: int| (vars[i].0@, vars[i].1@))
}

/// The variables that the pairs name: each name with the value of the
/// last pair that has it.
pub open spec fn variables_of(pairs: Seq<(Seq<char>, Seq<char>)>) -> Map<Seq<char>, Seq<char>>
    decreases pairs.len(),
{
    if pairs.len() == 0 {
        Map::empty()
    } else {
        variables_of(pairs.drop_last()).insert(pairs.last().0, pairs.last().1)
    }
}

/// The name and the value of a variable in a line of the form
/// `"KEY: VALUE"`: what stands before the last colon and what stands after
/// it, both trimmed.  A line without a colon names no variable.
pub fn parse_variable(line: &str) -> (r: Option<(String, String)>)
    ensures
        match r {
            Some((key, value)) => exists|at: int|
                {
                    &&& is_last_colon(line@, at)
                    &&& key@ == trimmed(line@.take(at))
                    &&& value@ == trimmed(line@.skip(at + 1))
                },
            None => !line@.contains(':'),
        },
{
    match rsplit_once(line, ':') {
        Some((head, tail)) => {
            let key = trim(head).to_owned();
            let value = trim(tail).to_owned();
            proof {
                let at = head@.len() as int;
                assert(line@.take(at) =~= head@);
                assert(line@.skip(at + 1) =~= tail@);
                assert forall|j: int| at < j < line@.len() implies line@[j] != ':' by {
                    assert(line@[j] == tail@[j - at - 1]);
                    if tail@[j - at - 1] == ':' {
                        assert(tail@.contains(':'));
                    }
                }
                assert(is_last_colon(line@, at));
            }
            Some((key, value))
        },
        None => None,
    }
}

impl NusbFastBoot {
    /// What a response means for a command that waits for `OKAY`: `None`
    /// to read the next response, else the result of the command.
    pub fn handle_response(response: FastBootResponse) -> (r: Option<
        Result<String, NusbFastBootError>,
    >)
        ensures
            match response@ {
                Reply::Info(_) => r is None,
                Reply::Text(_) => r is None,
                Reply::Data(_) => r matches Some(Err(NusbFastBootError::FastbootUnexpectedReply)),
                Reply::Okay(value) => r matches Some(Ok(text)) && text@ == value,
                Reply::Fail(reason) => r matches Some(
                    Err(NusbFastBootError::FastbootFailed(text)),
                ) && text@ == reason,
            },
    {
        match response {
            FastBootResponse::Info(_) => None,
            FastBootResponse::Text(_) => None,
            FastBootResponse::Data(_) => Some(Err(NusbFastBootError::FastbootUnexpectedReply)),
            FastBootResponse::Okay(value) => Some(Ok(value)),
            FastBootResponse::Fail(fail) => Some(Err(NusbFastBootError::FastbootFailed(fail))),
        }
    }

    /// Whether a download can be prepared: the OUT endpoint takes packets
    /// of some size, and a buffer of the length for it can be made.
    pub open spec fn can_download(&self) -> bool {
        self.spec_max_out() > 0 && buffer_size(self.spec_max_out()) <= u32::MAX
    }

    /// Whether a download can be prepared
    pub fn supports_download(&self) -> (r: bool)
        ensures
            r == self.can_download(),
    {
        if self.max_out == 0 {
            return false;
        }
        let rest: usize = BUFFER_BYTES % self.max_out;
        rest == 0 || self.max_out - rest <= u32::MAX as usize - BUFFER_BYTES
    }

    /// What a response means after a `download` command: `None` to read
    /// the next response, else the helper for the data that the device
    /// will accept, or why there is none.
    pub fn download_response(&self, response: FastBootResponse) -> (r: Option<
        Result<DataDownload, NusbFastBootError>,
    >)
        requires
            self.can_download(),
        ensures
            match response@ {
                Reply::Info(_) => r is None,
                Reply::Text(_) => r is None,
                Reply::Data(size) => r matches Some(Ok(download)) && {
                    &&& download.wf()
                    &&& download.spec_size() == size
                    &&& download.spec_left() == size
                    &&& download.max_packet_size() == self.spec_max_out()
                    &&& download.collected() == Seq::<u8>::empty()
                },
                Reply::Okay(_) => r matches Some(Err(NusbFastBootError::FastbootUnexpectedReply)),
                Reply::Fail(reason) => r matches Some(
                    Err(NusbFastBootError::FastbootFailed(text)),
                ) && text@ == reason,
            },
    {
        match response {
            FastBootResponse::Info(_) => None,
            FastBootResponse::Text(_) => None,
            FastBootResponse::Data(size) => Some(Ok(DataDownload::new(self.max_out, size))),
            FastBootResponse::Okay(_) => Some(Err(NusbFastBootError::FastbootUnexpectedReply)),
            FastBootResponse::Fail(fail) => Some(Err(NusbFastBootError::FastbootFailed(fail))),
        }
    }

    /// What a response means while all variables are read: `None` to read
    /// the next response, else the end of the command.  A line of
    /// information that names a variable adds it to `vars`, where it
    /// replaces an earlier value of the same name; a line that names none
    /// is passed over.
    pub fn all_vars_response(vars: &mut Vec<(String, String)>, response: FastBootResponse) -> (r:
        Option<Result<(), NusbFastBootError>>)
        ensures
            match response@ {
                Reply::Info(line) => r is None && if line.contains(':') {
                    exists|at: int|
                        {
                            &&& is_last_colon(line, at)
                            &&& pairs_view(final(vars)@) == pairs_view(old(vars)@).push(
                                (trimmed(line.take(at)), trimmed(line.skip(at + 1))),
                            )
                            &&& variables_of(pairs_view(final(vars)@)) == variables_of(
                                pairs_view(old(vars)@),
                            ).insert(trimmed(line.take(at)), trimmed(line.skip(at + 1)))
                        }
                } else {
                    pairs_view(final(vars)@) == pairs_view(old(vars)@)
                },
                Reply::Text(_) => r is None && pairs_view(final(vars)@) == pairs_view(old(vars)@),
                Reply::Data(_) => r matches Some(Err(NusbFastBootError::FastbootUnexpectedReply))
                    && pairs_view(final(vars)@) == pairs_view(old(vars)@),
                Reply::Okay(_) => r matches Some(Ok(_)) && pairs_view(final(vars)@) == pairs_view(
                    old(vars)@,
                ),
                Reply::Fail(reason) => r matches Some(
                    Err(NusbFastBootError::FastbootFailed(text)),
                ) && text@ == reason && pairs_view(final(vars)@) == pairs_view(old(vars)@),
            },
    {
        match response {
            FastBootResponse::Info(info) => {
                match parse_variable(info.as_str()) {
                    Some(pair) => {
                        vars.push(pair);
                        proof {
                            let at = choose|at: int|
                                {
                                    &&& is_last_colon(info@, at)
                                    &&& pair.0@ == trimmed(info@.take(at))
                                    &&& pair.1@ == trimmed(info@.skip(at + 1))
                                };
                            assert(info@[at] == ':');
                            let pair_view = (trimmed(info@.take(at)), trimmed(info@.skip(at + 1)));
                            assert(pairs_view(final(vars)@) =~= pairs_view(old(vars)@).push(
                                pair_view,
                            ));
                            assert(pairs_view(old(vars)@).push(pair_view).drop_last()
                                =~= pairs_view(old(vars)@));
                        }
                    },
                    None => {},
                }
                None
            },
            FastBootResponse::Text(_) => None,
            FastBootResponse::Data(_) => Some(Err(NusbFastBootError::FastbootUnexpectedReply)),
            FastBootResponse::Okay(_) => Some(Ok(())),
            FastBootResponse::Fail(fail) => Some(Err(NusbFastBootError::FastbootFailed(fail))),
        }
    }
}

} // verus!
