//! The decisions of the camera directory client.
//!
//! The directory service knows the account's cameras and their network
//! addresses. Talking to it is left to the caller; what is decided here is
//! what to ask, how to read an answer and what to do next: the login payload,
//! the addresses to call, the steps of a login with its regional redirect, and
//! the matching of cameras to their connections.

use crate::text::index_of;
use crate::text::split_once;
use vstd::prelude::*;
use vstd::string::*;
use vstd::utf8::encode_utf8;

verus! {

/// What can go wrong with the directory service.
#[derive(Debug, Clone)]
pub enum Error {
    /// The request failed; the text says how.
    Http(String),
    InvalidCredentials,
    InvalidApiDomain,
    NoSessionId,
    /// The directory lists no connection for the camera of this name.
    NoIpForDevice(String),
}

/// The text that describes an error.
pub open spec fn message_of(e: Error) -> Seq<char> {
    match e {
        Error::Http(cause) => "error performing http request: "@ + cause@,
        Error::InvalidCredentials => "incorrect username and/or password"@,
        Error::InvalidApiDomain => "invalid API domain"@,
        Error::NoSessionId => "the server did not provide a session ID"@,
        Error::NoIpForDevice(name) => "the server did not provide an IP address for `"@ + name@
            + "`"@,
    }
}

impl Error {
    /// Describes the error.
    pub fn message(&self) -> (text: String)
        ensures
            text@ == message_of(*self),
    {
        match self {
            Error::Http(cause) => String::from_str("error performing http request: ").concat(
                cause.as_str(),
            ),
            Error::InvalidCredentials => String::from_str("incorrect username and/or password"),
            Error::InvalidApiDomain => String::from_str("invalid API domain"),
            Error::NoSessionId => String::from_str("the server did not provide a session ID"),
            Error::NoIpForDevice(name) => String::from_str(
                "the server did not provide an IP address for `",
            ).concat(name.as_str()).concat("`"),
        }
    }
}

/// The code by which the service answers a login.
#[derive(Debug, Clone, Copy, PartialEq, Eq, Structural)]
pub enum ResponseCode {
    /// The account lives in another region.
    RegionRedirect,
    Success,
}

/// The number of [`ResponseCode::RegionRedirect`].
pub const CODE_REGION_REDIRECT: i32 = 1100;

/// The number of [`ResponseCode::Success`].
pub const CODE_SUCCESS: i32 = 200;

/// The HTTP status by which the service refuses the credentials.
pub const STATUS_BAD_CREDENTIALS: u16 = 400;

/// Reads a response code; a number that is none is handed back.
pub fn response_code(number: i32) -> (r: Result<ResponseCode, i32>)
    ensures
        r == if number == CODE_REGION_REDIRECT {
            Ok::<ResponseCode, i32>(ResponseCode::RegionRedirect)
        } else if number == CODE_SUCCESS {
            Ok::<ResponseCode, i32>(ResponseCode::Success)
        } else {
            Err::<ResponseCode, i32>(number)
        },
{
    if number == CODE_REGION_REDIRECT {
        Ok(ResponseCode::RegionRedirect)
    } else if number == CODE_SUCCESS {
        Ok(ResponseCode::Success)
    } else {
        Err(number)
    }
}

/// The region that a login answer names.
#[derive(Debug, Clone)]
pub struct LoginAreaResponse {
    pub api_domain: String,
}

/// The session that a login answer opens.
#[derive(Debug, Clone)]
pub struct SessionResponse {
    pub session_id: String,
}

/// The answer to a login.
#[derive(Debug, Clone)]
pub struct LoginResponse {
    pub code: ResponseCode,
    pub login_area: LoginAreaResponse,
    pub login_session: Option<SessionResponse>,
}

/// What identifies a client to the service; it is sent with every login.
pub open spec fn feature_code() -> Seq<char> {
    "92c579faa0902cbfcfcc4fc004ef67e7"@
}

/// The subdomain that the first login goes to.
pub open spec fn first_subdomain() -> Seq<char> {
    "apiieu"@
}

/// The hexadecimal text of the digest that `md5::compute` makes of the bytes.
pub uninterp spec fn md5_hex(data: Seq<u8>) -> Seq<char>;

/// A decimal digit or a letter from `a` to `f`.
pub open spec fn is_lower_hex(c: char) -> bool {
    ('0' <= c && c <= '9') || ('a' <= c && c <= 'f')
}

/// Calls `md5::compute` on the bytes of the text and writes the digest in
/// lower-case hexadecimal, as its `LowerHex` impl does: two characters for
/// each of its sixteen bytes.
#[verifier::external_body]
fn md5_hex_of(text: &str) -> (hex: String)
    ensures
        hex@ == md5_hex(text.spec_bytes()),
        hex@.len() == 32,
        forall|i: int| 0 <= i < hex@.len() ==> is_lower_hex(#[trigger] hex@[i]),
{
    format!("{:x}", md5::compute(text))
}

/// What a login sends.
#[derive(Debug, Clone)]
pub struct LoginPayload {
    pub account: String,
    /// The digest of the password, never the password.
    pub password: String,
    pub feature_code: String,
}

impl LoginPayload {
    /// The payload for an account and its password.
    pub fn new(account: &str, password: &str) -> (payload: LoginPayload)
        ensures
            payload.account@ == account@,
            payload.password@ == md5_hex(password.spec_bytes()),
            payload.password@.len() == 32,
            forall|i: int|
                0 <= i < payload.password@.len() ==> is_lower_hex(#[trigger] payload.password@[i]),
            payload.feature_code@ == feature_code(),
    {
        LoginPayload {
            account: String::from_str(account),
            password: md5_hex_of(password),
            feature_code: String::from_str("92c579faa0902cbfcfcc4fc004ef67e7"),
        }
    }
}

/// Where a subdomain's login is.
pub fn login_url(subdomain: &str) -> (url: String)
    ensures
        url@ == "https://"@ + subdomain@ + ".ezvizlife.com/v3/users/login"@,
{
    String::from_str("https://").concat(subdomain).concat(".ezvizlife.com/v3/users/login")
}

/// Where a subdomain's list of devices is.
pub fn devices_url(subdomain: &str) -> (url: String)
    ensures
        url@ == "https://"@ + subdomain@ + ".ezvizlife.com/v3/userdevices/v1/devices/pagelist"@,
{
    String::from_str("https://").concat(subdomain).concat(
        ".ezvizlife.com/v3/userdevices/v1/devices/pagelist",
    )
}

/// An open session: its identifier and the subdomain that serves it.
#[derive(Debug, Clone)]
pub struct Session {
    pub session_id: String,
    pub api_domain: String,
}

/// What follows the answer to the first login.
#[derive(Debug)]
pub enum LoginStep {
    /// Log in again, at this subdomain.
    Redirect { subdomain: String },
    Connected(Session),
    Failed(Error),
}

/// Reads the HTTP status of the first login: the service answers wrong
/// credentials with status 400.
pub fn check_status(status: u16) -> (r: Result<(), Error>)
    ensures
        r is Ok <==> status != STATUS_BAD_CREDENTIALS,
        r matches Err(e) ==> e == Error::InvalidCredentials,
{
    if status == STATUS_BAD_CREDENTIALS {
        Err(Error::InvalidCredentials)
    } else {
        Ok(())
    }
}

/// The bytes of the first label of a domain name: what stands before its
/// first full stop.
pub open spec fn first_label(domain: Seq<char>) -> Seq<u8> {
    encode_utf8(domain).subrange(0, index_of(encode_utf8(domain), 0x2e))
}

/// The subdomain of a domain name: its first label.
pub fn subdomain_of(domain: &str) -> (label: &str)
    ensures
        encode_utf8(label@) == first_label(domain@),
{
    let (label, _) = split_once(domain, 0x2e);
    label
}

/// The session of a login answer at a subdomain; without one the login has
/// failed.
pub fn session_of(login_session: Option<SessionResponse>, subdomain: String) -> (r: Result<
    Session,
    Error,
>)
    ensures
        match (login_session, r) {
            (Some(s), Ok(session)) => session.session_id == s.session_id && session.api_domain
                == subdomain,
            (None, Err(e)) => e == Error::NoSessionId,
            _ => false,
        },
{
    match login_session {
        Some(s) => Ok(Session { session_id: s.session_id, api_domain: subdomain }),
        None => Err(Error::NoSessionId),
    }
}

/// Decides what follows the answer to the first login: a redirect leads to a
/// second login at the subdomain of the region's domain; otherwise the answer
/// must hold the session.
pub fn after_first_login(response: LoginResponse) -> (step: LoginStep)
    ensures
        match response.code {
            ResponseCode::RegionRedirect => step matches LoginStep::Redirect { subdomain }
                && encode_utf8(subdomain@) == first_label(response.login_area.api_domain@),
            ResponseCode::Success => match response.login_session {
                Some(s) => step matches LoginStep::Connected(session) && session.session_id
                    == s.session_id && session.api_domain@ == first_subdomain(),
                None => step matches LoginStep::Failed(e) && e == Error::NoSessionId,
            },
        },
{
    match response.code {
        ResponseCode::RegionRedirect => {
            let label = subdomain_of(response.login_area.api_domain.as_str());
            LoginStep::Redirect { subdomain: String::from_str(label) }
        },
        ResponseCode::Success => {
            match session_of(response.login_session, String::from_str("apiieu")) {
                Ok(session) => LoginStep::Connected(session),
                Err(e) => LoginStep::Failed(e),
            }
        },
    }
}

/// Decides what follows the answer to the second login, made at the
/// subdomain that the first answer named: the answer must hold the session.
pub fn after_redirect(response: LoginResponse, subdomain: String) -> (r: Result<Session, Error>)
    ensures
        match (response.login_session, r) {
            (Some(s), Ok(session)) => session.session_id == s.session_id && session.api_domain
                == subdomain,
            (None, Err(e)) => e == Error::NoSessionId,
            _ => false,
        },
{
    session_of(response.login_session, subdomain)
}

/// A network address, as its bytes.
#[derive(Debug, Clone, Copy, PartialEq, Eq)]
pub enum Address {
    V4([u8; 4]),
    V6([u8; 16]),
}

/// A camera of the account, as the directory lists it.
#[derive(Debug, Clone)]
pub struct Camera {
    pub camera_name: String,
    pub device_serial: String,
}

/// How a device is reached, as the directory lists it.
#[derive(Debug, Clone)]
pub struct Connection {
    pub device_serial: String,
    pub local_ip: Address,
    pub net_ip: Address,
}

/// The directory's answer to a request for the devices. Each serial number has
/// at most one connection.
#[derive(Debug, Clone)]
pub struct DevicesResponse {
    pub camera_infos: Vec<Camera>,
    pub connection_infos: Vec<Connection>,
}

/// A camera and the address at which it is reached on the local network.
#[derive(Debug, Clone)]
pub struct Device {
    pub name: String,
    pub addr: Address,
}

/// The local address of the first connection with the serial number.
pub open spec fn local_address(connections: Seq<Connection>, serial: Seq<char>) -> Option<Address>
    decreases connections.len(),
{
    if connections.len() == 0 {
        None
    } else if connections[0].device_serial@ == serial {
        Some(connections[0].local_ip)
    } else {
        local_address(connections.drop_first(), serial)
    }
}

/// How many cameras, from the first on, have a connection.
pub open spec fn connected_prefix(cameras: Seq<Camera>, connections: Seq<Connection>) -> nat
    decreases cameras.len(),
{
    if cameras.len() == 0 {
        0
    } else if local_address(connections, cameras[0].device_serial@) is None {
        0
    } else {
        1 + connected_prefix(cameras.drop_first(), connections)
    }
}

/// `connected_prefix` is the index of the first camera without a connection,
/// or the number of cameras.
pub proof fn lemma_connected_prefix(cameras: Seq<Camera>, connections: Seq<Connection>)
    ensures
        connected_prefix(cameras, connections) <= cameras.len(),
        forall|i: int|
            0 <= i < connected_prefix(cameras, connections) ==> local_address(
                connections,
                (#[trigger] cameras[i]).device_serial@,
            ) is Some,
        connected_prefix(cameras, connections) < cameras.len() ==> local_address(
            connections,
            cameras[connected_prefix(cameras, connections) as int].device_serial@,
        ) is None,
    decreases cameras.len(),
{
    if cameras.len() > 0 && local_address(connections, cameras[0].device_serial@) is Some {
        let rest = cameras.drop_first();
        lemma_connected_prefix(rest, connections);
        assert forall|i: int| 0 <= i < connected_prefix(cameras, connections) implies local_address(
            connections,
            (#[trigger] cameras[i]).device_serial@,
        ) is Some by {
            if i > 0 {
                assert(cameras[i] == rest[i - 1]);
            }
        }
        let k = connected_prefix(rest, connections) as int;
        if k < rest.len() {
            assert(cameras[k + 1] == rest[k]);
        }
    }
}

/// The first `n` cameras have a connection each, and the next one, if there is
/// one and it is the camera at `n`, has none: then `n` is the connected prefix.
proof fn lemma_connected_prefix_is(cameras: Seq<Camera>, connections: Seq<Connection>, n: int)
    requires
        0 <= n <= cameras.len(),
        forall|i: int|
            0 <= i < n ==> local_address(connections, (#[trigger] cameras[i]).device_serial@) is Some,
        n < cameras.len() ==> local_address(connections, cameras[n].device_serial@) is None,
    ensures
        connected_prefix(cameras, connections) == n,
{
    lemma_connected_prefix(cameras, connections);
    let k = connected_prefix(cameras, connections) as int;
    if k < n {
        assert(local_address(connections, cameras[k].device_serial@) is Some);
    }
}

/// Looks up the local address of a device.
pub fn find_local_address(connections: &Vec<Connection>, serial: &String) -> (addr: Option<Address>)
    ensures
        addr == local_address(connections@, serial@),
{
    let mut i: usize = 0;
    assert(connections@.subrange(0, connections@.len() as int) =~= connections@);
    while i < connections.len()
        invariant
            i <= connections@.len(),
            local_address(connections@, serial@) == local_address(
                connections@.subrange(i as int, connections@.len() as int),
                serial@,
            ),
        decreases connections@.len() - i,
    {
        let ghost rest = connections@.subrange(i as int, connections@.len() as int);
        assert(rest[0] == connections@[i as int]);
        if connections[i].device_serial == *serial {
            return Some(connections[i].local_ip);
        }
        assert(rest.drop_first() =~= connections@.subrange(i + 1, connections@.len() as int));
        i = i + 1;
    }
    assert(connections@.subrange(i as int, connections@.len() as int) =~= Seq::<Connection>::empty());
    None
}

/// Matches the cameras of the account to their connections, in the order in
/// which the directory lists the cameras. Fails with the name of the first
/// camera that has no connection.
pub fn devices_from(response: &DevicesResponse) -> (r: Result<Vec<Device>, Error>)
    ensures
        ({
            let cameras = response.camera_infos@;
            let connections = response.connection_infos@;
            let n = connected_prefix(cameras, connections);
            match r {
                Ok(devices) => {
                    &&& n == cameras.len()
                    &&& devices@.len() == cameras.len()
                    &&& forall|i: int|
                        0 <= i < devices@.len() ==> (#[trigger] devices@[i]).name@
                            == cameras[i].camera_name@ && Some(devices@[i].addr) == local_address(
                            connections,
                            cameras[i].device_serial@,
                        )
                },
                Err(e) => {
                    &&& n < cameras.len()
                    &&& e matches Error::NoIpForDevice(name)
                    &&& name@ == cameras[n as int].camera_name@
                },
            }
        }),
{
    let cameras = &response.camera_infos;
    let mut devices: Vec<Device> = Vec::new();
    let mut i: usize = 0;
    while i < cameras.len()
        invariant
            i <= cameras@.len(),
            cameras@ == response.camera_infos@,
            devices@.len() == i,
            forall|k: int|
                0 <= k < i ==> local_address(
                    response.connection_infos@,
                    (#[trigger] cameras@[k]).device_serial@,
                ) is Some,
            forall|k: int|
                0 <= k < i ==> (#[trigger] devices@[k]).name@ == cameras@[k].camera_name@ && Some(
                    devices@[k].addr,
                ) == local_address(response.connection_infos@, cameras@[k].device_serial@),
        decreases cameras@.len() - i,
    {
        let camera = &cameras[i];
        match find_local_address(&response.connection_infos, &camera.device_serial) {
            Some(addr) => {
                devices.push(Device { name: camera.camera_name.clone(), addr });
            },
            None => {
                proof {
                    lemma_connected_prefix_is(cameras@, response.connection_infos@, i as int);
                }
                return Err(Error::NoIpForDevice(camera.camera_name.clone()));
            },
        }
        i = i + 1;
    }
    proof {
        lemma_connected_prefix_is(cameras@, response.connection_infos@, i as int);
    }
    Ok(devices)
}

} // verus!
