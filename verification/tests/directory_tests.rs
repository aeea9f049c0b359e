use ezviz::directory::after_first_login;
use ezviz::directory::after_redirect;
use ezviz::directory::check_status;
use ezviz::directory::devices_from;
use ezviz::directory::devices_url;
use ezviz::directory::find_local_address;
use ezviz::directory::login_url;
use ezviz::directory::response_code;
use ezviz::directory::session_of;
use ezviz::directory::subdomain_of;
use ezviz::directory::Address;
use ezviz::directory::Camera;
use ezviz::directory::Connection;
use ezviz::directory::DevicesResponse;
use ezviz::directory::Error;
use ezviz::directory::LoginAreaResponse;
use ezviz::directory::LoginPayload;
use ezviz::directory::LoginResponse;
use ezviz::directory::LoginStep;
use ezviz::directory::ResponseCode;
use ezviz::directory::SessionResponse;

fn answer(code: ResponseCode, domain: &str, session: Option<&str>) -> LoginResponse {
    LoginResponse {
        code,
        login_area: LoginAreaResponse { api_domain: domain.to_string() },
        login_session: session.map(|s| SessionResponse { session_id: s.to_string() }),
    }
}

fn camera(name: &str, serial: &str) -> Camera {
    Camera { camera_name: name.to_string(), device_serial: serial.to_string() }
}

fn connection(serial: &str, last: u8) -> Connection {
    Connection {
        device_serial: serial.to_string(),
        local_ip: Address::V4([192, 168, 1, last]),
        net_ip: Address::V4([84, 1, 2, last]),
    }
}

#[test]
fn response_codes() {
    assert_eq!(response_code(1100), Ok(ResponseCode::RegionRedirect));
    assert_eq!(response_code(200), Ok(ResponseCode::Success));
    assert_eq!(response_code(0), Err(0));
    assert_eq!(response_code(1101), Err(1101));
    assert_eq!(response_code(-200), Err(-200));
}

#[test]
fn payload_holds_the_digest_of_the_password() {
    let payload = LoginPayload::new("user@example.com", "abc");
    assert_eq!(payload.account, "user@example.com");
    assert_eq!(payload.password, "900150983cd24fb0d6963f7d28e17f72");
    assert_eq!(payload.feature_code, "92c579faa0902cbfcfcc4fc004ef67e7");
    assert_eq!(LoginPayload::new("", "").password, "d41d8cd98f00b204e9800998ecf8427e");
    let digest = LoginPayload::new("", "\u{e9}t\u{e9}").password;
    assert_eq!(digest.len(), 32);
    assert!(digest.chars().all(|c| c.is_ascii_digit() || ('a'..='f').contains(&c)));
    assert_eq!(
        LoginPayload::new("", "abcdefghijklmnopqrstuvwxyz").password,
        "c3fcd3d76192e4007dfb496cca67e13b"
    );
}

#[test]
fn urls() {
    assert_eq!(login_url("apiieu"), "https://apiieu.ezvizlife.com/v3/users/login");
    assert_eq!(
        devices_url("apiius"),
        "https://apiius.ezvizlife.com/v3/userdevices/v1/devices/pagelist"
    );
}

#[test]
fn status_400_means_wrong_credentials() {
    assert!(matches!(check_status(400), Err(Error::InvalidCredentials)));
    assert!(check_status(200).is_ok());
    assert!(check_status(401).is_ok());
    assert!(check_status(500).is_ok());
}

#[test]
fn subdomain_is_the_first_label() {
    assert_eq!(subdomain_of("apiius.ezvizlife.com"), "apiius");
    assert_eq!(subdomain_of("localhost"), "localhost");
    assert_eq!(subdomain_of(".com"), "");
    assert_eq!(subdomain_of(""), "");
}

#[test]
fn success_with_a_session_connects_at_the_first_subdomain() {
    match after_first_login(answer(ResponseCode::Success, "ignored.example", Some("s-1"))) {
        LoginStep::Connected(session) => {
            assert_eq!(session.session_id, "s-1");
            assert_eq!(session.api_domain, "apiieu");
        }
        other => panic!("{:?}", other),
    }
}

#[test]
fn success_without_a_session_fails() {
    assert!(matches!(
        after_first_login(answer(ResponseCode::Success, "x.example", None)),
        LoginStep::Failed(Error::NoSessionId)
    ));
}

#[test]
fn redirect_leads_to_the_subdomain_of_the_region() {
    match after_first_login(answer(ResponseCode::RegionRedirect, "apiius.ezvizlife.com", Some("s"))) {
        LoginStep::Redirect { subdomain } => assert_eq!(subdomain, "apiius"),
        other => panic!("{:?}", other),
    }
}

#[test]
fn second_answer_must_hold_the_session() {
    let ok = after_redirect(
        answer(ResponseCode::RegionRedirect, "other.example", Some("s-2")),
        "apiius".to_string(),
    )
    .unwrap();
    assert_eq!(ok.session_id, "s-2");
    assert_eq!(ok.api_domain, "apiius");
    assert!(matches!(
        after_redirect(answer(ResponseCode::Success, "x", None), "apiius".to_string()),
        Err(Error::NoSessionId)
    ));
    assert!(matches!(session_of(None, "a".to_string()), Err(Error::NoSessionId)));
}

#[test]
fn devices_are_matched_in_the_order_of_the_cameras() {
    let response = DevicesResponse {
        camera_infos: vec![camera("Garden", "C2"), camera("Door", "C1")],
        connection_infos: vec![connection("C1", 11), connection("C3", 13), connection("C2", 12)],
    };
    let devices = devices_from(&response).unwrap();
    assert_eq!(devices.len(), 2);
    assert_eq!(devices[0].name, "Garden");
    assert_eq!(devices[0].addr, Address::V4([192, 168, 1, 12]));
    assert_eq!(devices[1].name, "Door");
    assert_eq!(devices[1].addr, Address::V4([192, 168, 1, 11]));
}

#[test]
fn first_camera_without_a_connection_is_named() {
    let response = DevicesResponse {
        camera_infos: vec![camera("Door", "C1"), camera("Garden", "C2"), camera("Attic", "C9")],
        connection_infos: vec![connection("C1", 11)],
    };
    match devices_from(&response) {
        Err(Error::NoIpForDevice(name)) => assert_eq!(name, "Garden"),
        other => panic!("{:?}", other),
    }
}

#[test]
fn no_cameras_no_devices() {
    let response = DevicesResponse { camera_infos: vec![], connection_infos: vec![connection("C1", 1)] };
    assert!(devices_from(&response).unwrap().is_empty());
}

#[test]
fn local_address_lookup() {
    let connections = vec![connection("C1", 11), connection("C2", 12)];
    assert_eq!(
        find_local_address(&connections, &"C2".to_string()),
        Some(Address::V4([192, 168, 1, 12]))
    );
    assert_eq!(find_local_address(&connections, &"C3".to_string()), None);
    assert_eq!(find_local_address(&vec![], &"C1".to_string()), None);
}

#[test]
fn error_messages() {
    assert_eq!(
        Error::Http("timed out".to_string()).message(),
        "error performing http request: timed out"
    );
    assert_eq!(Error::InvalidCredentials.message(), "incorrect username and/or password");
    assert_eq!(Error::InvalidApiDomain.message(), "invalid API domain");
    assert_eq!(Error::NoSessionId.message(), "the server did not provide a session ID");
    assert_eq!(
        Error::NoIpForDevice("Door".to_string()).message(),
        "the server did not provide an IP address for `Door`"
    );
}
