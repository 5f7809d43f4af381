use dns_ligase::cache::{url_to_filename, CachedList, CachedLists};
use dns_ligase::fetch::{
    host_port_of, pin_host, url_host_port, Fetch, FetchAction, FetchError, FetchEvent, Fetched, HostPort, ListBody,
    Unpinned,
};

const URL: &str = "https://example.com/list.txt";

struct World {
    copy: Option<&'static str>,
    responses: Vec<Option<(u16, Option<&'static str>)>>,
    text: Option<&'static str>,
    writable: bool,
}

/// Drives a fetch to its end; gives what it ended with and the tags it asked with.
fn drive(
    cached: Option<CachedList>,
    world: World,
) -> (Result<(String, Option<CachedList>), FetchError>, Vec<Option<String>>) {
    let (mut fetch, mut action) = Fetch::begin(URL.to_string(), cached, 10, 100);
    let mut asked = Vec::new();
    loop {
        let event = match action {
            FetchAction::ReadBody { filename } => {
                assert_eq!(filename, "old");
                FetchEvent::BodyRead(world.copy.map(|s| s.to_string()))
            }
            FetchAction::Get { etag } => {
                let response = world.responses[asked.len()];
                asked.push(etag);
                match response {
                    None => FetchEvent::SendFailed,
                    Some((status, etag)) => FetchEvent::Response { status, etag: etag.map(|s| s.to_string()) },
                }
            }
            FetchAction::ReadText => FetchEvent::TextRead(world.text.map(|s| s.to_string())),
            FetchAction::WriteBody { filename, body } => {
                assert_eq!(filename, url_to_filename(URL));
                assert_eq!(Some(body.as_str()), world.text);
                FetchEvent::Written { ok: world.writable, now: 101 }
            }
            FetchAction::Finish { body, record } => return (Ok((body, record)), asked),
            FetchAction::Fail(e) => return (Err(e), asked),
        };
        (fetch, action) = fetch.step(event);
    }
}

fn known(fetched_at: u64) -> Option<CachedList> {
    Some(CachedList { fetched_at, etag: Some("tag".to_string()), filename: "old".to_string() })
}

fn new_entry(etag: Option<&str>) -> Option<CachedList> {
    Some(CachedList { fetched_at: 101, etag: etag.map(|s| s.to_string()), filename: url_to_filename(URL) })
}

fn tag() -> Option<String> {
    Some("tag".to_string())
}

#[test]
fn a_fresh_copy_is_used_without_asking() {
    let world = World { copy: Some("copy"), responses: vec![], text: None, writable: true };
    assert_eq!(drive(known(95), world), (Ok(("copy".to_string(), None)), vec![]));
}

#[test]
fn a_fresh_copy_that_is_gone_is_fetched() {
    let world = World { copy: None, responses: vec![Some((200, Some("new")))], text: Some("body"), writable: true };
    assert_eq!(drive(known(95), world), (Ok(("body".to_string(), new_entry(Some("new")))), vec![tag()]));
}

#[test]
fn a_new_list_is_fetched_and_recorded() {
    let world = World { copy: None, responses: vec![Some((200, None))], text: Some("body"), writable: true };
    assert_eq!(drive(None, world), (Ok(("body".to_string(), new_entry(None))), vec![None]));
}

#[test]
fn an_unmodified_list_is_read_from_its_copy() {
    let world = World { copy: Some("copy"), responses: vec![Some((304, None))], text: None, writable: true };
    assert_eq!(drive(known(1), world), (Ok(("copy".to_string(), None)), vec![tag()]));
}

#[test]
fn an_unmodified_list_without_its_copy_is_fetched_whatever_the_status() {
    let world = World {
        copy: None,
        responses: vec![Some((304, None)), Some((500, Some("t")))],
        text: Some("page"),
        writable: true,
    };
    assert_eq!(drive(known(1), world), (Ok(("page".to_string(), new_entry(Some("t")))), vec![tag(), None]));
    let world = World { copy: None, responses: vec![Some((304, None)), None], text: None, writable: true };
    assert_eq!(drive(known(1), world), (Err(FetchError::Send), vec![tag(), None]));
    let world = World { copy: None, responses: vec![Some((304, None)), None], text: None, writable: true };
    assert_eq!(drive(None, world), (Err(FetchError::Send), vec![None, None]));
}

#[test]
fn the_last_good_copy_is_used_on_failure() {
    for response in [None, Some((404, None)), Some((503, Some("x"))), Some((204, None))] {
        let world = World { copy: Some("copy"), responses: vec![response], text: None, writable: true };
        assert_eq!(drive(known(1), world), (Ok(("copy".to_string(), None)), vec![tag()]));
    }
}

#[test]
fn failures_without_a_copy_are_told() {
    let world = World { copy: None, responses: vec![None], text: None, writable: true };
    assert_eq!(drive(None, world).0, Err(FetchError::Send));
    let world = World { copy: None, responses: vec![Some((404, None))], text: None, writable: true };
    assert_eq!(drive(known(1), world).0, Err(FetchError::Http(404)));
    let world = World { copy: Some("copy"), responses: vec![Some((200, None))], text: None, writable: true };
    assert_eq!(drive(known(1), world).0, Err(FetchError::Text));
    let world = World { copy: Some("copy"), responses: vec![Some((200, None))], text: Some("b"), writable: false };
    assert_eq!(drive(known(1), world).0, Err(FetchError::Write));
}

#[test]
fn fetches_are_planned_and_merged() {
    let mut cache = CachedLists::new();
    cache.record("u".to_string(), known(95).unwrap());
    assert!(cache.start_save());
    let planned = cache.plan_fetches(&["u".to_string(), "v".to_string()], 10, 100);
    assert_eq!(planned.len(), 2);
    assert_eq!(planned[0].fetch.url, "u");
    assert!(matches!(planned[0].action, FetchAction::ReadBody { .. }));
    assert!(matches!(planned[1].action, FetchAction::Get { etag: None }));

    let fetched = vec![
        Fetched { url: "u".to_string(), body: "x".to_string(), record: None },
        Fetched { url: "v".to_string(), body: "y".to_string(), record: new_entry(None) },
    ];
    let bodies = cache.merge_downloads(fetched);
    let list = |url: &str, body: &str| ListBody { url: url.to_string(), body: body.to_string() };
    assert_eq!(bodies, vec![list("u", "x"), list("v", "y")]);
    assert_eq!(cache.map.get("u"), known(95).as_ref());
    assert_eq!(cache.map.get("v"), new_entry(None).as_ref());
    assert!(cache.start_save());
    assert!(cache.merge_downloads(vec![]).is_empty());
    assert!(!cache.start_save());
}

#[test]
fn addresses_lead_to_hosts_and_ports() {
    let at = |host: &str, port: u16| Ok(HostPort { host: host.to_string(), port });
    assert_eq!(url_host_port("https://Example.com/list.txt"), at("example.com", 443));
    assert_eq!(url_host_port("http://example.com/"), at("example.com", 80));
    assert_eq!(url_host_port("http://example.com:8080/x"), at("example.com", 8080));
    assert_eq!(url_host_port("git://example.com/x"), at("example.com", 443));
    assert_eq!(url_host_port("not a url"), Err(Unpinned::BadUrl));
    assert_eq!(url_host_port("mailto:a@b"), Err(Unpinned::NoHost));
    assert_eq!(host_port_of(Some("h".to_string()), None), at("h", 443));
    assert_eq!(host_port_of(None, Some(1)), Err(Unpinned::NoHost));
}

#[test]
fn hosts_are_pinned_to_what_upstream_gave() {
    assert_eq!(pin_host(false, Some(vec![[1, 2, 3, 4]])), Ok(vec![[1, 2, 3, 4]]));
    assert_eq!(pin_host(true, Some(vec![[1, 2, 3, 4]])), Err(Unpinned::IpLiteral));
    assert_eq!(pin_host(false, Some(vec![])), Err(Unpinned::NoAddresses));
    assert_eq!(pin_host(false, None), Err(Unpinned::NotResolved));
}
