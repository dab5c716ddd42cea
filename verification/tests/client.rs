use regex::Regex;
use yip::default_endpoint;
use yip::Endpoint;
use yip::Fetcher;
use yip::IpError;
use yip::IP;

struct Canned {
    text: String,
}

impl Fetcher for Canned {
    fn fetch(&mut self, _ep: &Endpoint) -> Result<String, IpError> {
        Ok(self.text.clone())
    }
}

struct Refusing;

impl Fetcher for Refusing {
    fn fetch(&mut self, _ep: &Endpoint) -> Result<String, IpError> {
        Err(IpError::ConnectionError)
    }
}

struct Broken;

impl Fetcher for Broken {
    fn fetch(&mut self, _ep: &Endpoint) -> Result<String, IpError> {
        Err(IpError::IOError)
    }
}

#[test]
fn test_match_some_ip() {
    let mut f = Canned {
        text: String::from(
            "HTTP/1.0 200 OK\r\nContent-Type: application/json\r\n\r\n{\n  \"origin\": \"203.0.113.7\"\n}\n",
        ),
    };
    let ip = IP::is(&mut f).unwrap();
    let re = Regex::new(r"\d{1,3}\.\d{1,3}\.\d{1,3}\.\d{1,3}").unwrap();

    assert_eq!(re.is_match(ip.as_str()), true);
}

#[test]
fn ip_is_extracts_from_fetched_text() {
    let mut f = Canned {
        text: String::from(
            "HTTP/1.0 200 OK\r\nContent-Type: application/json\r\n\r\n{\n  \"origin\": \"93.184.216.34\"\n}\n",
        ),
    };
    let ip = IP::is(&mut f).unwrap();
    assert_eq!(ip.as_str(), "93.184.216.34");
}

#[test]
fn with_endpoint_extracts_from_fetched_text() {
    let ep = Endpoint {
        host: String::from("localhost"),
        path: None,
        port: 8111,
    };
    let mut f = Canned {
        text: String::from("Your IP Address is 12.34.56.78"),
    };
    let ip = IP::with_endpoint(&mut f, ep).unwrap();
    assert_eq!(ip.as_str(), "12.34.56.78");
}

#[test]
fn ip_is_propagates_connection_error() {
    assert_eq!(IP::is(&mut Refusing).unwrap_err(), IpError::ConnectionError);
}

#[test]
fn ip_is_propagates_io_error() {
    assert_eq!(IP::is(&mut Broken).unwrap_err(), IpError::IOError);
}

#[test]
fn ip_is_reports_unparsable_text() {
    let mut f = Canned {
        text: String::from("no address here"),
    };
    assert_eq!(IP::is(&mut f).unwrap_err(), IpError::ParseError);
}

#[test]
fn default_endpoint_is_httpbin() {
    let ep = default_endpoint();
    assert_eq!(ep.host.as_str(), "httpbin.org");
    assert_eq!(ep.path.as_ref().unwrap().as_str(), "/ip");
    assert_eq!(ep.port, 80);
}
