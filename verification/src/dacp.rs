//! DACP (Digital Audio Control Protocol): commands back to the device that is the source of the
//! audio.
//!
//! The device offers a `_dacp._tcp` service. Commands are HTTP requests to it; the session's
//! headers say which service it is and what to authenticate with.
use crate::error::NetworkError;
use crate::net::{IpAddress, SocketAddress};
use crate::text::{
    chars_of, contains, decimal, has_part, has_prefix, law_contains, law_starts_with, push_decimal,
    push_text, starts_with, utf8_text,
};
use vstd::prelude::*;
use vstd::utf8::{decode_utf8, valid_utf8};

verus! {

/// The port to use where the service was not found.
pub const DACP_DEFAULT_PORT: u16 = 3689;

/// The path that starts or pauses playing.
pub const PLAY_PAUSE_PATH: &'static str = "/ctrl-int/1/playpause";

/// The path that goes to the next track.
pub const NEXT_PATH: &'static str = "/ctrl-int/1/nextitem";

/// The path that goes to the previous track.
pub const PREVIOUS_PATH: &'static str = "/ctrl-int/1/previtem";

/// The path that stops playing.
pub const STOP_PATH: &'static str = "/ctrl-int/1/stop";

/// `a`, or `most` where it is greater.
pub open spec fn at_most(a: u8, most: u8) -> u8 {
    if a < most {
        a
    } else {
        most
    }
}

fn path_with_number(base: &str, n: u8) -> (r: String)
    ensures
        r@ == base@ + decimal(n as nat),
{
    let mut path = base.to_owned();
    push_decimal(&mut path, n as u64);
    path
}

/// The path that sets the volume, 100 at most.
pub fn volume_path(volume: u8) -> (r: String)
    ensures
        r@ == "/ctrl-int/1/setproperty?dmcp.volume="@ + decimal(at_most(volume, 100) as nat),
{
    path_with_number(
        "/ctrl-int/1/setproperty?dmcp.volume=",
        if volume < 100 {
            volume
        } else {
            100
        },
    )
}

/// The path that turns shuffling on or off.
pub fn shuffle_path(on: bool) -> (r: String)
    ensures
        r@ == "/ctrl-int/1/setproperty?dacp.shufflestate="@ + decimal(
            if on {
                1
            } else {
                0
            },
        ),
{
    path_with_number(
        "/ctrl-int/1/setproperty?dacp.shufflestate=",
        if on {
            1
        } else {
            0
        },
    )
}

/// The path that sets what is repeated, 2 at most.
pub fn repeat_path(state: u8) -> (r: String)
    ensures
        r@ == "/ctrl-int/1/setproperty?dacp.repeatstate="@ + decimal(at_most(state, 2) as nat),
{
    path_with_number(
        "/ctrl-int/1/setproperty?dacp.repeatstate=",
        if state < 2 {
            state
        } else {
            2
        },
    )
}

/// `s` with its letters in upper case.
pub uninterp spec fn uppercase(s: Seq<char>) -> Seq<char>;

/// Calls `str::to_uppercase`: the result depends on the text alone.
#[verifier::external_body]
fn upper(s: &str) -> (r: String)
    ensures
        r@ == uppercase(s@),
{
    s.to_uppercase()
}

/// Whether `part` stands somewhere in `text`.
pub fn text_contains(text: &str, part: &str) -> (r: bool)
    ensures
        r == contains(text@, part@),
{
    let t = chars_of(text);
    let p = chars_of(part);
    has_part(t.as_slice(), p.as_slice())
}

/// The port of a service that was found, where it is the one of this identifier: the identifier
/// stands in its name, in upper or lower case.
pub fn service_port(fullname: &str, port: u16, dacp_id: &str) -> (r: Option<u16>)
    ensures
        r == (if contains(uppercase(fullname@), uppercase(dacp_id@)) {
            Some(port)
        } else {
            None
        }),
{
    let name = upper(fullname);
    let id = upper(dacp_id);
    if text_contains(name.as_str(), id.as_str()) {
        Some(port)
    } else {
        None
    }
}

/// The client of a device's service.
#[derive(Debug)]
pub struct DacpClient {
    /// The identifier of the service.
    pub dacp_id: String,
    /// What commands are authenticated with.
    pub active_remote: String,
    /// Where the service is, once that is known.
    pub addr: Option<SocketAddress>,
}

/// A request to the service.
pub open spec fn request_text(path: Seq<char>, active_remote: Seq<char>, host: Seq<char>) -> Seq<
    char,
> {
    "GET "@ + path + " HTTP/1.1\r\nActive-Remote: "@ + active_remote + "\r\nHost: "@ + host
        + "\r\nConnection: close\r\n\r\n"@
}

/// A response that says that a command was carried out: its status is 2xx.
pub open spec fn accepted(response: Seq<u8>) -> bool {
    valid_utf8(response) && (starts_with(decode_utf8(response), "HTTP/1.1 2"@) || starts_with(
        decode_utf8(response),
        "HTTP/1.0 2"@,
    ))
}

impl DacpClient {
    /// A client that does not know yet where the service is.
    pub fn new(dacp_id: &str, active_remote: &str) -> (r: Self)
        ensures
            r.dacp_id@ == dacp_id@,
            r.active_remote@ == active_remote@,
            r.addr is None,
    {
        DacpClient {
            dacp_id: dacp_id.to_owned(),
            active_remote: active_remote.to_owned(),
            addr: None,
        }
    }

    /// Sets where the service is: at the remote address, on the port that was discovered or on the
    /// usual one.
    pub fn discover_from_remote(&mut self, remote_ip: IpAddress, discovered: Option<u16>)
        ensures
            final(self).dacp_id == old(self).dacp_id,
            final(self).active_remote == old(self).active_remote,
            final(self).addr == Some(
                SocketAddress {
                    ip: remote_ip,
                    port: match discovered {
                        Some(port) => port,
                        None => DACP_DEFAULT_PORT,
                    },
                },
            ),
    {
        let port: u16 = match discovered {
            Some(port) => port,
            None => DACP_DEFAULT_PORT,
        };
        self.addr = Some(SocketAddress { ip: remote_ip, port });
    }

    /// Where to send a command.
    pub fn target(&self) -> (r: Result<SocketAddress, NetworkError>)
        ensures
            match self.addr {
                Some(addr) => r matches Ok(target) && target == addr,
                None => r matches Err(e) && e.text()
                    == "DACP not discovered yet — call discover_from_remote() first"@,
            },
    {
        match self.addr {
            Some(addr) => Ok(addr),
            None => Err(
                NetworkError::mdns(
                    "DACP not discovered yet — call discover_from_remote() first",
                ),
            ),
        }
    }

    /// The request for a path on a host.
    pub fn command_request(&self, path: &str, host: &str) -> (r: String)
        ensures
            r@ == request_text(path@, self.active_remote@, host@),
    {
        let mut r = "GET ".to_owned();
        push_text(&mut r, path);
        push_text(&mut r, " HTTP/1.1\r\nActive-Remote: ");
        push_text(&mut r, self.active_remote.as_str());
        push_text(&mut r, "\r\nHost: ");
        push_text(&mut r, host);
        push_text(&mut r, "\r\nConnection: close\r\n\r\n");
        r
    }

    /// What the first bytes of the response say of the command.
    pub fn check_response(response: &[u8]) -> (r: Result<(), NetworkError>)
        ensures
            match r {
                Ok(_) => response@.len() > 0 && accepted(response@),
                Err(e) => if response@.len() == 0 {
                    e.text() == "DACP command returned empty response"@
                } else {
                    !accepted(response@) && e.text() == "DACP command failed"@
                },
            },
    {
        if response.len() == 0 {
            return Err(NetworkError::mdns("DACP command returned empty response"));
        }
        if let Some(text) = utf8_text(response) {
            let status = chars_of(text);
            let current = chars_of("HTTP/1.1 2");
            let older = chars_of("HTTP/1.0 2");
            if has_prefix(status.as_slice(), current.as_slice()) || has_prefix(
                status.as_slice(),
                older.as_slice(),
            ) {
                return Ok(());
            }
        }
        Err(NetworkError::mdns("DACP command failed"))
    }
}

/// The smaller of two numbers.
pub proof fn law_at_most(a: u8, most: u8)
    ensures
        at_most(a, most) <= a,
        at_most(a, most) <= most,
        at_most(a, most) == a || at_most(a, most) == most,
{
}

/// A request is a request line with the path and three headers, each on its own line: what it is
/// authenticated with, the host, and that the connection is closed. An empty line ends it.
pub proof fn law_request_lines(path: Seq<char>, active_remote: Seq<char>, host: Seq<char>)
    ensures
        request_text(path, active_remote, host) == ("GET "@ + path + " HTTP/1.1\r\n"@) + (
        "Active-Remote: "@ + active_remote + "\r\n"@) + ("Host: "@ + host + "\r\n"@)
            + "Connection: close\r\n"@ + "\r\n"@,
{
    reveal_strlit("GET ");
    reveal_strlit(" HTTP/1.1\r\n");
    reveal_strlit(" HTTP/1.1\r\nActive-Remote: ");
    reveal_strlit("Active-Remote: ");
    reveal_strlit("\r\n");
    reveal_strlit("\r\nHost: ");
    reveal_strlit("Host: ");
    reveal_strlit("\r\nConnection: close\r\n\r\n");
    reveal_strlit("Connection: close\r\n");
    assert(" HTTP/1.1\r\nActive-Remote: "@ =~= " HTTP/1.1\r\n"@ + "Active-Remote: "@);
    assert("\r\nHost: "@ =~= "\r\n"@ + "Host: "@);
    assert("\r\nConnection: close\r\n\r\n"@ =~= "\r\n"@ + "Connection: close\r\n"@ + "\r\n"@);
    assert(request_text(path, active_remote, host) =~= ("GET "@ + path + " HTTP/1.1\r\n"@) + (
    "Active-Remote: "@ + active_remote + "\r\n"@) + ("Host: "@ + host + "\r\n"@)
        + "Connection: close\r\n"@ + "\r\n"@);
}

/// A response is accepted by its first ten characters alone: the version, 1.0 or 1.1, and the first
/// digit of its status, which is two.
pub proof fn law_accepted_by_status(response: Seq<u8>)
    ensures
        accepted(response) <==> valid_utf8(response) && ({
            let text = decode_utf8(response);
            &&& text.len() >= 10
            &&& text[0] == 'H' && text[1] == 'T' && text[2] == 'T' && text[3] == 'P'
            &&& text[4] == '/' && text[5] == '1' && text[6] == '.'
            &&& text[7] == '0' || text[7] == '1'
            &&& text[8] == ' '
            &&& text[9] == '2'
        }),
{
    reveal_strlit("HTTP/1.1 2");
    reveal_strlit("HTTP/1.0 2");
    let text = decode_utf8(response);
    law_starts_with("HTTP/1.1 2"@, Seq::empty(), text);
    law_starts_with("HTTP/1.0 2"@, Seq::empty(), text);
    if text.len() >= 10 {
        assert(starts_with(text, "HTTP/1.1 2"@) <==> text.take(10) =~= "HTTP/1.1 2"@);
        assert(starts_with(text, "HTTP/1.0 2"@) <==> text.take(10) =~= "HTTP/1.0 2"@);
        let head = text.take(10);
        assert(head[0] == text[0] && head[1] == text[1] && head[2] == text[2]);
        assert(head[3] == text[3] && head[4] == text[4] && head[5] == text[5]);
        assert(head[6] == text[6] && head[7] == text[7] && head[8] == text[8]);
        assert(head[9] == text[9]);
    }
}

/// The service is on port 3689 where discovery did not find it.
pub proof fn law_default_port()
    ensures
        DACP_DEFAULT_PORT == 3689,
{
}

/// The volume stands at the end of its path as a number, 100 at most; shuffling as zero or one;
/// what is repeated as a number, 2 at most.
pub proof fn law_property_paths(
    volume: u8,
    on: bool,
    state: u8,
    volume_text: String,
    shuffle_text: String,
    repeat_text: String,
)
    requires
        call_ensures(volume_path, (volume,), volume_text),
        call_ensures(shuffle_path, (on,), shuffle_text),
        call_ensures(repeat_path, (state,), repeat_text),
    ensures
        volume <= 100 ==> volume_text@ == "/ctrl-int/1/setproperty?dmcp.volume="@ + decimal(
            volume as nat,
        ),
        volume > 100 ==> volume_text@ == "/ctrl-int/1/setproperty?dmcp.volume="@ + decimal(100),
        on ==> shuffle_text@ == "/ctrl-int/1/setproperty?dacp.shufflestate="@ + decimal(1),
        !on ==> shuffle_text@ == "/ctrl-int/1/setproperty?dacp.shufflestate="@ + decimal(0),
        state <= 2 ==> repeat_text@ == "/ctrl-int/1/setproperty?dacp.repeatstate="@ + decimal(
            state as nat,
        ),
        state > 2 ==> repeat_text@ == "/ctrl-int/1/setproperty?dacp.repeatstate="@ + decimal(2),
{
    law_at_most(volume, 100);
    law_at_most(state, 2);
}

/// A service is the one that is looked for where the identifier stands anywhere in its name,
/// whatever the case of the letters, and then its port counts.
pub proof fn law_service_port(fullname: &str, port: u16, dacp_id: &str, r: Option<u16>)
    requires
        call_ensures(service_port, (fullname, port, dacp_id), r),
    ensures
        r is None || r == Some(port),
        r is Some <==> exists|i: int|
            #![trigger uppercase(fullname@).subrange(i, i + uppercase(dacp_id@).len())]
            0 <= i && i + uppercase(dacp_id@).len() <= uppercase(fullname@).len() && uppercase(
                fullname@,
            ).subrange(i, i + uppercase(dacp_id@).len()) == uppercase(dacp_id@),
{
    law_contains(
        Seq::empty(),
        uppercase(dacp_id@),
        Seq::empty(),
        uppercase(fullname@),
    );
}

/// A client sends to the address that discovery gave it, on the port that was found or on the usual
/// one, and to none before.
pub proof fn law_client_target(
    dacp_id: &str,
    active_remote: &str,
    fresh: DacpClient,
    client: &mut DacpClient,
    ip: IpAddress,
    discovered: Option<u16>,
    early: Result<SocketAddress, NetworkError>,
    found: DacpClient,
    late: Result<SocketAddress, NetworkError>,
)
    requires
        call_ensures(DacpClient::new, (dacp_id, active_remote), fresh),
        call_ensures(DacpClient::target, (&fresh,), early),
        *old(client) == fresh,
        call_ensures(DacpClient::discover_from_remote, (client, ip, discovered), ()),
        found == *final(client),
        call_ensures(DacpClient::target, (&found,), late),
    ensures
        fresh.dacp_id@ == dacp_id@,
        fresh.active_remote@ == active_remote@,
        early is Err,
        late matches Ok(target) && target.ip == ip && (discovered matches Some(port) ==> target.port
            == port) && (discovered is None ==> target.port == 3689),
        final(client).active_remote == fresh.active_remote,
        final(client).dacp_id == fresh.dacp_id,
{
}

/// A response without bytes is an error, and any other is judged by its status.
pub proof fn law_responses(response: &[u8], r: Result<(), NetworkError>)
    requires
        call_ensures(DacpClient::check_response, (response,), r),
    ensures
        response@.len() == 0 ==> (r matches Err(e) && e.text()
            == "DACP command returned empty response"@),
        response@.len() > 0 ==> (r is Ok <==> accepted(response@)),
        response@.len() > 0 && !accepted(response@) ==> (r matches Err(e) && e.text()
            == "DACP command failed"@),
{
}

} // verus!
