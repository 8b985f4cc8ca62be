//! Remote control of the device that is the source of the audio.
use crate::dacp::{
    at_most, law_at_most, repeat_path, shuffle_path, volume_path, DacpClient, DACP_DEFAULT_PORT,
    NEXT_PATH, PLAY_PAUSE_PATH, PREVIOUS_PATH, STOP_PATH,
};
use crate::error::NetworkError;
use crate::net::{IpAddress, SocketAddress};
use crate::text::{decimal, law_decimal_reads_back, spelled};
use vstd::prelude::*;

verus! {

/// A command to the source device.
#[derive(Clone, Copy, Debug, PartialEq, Eq, Structural)]
pub enum RemoteCommand {
    /// Start to play.
    Play,
    /// Pause.
    Pause,
    /// Go to the next track.
    NextTrack,
    /// Go to the previous track.
    PreviousTrack,
    /// Set the volume, 0 to 100.
    SetVolume(u8),
    /// Turn shuffling on.
    ToggleShuffle,
    /// Turn repeating on.
    ToggleRepeat,
    /// Stop.
    Stop,
}

/// The path of a command. Playing and pausing share one; shuffling and repeating are turned on.
pub open spec fn command_path_text(cmd: RemoteCommand) -> Seq<char> {
    match cmd {
        RemoteCommand::Play => PLAY_PAUSE_PATH@,
        RemoteCommand::Pause => PLAY_PAUSE_PATH@,
        RemoteCommand::NextTrack => NEXT_PATH@,
        RemoteCommand::PreviousTrack => PREVIOUS_PATH@,
        RemoteCommand::SetVolume(v) => "/ctrl-int/1/setproperty?dmcp.volume="@ + decimal(
            at_most(v, 100) as nat,
        ),
        RemoteCommand::ToggleShuffle => "/ctrl-int/1/setproperty?dacp.shufflestate="@ + decimal(1),
        RemoteCommand::ToggleRepeat => "/ctrl-int/1/setproperty?dacp.repeatstate="@ + decimal(1),
        RemoteCommand::Stop => STOP_PATH@,
    }
}

/// The path of a command.
pub fn command_path(cmd: RemoteCommand) -> (r: String)
    ensures
        r@ == command_path_text(cmd),
{
    match cmd {
        RemoteCommand::Play | RemoteCommand::Pause => PLAY_PAUSE_PATH.to_owned(),
        RemoteCommand::NextTrack => NEXT_PATH.to_owned(),
        RemoteCommand::PreviousTrack => PREVIOUS_PATH.to_owned(),
        RemoteCommand::SetVolume(v) => volume_path(v),
        RemoteCommand::ToggleShuffle => shuffle_path(true),
        RemoteCommand::ToggleRepeat => repeat_path(1),
        RemoteCommand::Stop => STOP_PATH.to_owned(),
    }
}

/// The address in the bytes of a connection: 4 bytes or 16.
pub fn ip_addr_from_remote(remote_addr: &[u8]) -> (r: Option<IpAddress>)
    ensures
        match r {
            Some(ip) => ip.parts() == (remote_addr@.len() == 4, remote_addr@) && (
            remote_addr@.len() == 4 || remote_addr@.len() == 16),
            None => remote_addr@.len() != 4 && remote_addr@.len() != 16,
        },
{
    if remote_addr.len() == 4 {
        let octets: [u8; 4] = [remote_addr[0], remote_addr[1], remote_addr[2], remote_addr[3]];
        assert(octets@ =~= remote_addr@);
        Some(IpAddress::V4(octets))
    } else if remote_addr.len() == 16 {
        let mut octets: [u8; 16] = [0u8; 16];
        let mut i: usize = 0;
        while i < 16
            invariant
                i <= 16 == remote_addr@.len(),
                forall|k: int| 0 <= k < i ==> octets@[k] == remote_addr@[k],
            decreases 16 - i,
        {
            octets[i] = remote_addr[i];
            i = i + 1;
        }
        assert(octets@ =~= remote_addr@);
        Some(IpAddress::V6(octets))
    } else {
        None
    }
}

/// The remote control of a session.
#[derive(Debug)]
pub struct DacpRemoteControl {
    /// The client of the device's service.
    pub client: DacpClient,
}

impl DacpRemoteControl {
    /// A remote control for the device behind a connection. `discovered_port` is the port of its
    /// service, where discovery found it. An address that is none leaves the target unknown.
    pub fn new(
        dacp_id: &str,
        active_remote: &str,
        remote_addr: &[u8],
        discovered_port: Option<u16>,
    ) -> (r: Self)
        ensures
            r.client.dacp_id@ == dacp_id@,
            r.client.active_remote@ == active_remote@,
            match r.client.addr {
                Some(addr) => addr.ip.parts() == (remote_addr@.len() == 4, remote_addr@)
                    && addr.port == (match discovered_port {
                    Some(port) => port,
                    None => DACP_DEFAULT_PORT,
                }),
                None => remote_addr@.len() != 4 && remote_addr@.len() != 16,
            },
    {
        let mut client = DacpClient::new(dacp_id, active_remote);
        if let Some(ip) = ip_addr_from_remote(remote_addr) {
            client.discover_from_remote(ip, discovered_port);
        }
        DacpRemoteControl { client }
    }

    /// Where a command is to be sent and which path it has.
    pub fn plan_command(&self, cmd: RemoteCommand) -> (r: Result<
        (SocketAddress, String),
        NetworkError,
    >)
        ensures
            match self.client.addr {
                Some(addr) => r matches Ok((target, path)) && target == addr && path@
                    == command_path_text(cmd),
                None => r matches Err(e) && e.text()
                    == "DACP not discovered yet — call discover_from_remote() first"@,
            },
    {
        match self.client.target() {
            Ok(addr) => Ok((addr, command_path(cmd))),
            Err(e) => Err(e),
        }
    }

    /// The commands that can be sent.
    pub fn available_commands(&self) -> (r: Vec<RemoteCommand>)
        ensures
            r@ == seq![
                RemoteCommand::Play,
                RemoteCommand::Pause,
                RemoteCommand::NextTrack,
                RemoteCommand::PreviousTrack,
                RemoteCommand::SetVolume(0),
                RemoteCommand::ToggleShuffle,
                RemoteCommand::ToggleRepeat,
                RemoteCommand::Stop,
            ],
    {
        vec![
            RemoteCommand::Play,
            RemoteCommand::Pause,
            RemoteCommand::NextTrack,
            RemoteCommand::PreviousTrack,
            RemoteCommand::SetVolume(0),
            RemoteCommand::ToggleShuffle,
            RemoteCommand::ToggleRepeat,
            RemoteCommand::Stop,
        ]
    }
}

/// Each command has its own path under `/ctrl-int/1/`, but for playing and pausing, which share
/// one. The volume stands at the end of its path as a number, 100 at most; shuffling and repeating
/// are turned on by a one.
pub proof fn law_command_paths(volume: u8)
    ensures
        command_path_text(RemoteCommand::Play) == "/ctrl-int/1/playpause"@,
        command_path_text(RemoteCommand::Pause) == "/ctrl-int/1/playpause"@,
        command_path_text(RemoteCommand::NextTrack) == "/ctrl-int/1/nextitem"@,
        command_path_text(RemoteCommand::PreviousTrack) == "/ctrl-int/1/previtem"@,
        command_path_text(RemoteCommand::Stop) == "/ctrl-int/1/stop"@,
        command_path_text(RemoteCommand::ToggleShuffle)
            == "/ctrl-int/1/setproperty?dacp.shufflestate=1"@,
        command_path_text(RemoteCommand::ToggleRepeat)
            == "/ctrl-int/1/setproperty?dacp.repeatstate=1"@,
        ({
            let path = command_path_text(RemoteCommand::SetVolume(volume));
            let prefix = "/ctrl-int/1/setproperty?dmcp.volume="@;
            &&& path.take(prefix.len() as int) == prefix
            &&& volume <= 100 ==> spelled(path.skip(prefix.len() as int)) == volume
            &&& volume > 100 ==> spelled(path.skip(prefix.len() as int)) == 100
        }),
{
    let prefix = "/ctrl-int/1/setproperty?dmcp.volume="@;
    let path = command_path_text(RemoteCommand::SetVolume(volume));
    law_at_most(volume, 100);
    law_decimal_reads_back(at_most(volume, 100) as nat);
    assert(path.take(prefix.len() as int) =~= prefix);
    assert(path.skip(prefix.len() as int) =~= decimal(at_most(volume, 100) as nat));
    reveal_strlit("/ctrl-int/1/setproperty?dacp.shufflestate=");
    reveal_strlit("/ctrl-int/1/setproperty?dacp.shufflestate=1");
    reveal_strlit("/ctrl-int/1/setproperty?dacp.repeatstate=");
    reveal_strlit("/ctrl-int/1/setproperty?dacp.repeatstate=1");
    assert(decimal(1) =~= seq!['1']);
    assert(command_path_text(RemoteCommand::ToggleShuffle)
        =~= "/ctrl-int/1/setproperty?dacp.shufflestate=1"@);
    assert(command_path_text(RemoteCommand::ToggleRepeat)
        =~= "/ctrl-int/1/setproperty?dacp.repeatstate=1"@);
}

/// Four bytes are an address of the old kind, sixteen one of the new, with those bytes, and any
/// other number is none.
pub proof fn law_remote_address(remote_addr: &[u8], r: Option<IpAddress>)
    requires
        call_ensures(ip_addr_from_remote, (remote_addr,), r),
    ensures
        r matches Some(IpAddress::V4(octets)) ==> octets@ == remote_addr@,
        r matches Some(IpAddress::V6(octets)) ==> octets@ == remote_addr@,
        r matches Some(IpAddress::V4(_)) <==> remote_addr@.len() == 4,
        r matches Some(IpAddress::V6(_)) <==> remote_addr@.len() == 16,
{
    if let Some(ip) = r {
        match ip {
            IpAddress::V4(octets) => assert(octets@.len() == 4),
            IpAddress::V6(octets) => assert(octets@.len() == 16),
        }
    }
}

/// A command goes to the remote address, on the port that was found or on the usual one, with the
/// command's path. Without an address it goes nowhere.
pub proof fn law_planned_commands(
    dacp_id: &str,
    active_remote: &str,
    remote_addr: &[u8],
    discovered_port: Option<u16>,
    remote: DacpRemoteControl,
    cmd: RemoteCommand,
    r: Result<(SocketAddress, String), NetworkError>,
)
    requires
        call_ensures(
            DacpRemoteControl::new,
            (dacp_id, active_remote, remote_addr, discovered_port),
            remote,
        ),
        call_ensures(DacpRemoteControl::plan_command, (&remote, cmd), r),
    ensures
        remote.client.active_remote@ == active_remote@,
        remote.client.dacp_id@ == dacp_id@,
        remote_addr@.len() != 4 && remote_addr@.len() != 16 ==> r is Err,
        remote_addr@.len() == 4 || remote_addr@.len() == 16 ==> (r matches Ok((target, path))
            && target.ip.parts() == (remote_addr@.len() == 4, remote_addr@) && path@
            == command_path_text(cmd) && (discovered_port matches Some(port) ==> target.port
            == port) && (discovered_port is None ==> target.port == 3689)),
{
    if remote.client.addr is Some {
        let ip = remote.client.addr->0.ip;
        match ip {
            IpAddress::V4(octets) => assert(octets@.len() == 4),
            IpAddress::V6(octets) => assert(octets@.len() == 16),
        }
    }
}

/// Every command can be sent, and each is listed once.
pub proof fn law_available_commands(
    remote: &DacpRemoteControl,
    list: Vec<RemoteCommand>,
    cmd: RemoteCommand,
)
    requires
        call_ensures(DacpRemoteControl::available_commands, (remote,), list),
    ensures
        list@.len() == 8,
        list@.no_duplicates(),
        list@.contains(
            match cmd {
                RemoteCommand::SetVolume(_) => RemoteCommand::SetVolume(0),
                other => other,
            },
        ),
{
    let all = list@;
    assert(all[0] is Play && all[1] is Pause && all[2] is NextTrack && all[3] is PreviousTrack);
    assert(all[4] == RemoteCommand::SetVolume(0) && all[5] is ToggleShuffle);
    assert(all[6] is ToggleRepeat && all[7] is Stop);
}

} // verus!
