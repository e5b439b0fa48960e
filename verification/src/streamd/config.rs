//! Configuration of the publishing service.

use vstd::prelude::*;

use crate::sdr::device::Gain;
use crate::text;

verus! {

/// Tuner gain as it is configured: a number of tenths of a dB, or the name of a mode.
#[derive(Debug, Clone)]
pub enum GainSetting {
    Tenths(i32),
    Mode(String),
}

/// Gain that stands in for a mode that does not exist.
pub const FALLBACK_GAIN_TENTHS: i32 = 400;

/// The gain that a setting means.
pub open spec fn gain_of(g: GainSetting) -> Gain {
    match g {
        GainSetting::Tenths(n) => Gain::Manual(n),
        GainSetting::Mode(s) => if text::lowered(s@) == "auto"@ {
            Gain::Auto
        } else if text::lowered(s@) == "hw-agc"@ {
            Gain::HardwareAgc
        } else {
            Gain::Manual(FALLBACK_GAIN_TENTHS)
        },
    }
}

/// The setting names a mode that does not exist.
pub open spec fn unknown_mode(g: GainSetting) -> bool {
    match g {
        GainSetting::Tenths(_) => false,
        GainSetting::Mode(s) => text::lowered(s@) != "auto"@ && text::lowered(s@) != "hw-agc"@,
    }
}

/// Convert the configured gain into the tuner's gain mode. Modes are named in any case.
pub fn to_gain(g: &GainSetting) -> (r: Gain)
    ensures
        r == gain_of(*g),
{
    match g {
        GainSetting::Tenths(n) => Gain::Manual(*n),
        GainSetting::Mode(s) => {
            let l = text::to_lower(s.as_str());
            if text::spells(l.as_slice(), "auto") {
                Gain::Auto
            } else if text::spells(l.as_slice(), "hw-agc") {
                Gain::HardwareAgc
            } else {
                Gain::Manual(FALLBACK_GAIN_TENTHS)
            }
        },
    }
}

/// True if the configured gain deserves a warning: it names a mode that does not exist.
pub fn is_unknown_mode(g: &GainSetting) -> (r: bool)
    ensures
        r == unknown_mode(*g),
{
    match g {
        GainSetting::Tenths(_) => false,
        GainSetting::Mode(s) => {
            let l = text::to_lower(s.as_str());
            !text::spells(l.as_slice(), "auto") && !text::spells(l.as_slice(), "hw-agc")
        },
    }
}

/// Default complex sample rate in Hz.
pub fn default_sample_rate() -> (r: u32)
    ensures
        r == 1_200_000,
{
    1_200_000
}

/// Default gain setting.
pub fn default_gain() -> (r: GainSetting)
    ensures
        r == GainSetting::Tenths(400),
{
    GainSetting::Tenths(400)
}

/// Default multicast group.
pub fn default_group() -> (r: [u8; 4])
    ensures
        r@ == seq![239u8, 12, 34, 56],
{
    let r: [u8; 4] = [239, 12, 34, 56];
    assert(r@ =~= seq![239u8, 12, 34, 56]);
    r
}

/// Default interface: any.
pub fn default_interface() -> (r: [u8; 4])
    ensures
        r@ == seq![0u8, 0, 0, 0],
{
    let r: [u8; 4] = [0, 0, 0, 0];
    assert(r@ =~= seq![0u8, 0, 0, 0]);
    r
}

/// Default UDP port.
pub fn default_port() -> (r: u16)
    ensures
        r == 17_014,
{
    17_014
}

/// Default multicast time to live: stay on the subnet.
pub fn default_ttl() -> (r: u32)
    ensures
        r == 1,
{
    1
}

/// Address of a datagram socket.
#[derive(Debug, Clone, Copy)]
pub enum Endpoint {
    /// IPv4 address and port.
    V4([u8; 4], u16),
    /// IPv6 address, port, flow information and scope.
    V6([u8; 16], u16, u32, u32),
}

/// Where frames are published.
#[derive(Debug, Clone)]
pub struct EmitSection {
    /// Multicast group.
    pub group: [u8; 4],
    /// UDP port.
    pub port: u16,
    /// Local interface to send from.
    pub interface: [u8; 4],
    /// Multicast time to live.
    pub ttl: u32,
    /// Further destinations.
    pub destinations: Vec<Endpoint>,
}

impl EmitSection {
    /// All destinations of each datagram: the multicast group first, then the others.
    pub fn destinations(&self) -> (r: Vec<Endpoint>)
        ensures
            r@ == seq![Endpoint::V4(self.group, self.port)] + self.destinations@,
    {
        let mut r: Vec<Endpoint> = Vec::new();
        r.push(Endpoint::V4(self.group, self.port));
        let mut i: usize = 0;
        assert(self.destinations@.take(0) =~= Seq::<Endpoint>::empty());
        while i < self.destinations.len()
            invariant
                i <= self.destinations@.len(),
                r@ == seq![Endpoint::V4(self.group, self.port)] + self.destinations@.take(
                    i as int,
                ),
            decreases self.destinations@.len() - i,
        {
            r.push(self.destinations[i]);
            i = i + 1;
            assert(r@ =~= seq![Endpoint::V4(self.group, self.port)] + self.destinations@.take(
                i as int,
            ));
        }
        assert(self.destinations@.take(i as int) =~= self.destinations@);
        r
    }
}

impl Default for EmitSection {
    fn default() -> (r: Self)
        ensures
            r.group@ == seq![239u8, 12, 34, 56],
            r.port == 17_014,
            r.interface@ == seq![0u8, 0, 0, 0],
            r.ttl == 1,
            r.destinations@ == Seq::<Endpoint>::empty(),
    {
        EmitSection {
            group: default_group(),
            port: default_port(),
            interface: default_interface(),
            ttl: default_ttl(),
            destinations: Vec::new(),
        }
    }
}

/// Where the configuration is looked for last, in this order.
pub open spec fn search_path(i: int) -> Seq<char> {
    if i == 0 {
        "config.toml"@
    } else {
        "/etc/aprs-streamd/config.toml"@
    }
}

/// The configuration file to use: the one that was named on the command line, else the
/// one that the environment names, else the first of the usual places where there is one.
pub open spec fn chosen_path(
    arg: Option<Seq<char>>,
    env: Option<Seq<char>>,
    local_exists: bool,
    system_exists: bool,
) -> Option<Seq<char>> {
    match (arg, env) {
        (Some(a), _) => Some(a),
        (None, Some(e)) if e.len() > 0 => Some(e),
        _ => if local_exists {
            Some(search_path(0))
        } else if system_exists {
            Some(search_path(1))
        } else {
            None
        },
    }
}

/// Decide on the configuration file. The last two arguments say whether there is a file
/// in each of the usual places.
pub fn resolve_path(
    arg: Option<&str>,
    env: Option<&str>,
    local_exists: bool,
    system_exists: bool,
) -> (r: Option<String>)
    ensures
        (match r {
            Some(p) => Some(p@),
            None => None,
        }) == chosen_path(
            match arg {
                Some(a) => Some(a@),
                None => None,
            },
            match env {
                Some(e) => Some(e@),
                None => None,
            },
            local_exists,
            system_exists,
        ),
{
    match arg {
        Some(a) => {
            return Some(text::owned(a));
        },
        None => {},
    }
    match env {
        Some(e) => {
            if e.unicode_len() > 0 {
                return Some(text::owned(e));
            }
        },
        None => {},
    }
    if local_exists {
        Some(text::owned("config.toml"))
    } else if system_exists {
        Some(text::owned("/etc/aprs-streamd/config.toml"))
    } else {
        None
    }
}

/// Where audio comes from.
#[derive(Debug, Clone, Copy, PartialEq, Eq, Structural)]
pub enum SourceKind {
    /// An RTP stream.
    Rtp,
    /// A tuner of our own.
    Sdr,
}

/// Decide on the audio source. Exactly one must be configured.
pub fn select_source(rtp: bool, sdr: bool) -> (r: Result<SourceKind, String>)
    ensures
        match r {
            Ok(kind) => rtp != sdr && kind == if rtp {
                SourceKind::Rtp
            } else {
                SourceKind::Sdr
            },
            Err(e) => rtp == sdr && e@ == if rtp {
                "configure only one of [source] (RTP) or [sdr]"@
            } else {
                "no audio source: configure [source] (RTP) or [sdr]"@
            },
        },
{
    if rtp && sdr {
        Err(text::owned("configure only one of [source] (RTP) or [sdr]"))
    } else if rtp {
        Ok(SourceKind::Rtp)
    } else if sdr {
        Ok(SourceKind::Sdr)
    } else {
        Err(text::owned("no audio source: configure [source] (RTP) or [sdr]"))
    }
}

/// A configured gain means the number given, or the mode named in small or capital letters;
/// any other name is worth a warning, and means 40 dB.
pub proof fn law_configured_gain(g: GainSetting)
    ensures
        g matches GainSetting::Tenths(n) ==> gain_of(g) == Gain::Manual(n) && !unknown_mode(g),
        g matches GainSetting::Mode(s) ==> {
            let auto = text::any_case(s@, seq!['a', 'u', 't', 'o']);
            let agc = text::any_case(s@, seq!['h', 'w', '-', 'a', 'g', 'c']);
            &&& auto <==> gain_of(g) == Gain::Auto
            &&& agc <==> gain_of(g) == Gain::HardwareAgc
            &&& unknown_mode(g) <==> !auto && !agc
            &&& unknown_mode(g) ==> gain_of(g) == Gain::Manual(400)
        },
{
    reveal_strlit("auto");
    reveal_strlit("hw-agc");
    let auto = seq!['a', 'u', 't', 'o'];
    let agc = seq!['h', 'w', '-', 'a', 'g', 'c'];
    assert("auto"@ =~= auto);
    assert("hw-agc"@ =~= agc);
    match g {
        GainSetting::Mode(s) => {
            text::law_any_case(s@, auto);
            text::law_any_case(s@, agc);
        },
        GainSetting::Tenths(_) => {},
    }
}

/// The command line wins over the environment and the environment over the usual places; an
/// empty variable is as good as none; of the usual places the working directory comes first;
/// and a file is found exactly if one of these gives one.
pub proof fn law_path_precedence(
    arg: Option<Seq<char>>,
    env: Option<Seq<char>>,
    local_exists: bool,
    system_exists: bool,
)
    ensures
        ({
            let r = chosen_path(arg, env, local_exists, system_exists);
            let named = env is Some && env->0.len() > 0;
            &&& arg is Some ==> r == arg
            &&& arg is None && named ==> r == env
            &&& arg is None && !named && local_exists ==> r == Some("config.toml"@)
            &&& arg is None && !named && !local_exists && system_exists ==> r == Some(
                "/etc/aprs-streamd/config.toml"@,
            )
            &&& r is None <==> arg is None && !named && !local_exists && !system_exists
        }),
{
}

} // verus!
