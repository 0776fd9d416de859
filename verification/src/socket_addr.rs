//! The address model: a tagged value that is either a TCP endpoint or a
//! UNIX-domain endpoint, together with its mathematical view.

use vstd::prelude::*;
use vstd::string::*;

verus! {

/// The host part of a TCP endpoint: the four octets of an IPv4 address or
/// the eight 16-bit groups of an IPv6 address, most significant first.
#[derive(Clone, Copy, PartialEq, Eq, Structural, Debug)]
pub enum IpAddress {
    V4(u8, u8, u8, u8),
    V6(u16, u16, u16, u16, u16, u16, u16, u16),
}

/// A UNIX-domain endpoint: a filesystem path, an abstract-namespace name
/// (available only on platforms with that namespace), or the unnamed
/// address that introspection of an anonymous socket can report.
#[derive(Clone, Debug)]
pub enum UnixAddr {
    Pathname(String),
    Abstract(String),
    Unnamed,
}

/// An endpoint of either transport kind.
#[derive(Clone, Debug)]
pub enum SocketAddr {
    Tcp(IpAddress, u16),
    Unix(UnixAddr),
}

/// Why a text failed to parse as an address.
#[derive(Clone, Copy, PartialEq, Eq, Structural, Debug)]
pub enum ParseError {
    /// The text starts with neither `tcp://` nor `unix://`.
    InvalidScheme,
    /// The body after `tcp://` is not a valid `ip:port` text.
    InvalidTcpAddress,
    /// The path after `unix://` holds a NUL character.
    InvalidUnixPath,
    /// The body after `unix://` names the abstract namespace on a platform
    /// without one.
    AbstractNamesUnsupported,
}

/// Mathematical view of a UNIX-domain endpoint: the path or name as a
/// sequence of characters.
pub enum UnixAddrSpec {
    Pathname(Seq<char>),
    Abstract(Seq<char>),
    Unnamed,
}

/// Mathematical view of an endpoint.
pub enum SocketAddrSpec {
    Tcp(IpAddress, u16),
    Unix(UnixAddrSpec),
}

impl View for UnixAddr {
    type V = UnixAddrSpec;

    open spec fn view(&self) -> UnixAddrSpec {
        match self {
            UnixAddr::Pathname(p) => UnixAddrSpec::Pathname(p@),
            UnixAddr::Abstract(n) => UnixAddrSpec::Abstract(n@),
            UnixAddr::Unnamed => UnixAddrSpec::Unnamed,
        }
    }
}

impl View for SocketAddr {
    type V = SocketAddrSpec;

    open spec fn view(&self) -> SocketAddrSpec {
        match self {
            SocketAddr::Tcp(ip, port) => SocketAddrSpec::Tcp(*ip, *port),
            SocketAddr::Unix(u) => SocketAddrSpec::Unix(u@),
        }
    }
}

impl SocketAddr {
    /// Whether this address selects the TCP transport.
    pub fn is_tcp(&self) -> (r: bool)
        ensures
            r == (self@ is Tcp),
    {
        matches!(self, SocketAddr::Tcp(..))
    }

    /// Whether this address selects the UNIX-domain transport.
    pub fn is_unix(&self) -> (r: bool)
        ensures
            r == (self@ is Unix),
    {
        matches!(self, SocketAddr::Unix(..))
    }

    /// An identical address, rebuilt field by field.
    pub fn duplicate(&self) -> (r: Self)
        ensures
            r@ == self@,
    {
        match self {
            SocketAddr::Tcp(ip, port) => SocketAddr::Tcp(*ip, *port),
            SocketAddr::Unix(u) => SocketAddr::Unix(u.duplicate()),
        }
    }
}

impl UnixAddr {
    /// Whether this is the unnamed address, which must never be used as a
    /// bind or connect target.
    pub fn is_unnamed(&self) -> (r: bool)
        ensures
            r == (self@ is Unnamed),
    {
        matches!(self, UnixAddr::Unnamed)
    }

    /// An identical address, rebuilt field by field.
    pub fn duplicate(&self) -> (r: Self)
        ensures
            r@ == self@,
    {
        match self {
            UnixAddr::Pathname(p) => UnixAddr::Pathname(p.clone()),
            UnixAddr::Abstract(n) => UnixAddr::Abstract(n.clone()),
            UnixAddr::Unnamed => UnixAddr::Unnamed,
        }
    }
}

impl SocketAddr {
    /// A TCP address from its parts.
    pub fn tcp(ip: IpAddress, port: u16) -> (r: Self)
        ensures
            r@ == SocketAddrSpec::Tcp(ip, port),
    {
        SocketAddr::Tcp(ip, port)
    }

    /// Parse an address text; `abstract_names` says whether this platform
    /// has the abstract UNIX namespace.
    pub fn parse(s: &str, abstract_names: bool) -> (r: Result<SocketAddr, ParseError>)
        ensures
            match r {
                Ok(a) => crate::codec::spec_parse(abstract_names, s@) == Ok::<
                    SocketAddrSpec,
                    ParseError,
                >(a@),
                Err(e) => crate::codec::spec_parse(abstract_names, s@) == Err::<
                    SocketAddrSpec,
                    ParseError,
                >(e),
            },
    {
        crate::codec::parse_addr(s, abstract_names)
    }

    /// Render this address to its text form.
    pub fn format(&self) -> (r: String)
        ensures
            r@ == crate::codec::spec_format(self@),
    {
        crate::codec::format_addr(self)
    }
}

impl UnixAddr {
    /// A UNIX address from a filesystem path: the empty path stands for
    /// the unnamed address, and a path holding a NUL character is
    /// rejected.
    pub fn from_pathname(p: String) -> (r: Result<UnixAddr, ParseError>)
        ensures
            match r {
                Ok(u) => !p@.contains('\u{0}') && u@ == (if p@.len() == 0 {
                    UnixAddrSpec::Unnamed
                } else {
                    UnixAddrSpec::Pathname(p@)
                }),
                Err(e) => p@.contains('\u{0}') && e == ParseError::InvalidUnixPath,
            },
    {
        if crate::codec::str_contains_char(p.as_str(), '\u{0}') {
            Err(ParseError::InvalidUnixPath)
        } else if p.as_str().unicode_len() == 0 {
            Ok(UnixAddr::Unnamed)
        } else {
            Ok(UnixAddr::Pathname(p))
        }
    }

    /// A UNIX address in the abstract namespace; fails where the platform
    /// has none.
    pub fn from_abstract_name(n: String, abstract_names: bool) -> (r: Result<UnixAddr, ParseError>)
        ensures
            match r {
                Ok(u) => abstract_names && u@ == UnixAddrSpec::Abstract(n@),
                Err(e) => !abstract_names && e == ParseError::AbstractNamesUnsupported,
            },
    {
        if abstract_names {
            Ok(UnixAddr::Abstract(n))
        } else {
            Err(ParseError::AbstractNamesUnsupported)
        }
    }
}

impl PartialEq for UnixAddr {
    /// Equality of UNIX addresses: same kind and same text.
    fn eq(&self, other: &Self) -> (r: bool) {
        match (self, other) {
            (UnixAddr::Pathname(a), UnixAddr::Pathname(b)) => *a == *b,
            (UnixAddr::Abstract(a), UnixAddr::Abstract(b)) => *a == *b,
            (UnixAddr::Unnamed, UnixAddr::Unnamed) => true,
            _ => false,
        }
    }
}

impl vstd::std_specs::cmp::PartialEqSpecImpl for UnixAddr {
    open spec fn obeys_eq_spec() -> bool {
        true
    }

    open spec fn eq_spec(&self, other: &Self) -> bool {
        self@ == other@
    }
}

impl Eq for UnixAddr {

}

impl PartialEq for SocketAddr {
    /// Equality of addresses: same transport and same endpoint.
    fn eq(&self, other: &Self) -> (r: bool) {
        match (self, other) {
            (SocketAddr::Tcp(a, p), SocketAddr::Tcp(b, q)) => *a == *b && *p == *q,
            (SocketAddr::Unix(a), SocketAddr::Unix(b)) => *a == *b,
            _ => false,
        }
    }
}

impl vstd::std_specs::cmp::PartialEqSpecImpl for SocketAddr {
    open spec fn obeys_eq_spec() -> bool {
        true
    }

    open spec fn eq_spec(&self, other: &Self) -> bool {
        self@ == other@
    }
}

impl Eq for SocketAddr {

}

} // verus!
