//! Small conversion helpers shared by the transport types.

use vstd::prelude::*;

use crate::codec::push_char;
use crate::socket_addr::UnixAddr;
use crate::socket_addr::UnixAddrSpec;
use vstd::std_specs::convert::IntoSpec;
use vstd::string::*;

verus! {

/// A pair converted element by element.
pub fn into2<A, B, C, D>(pair: (A, B)) -> (r: (C, D)) where A: Into<C>, B: Into<D>
    ensures
        <A as vstd::std_specs::convert::IntoSpec<C>>::obeys_into_spec() ==> r.0
            == pair.0.into_spec(),
        <B as vstd::std_specs::convert::IntoSpec<D>>::obeys_into_spec() ==> r.1
            == pair.1.into_spec(),
{
    (pair.0.into(), pair.1.into())
}

/// The path text that locates a named UNIX address on the wire: a named
/// path is used as it is, and an abstract name is encoded as a leading
/// NUL character followed by the name.
pub open spec fn spec_unix_path(u: UnixAddrSpec) -> Seq<char> {
    match u {
        UnixAddrSpec::Pathname(p) => p,
        UnixAddrSpec::Abstract(n) => seq!['\u{0}'] + n,
        UnixAddrSpec::Unnamed => Seq::empty(),
    }
}

/// The filesystem path to bind or connect a named UNIX address to; the
/// unnamed address has none, and handing one in is a caller error.
pub fn unix_addr_to_path(addr: &UnixAddr) -> (r: String)
    requires
        !(addr@ is Unnamed),
    ensures
        r@ == spec_unix_path(addr@),
{
    match addr {
        UnixAddr::Pathname(p) => p.clone(),
        UnixAddr::Abstract(n) => {
            let mut s = String::new();
            push_char(&mut s, '\u{0}');
            s.append(n.as_str());
            proof {
                assert(s@ =~= seq!['\u{0}'] + n@);
            }
            s
        },
        UnixAddr::Unnamed => {
            proof {
                assert(false);
            }
            String::new()
        },
    }
}

} // verus!
