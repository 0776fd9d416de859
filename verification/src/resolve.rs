//! Candidate resolution: expanding an address-like input into an ordered,
//! finite list of addresses.

use vstd::prelude::*;

use crate::codec::spec_parse;
use crate::socket_addr::IpAddress;
use crate::socket_addr::ParseError;
use crate::socket_addr::SocketAddr;
use crate::socket_addr::SocketAddrSpec;
use crate::socket_addr::UnixAddr;
use crate::socket_addr::UnixAddrSpec;
use vstd::string::*;
use vstd::slice::*;

verus! {

/// A source of candidate addresses: it expands to an ordered, finite
/// list, or fails with a parse error. `abstract_names` says whether this
/// platform has the abstract UNIX namespace.
pub trait ToSocketAddrs {
    /// The expansion this input stands for.
    spec fn spec_addrs(&self, abstract_names: bool) -> Result<Seq<SocketAddrSpec>, ParseError>;

    /// The candidate addresses, in order.
    fn to_socket_addrs(&self, abstract_names: bool) -> (r: Result<Vec<SocketAddr>, ParseError>)
        ensures
            match r {
                Ok(v) => self.spec_addrs(abstract_names) == Ok::<Seq<SocketAddrSpec>, ParseError>(
                    v@.map_values(|a: SocketAddr| a@),
                ),
                Err(e) => self.spec_addrs(abstract_names) == Err::<Seq<SocketAddrSpec>, ParseError>(
                    e,
                ),
            },
    ;
}

/// An already-typed address expands to itself alone.
impl ToSocketAddrs for SocketAddr {
    open spec fn spec_addrs(&self, abstract_names: bool) -> Result<Seq<SocketAddrSpec>, ParseError> {
        Ok(seq![self@])
    }

    fn to_socket_addrs(&self, abstract_names: bool) -> (r: Result<Vec<SocketAddr>, ParseError>) {
        let mut v: Vec<SocketAddr> = Vec::new();
        v.push(self.duplicate());
        proof {
            assert(v@.map_values(|a: SocketAddr| a@) =~= seq![self@]);
        }
        Ok(v)
    }
}

/// An IP and port expand to the one TCP address they name.
impl ToSocketAddrs for (IpAddress, u16) {
    open spec fn spec_addrs(&self, abstract_names: bool) -> Result<Seq<SocketAddrSpec>, ParseError> {
        Ok(seq![SocketAddrSpec::Tcp(self.0, self.1)])
    }

    fn to_socket_addrs(&self, abstract_names: bool) -> (r: Result<Vec<SocketAddr>, ParseError>) {
        let mut v: Vec<SocketAddr> = Vec::new();
        v.push(SocketAddr::Tcp(self.0, self.1));
        proof {
            assert(v@.map_values(|a: SocketAddr| a@) =~= seq![SocketAddrSpec::Tcp(self.0, self.1)]);
        }
        Ok(v)
    }
}

/// A text expands to the one address it parses to, or fails with its
/// parse error.
impl ToSocketAddrs for String {
    open spec fn spec_addrs(&self, abstract_names: bool) -> Result<Seq<SocketAddrSpec>, ParseError> {
        match spec_parse(abstract_names, self@) {
            Ok(a) => Ok(seq![a]),
            Err(e) => Err(e),
        }
    }

    fn to_socket_addrs(&self, abstract_names: bool) -> (r: Result<Vec<SocketAddr>, ParseError>) {
        match SocketAddr::parse(self.as_str(), abstract_names) {
            Ok(a) => {
                let ghost av = a@;
                let mut v: Vec<SocketAddr> = Vec::new();
                v.push(a);
                proof {
                    assert(v@.map_values(|a: SocketAddr| a@) =~= seq![av]);
                }
                Ok(v)
            },
            Err(e) => Err(e),
        }
    }
}

/// A reference resolves as what it points to does.
impl<T: ToSocketAddrs> ToSocketAddrs for &T {
    open spec fn spec_addrs(&self, abstract_names: bool) -> Result<Seq<SocketAddrSpec>, ParseError> {
        (**self).spec_addrs(abstract_names)
    }

    fn to_socket_addrs(&self, abstract_names: bool) -> (r: Result<Vec<SocketAddr>, ParseError>) {
        (**self).to_socket_addrs(abstract_names)
    }
}

/// A text expands to the one address it parses to, or fails with its
/// parse error.
impl ToSocketAddrs for str {
    open spec fn spec_addrs(&self, abstract_names: bool) -> Result<Seq<SocketAddrSpec>, ParseError> {
        match spec_parse(abstract_names, self@) {
            Ok(a) => Ok(seq![a]),
            Err(e) => Err(e),
        }
    }

    fn to_socket_addrs(&self, abstract_names: bool) -> (r: Result<Vec<SocketAddr>, ParseError>) {
        match SocketAddr::parse(self, abstract_names) {
            Ok(a) => {
                let ghost av = a@;
                let mut v: Vec<SocketAddr> = Vec::new();
                v.push(a);
                proof {
                    assert(v@.map_values(|a: SocketAddr| a@) =~= seq![av]);
                }
                Ok(v)
            },
            Err(e) => Err(e),
        }
    }
}

/// What a list of inputs expands to: each element's own expansion,
/// concatenated in order; the first element that fails decides the
/// error.
pub open spec fn concat_addrs<T: ToSocketAddrs>(items: Seq<T>, abstract_names: bool) -> Result<
    Seq<SocketAddrSpec>,
    ParseError,
>
    decreases items.len(),
{
    if items.len() == 0 {
        Ok(Seq::empty())
    } else {
        match items[0].spec_addrs(abstract_names) {
            Err(e) => Err(e),
            Ok(h) => match concat_addrs(items.drop_first(), abstract_names) {
                Err(e) => Err(e),
                Ok(t) => Ok(h + t),
            },
        }
    }
}

/// A list of inputs expands to the concatenation of its elements'
/// expansions.
impl<T: ToSocketAddrs> ToSocketAddrs for [T] {
    open spec fn spec_addrs(&self, abstract_names: bool) -> Result<Seq<SocketAddrSpec>, ParseError> {
        concat_addrs(self@, abstract_names)
    }

    fn to_socket_addrs(&self, abstract_names: bool) -> (r: Result<Vec<SocketAddr>, ParseError>) {
        let ghost items = self@;
        let n = self.len();
        let mut out: Vec<SocketAddr> = Vec::new();
        let mut i: usize = 0;
        proof {
            assert(items.skip(0) =~= items);
        }
        while i < n
            invariant
                i <= n,
                n == items.len(),
                items == self@,
                concat_addrs(items, abstract_names) == (match concat_addrs(
                    items.skip(i as int),
                    abstract_names,
                ) {
                    Ok(t) => Ok::<Seq<SocketAddrSpec>, ParseError>(
                        out@.map_values(|a: SocketAddr| a@) + t,
                    ),
                    Err(e) => Err::<Seq<SocketAddrSpec>, ParseError>(e),
                }),
            decreases n - i,
        {
            let ghost rem = items.skip(i as int);
            proof {
                assert(rem[0] == items[i as int]);
                assert(rem.drop_first() =~= items.skip(i as int + 1));
            }
            let item = slice_index_get(self, i);
            match item.to_socket_addrs(abstract_names) {
                Err(e) => {
                    return Err(e);
                },
                Ok(v) => {
                    let ghost prevmap = out@.map_values(|a: SocketAddr| a@);
                    let ghost vvmap = v@.map_values(|a: SocketAddr| a@);
                    let ghost vv = v@;
                    let m = v.len();
                    let mut j: usize = 0;
                    while j < m
                        invariant
                            j <= m,
                            m == vv.len(),
                            v@ == vv,
                            vvmap == vv.map_values(|a: SocketAddr| a@),
                            out@.map_values(|a: SocketAddr| a@) =~= prevmap + vvmap.take(j as int),
                        decreases m - j,
                    {
                        let ghost outprev = out@;
                        let a = v[j].duplicate();
                        out.push(a);
                        proof {
                            assert(out@ =~= outprev.push(a));
                            assert(a@ == vvmap[j as int]);
                            assert(out@.map_values(|a: SocketAddr| a@) =~= outprev.map_values(
                                |a: SocketAddr| a@,
                            ).push(a@));
                            assert(out@.map_values(|a: SocketAddr| a@) =~= prevmap + vvmap.take(
                                j as int + 1,
                            ));
                        }
                        j = j + 1;
                    }
                    proof {
                        assert(vvmap.take(m as int) =~= vvmap);
                        assert(out@.map_values(|a: SocketAddr| a@) =~= prevmap + vvmap);
                        assert(rem[0].spec_addrs(abstract_names) == Ok::<
                            Seq<SocketAddrSpec>,
                            ParseError,
                        >(vvmap));
                        match concat_addrs(items.skip(i as int + 1), abstract_names) {
                            Ok(t2) => {
                                assert((prevmap + vvmap) + t2 =~= prevmap + (vvmap + t2));
                            },
                            Err(e2) => {},
                        }
                    }
                    i = i + 1;
                },
            }
        }
        proof {
            assert(items.skip(n as int) =~= Seq::<T>::empty());
        }
        Ok(out)
    }
}

/// A vector of inputs expands as the list of them does.
impl<T: ToSocketAddrs> ToSocketAddrs for Vec<T> {
    open spec fn spec_addrs(&self, abstract_names: bool) -> Result<Seq<SocketAddrSpec>, ParseError> {
        concat_addrs(self@, abstract_names)
    }

    fn to_socket_addrs(&self, abstract_names: bool) -> (r: Result<Vec<SocketAddr>, ParseError>) {
        self.as_slice().to_socket_addrs(abstract_names)
    }
}

/// Resolution order: where every element of a list resolves, the list
/// resolves to the concatenation of the elements' own resolutions, in
/// that order.
pub proof fn lemma_resolution_order<T: ToSocketAddrs>(items: Seq<T>, abstract_names: bool)
    requires
        forall|k: int| 0 <= k < items.len() ==> (#[trigger] items[k].spec_addrs(
            abstract_names,
        )) is Ok,
    ensures
        concat_addrs(items, abstract_names) == Ok::<Seq<SocketAddrSpec>, ParseError>(
            items.map_values(|t: T| t.spec_addrs(abstract_names)->Ok_0).flatten(),
        ),
    decreases items.len(),
{
    let f = |t: T| t.spec_addrs(abstract_names)->Ok_0;
    if items.len() == 0 {
        assert(items.map_values(f).flatten() =~= Seq::<SocketAddrSpec>::empty());
    } else {
        let rest = items.drop_first();
        assert(forall|k: int| 0 <= k < rest.len() ==> rest[k] == items[k + 1]);
        lemma_resolution_order(rest, abstract_names);
        assert(items.map_values(f).drop_first() =~= rest.map_values(f));
        assert(items.map_values(f).len() > 0);
        assert(items.map_values(f).flatten() == items.map_values(f).first() + items.map_values(
            f,
        ).drop_first().flatten());
        assert(items.map_values(f).first() == f(items[0]));
    }
}

/// What a filesystem path stands for as an address, honoring the
/// abstract-name convention in path form: a leading `@` selects the
/// abstract namespace where the platform has one, the empty path is the
/// unnamed address, and a path holding a NUL character is rejected.
pub open spec fn spec_path_addr(abstract_names: bool, p: Seq<char>) -> Result<
    SocketAddrSpec,
    ParseError,
> {
    if abstract_names && p.len() >= 1 && p[0] == '@' {
        Ok(SocketAddrSpec::Unix(UnixAddrSpec::Abstract(p.skip(1))))
    } else if p.contains('\u{0}') {
        Err(ParseError::InvalidUnixPath)
    } else if p.len() == 0 {
        Ok(SocketAddrSpec::Unix(UnixAddrSpec::Unnamed))
    } else {
        Ok(SocketAddrSpec::Unix(UnixAddrSpec::Pathname(p)))
    }
}

/// The one UNIX address a filesystem path names.
pub fn path_to_socket_addr(path: &str, abstract_names: bool) -> (r: Result<SocketAddr, ParseError>)
    ensures
        match r {
            Ok(a) => spec_path_addr(abstract_names, path@) == Ok::<SocketAddrSpec, ParseError>(a@),
            Err(e) => spec_path_addr(abstract_names, path@) == Err::<SocketAddrSpec, ParseError>(
                e,
            ),
        },
{
    let len = path.unicode_len();
    if abstract_names && len >= 1 && path.get_char(0) == '@' {
        let name = path.substring_char(1, len);
        proof {
            assert(name@ =~= path@.skip(1));
        }
        Ok(SocketAddr::Unix(UnixAddr::Abstract(String::from_str(name))))
    } else if crate::codec::str_contains_char(path, '\u{0}') {
        Err(ParseError::InvalidUnixPath)
    } else if len == 0 {
        Ok(SocketAddr::Unix(UnixAddr::Unnamed))
    } else {
        Ok(SocketAddr::Unix(UnixAddr::Pathname(String::from_str(path))))
    }
}

} // verus!
