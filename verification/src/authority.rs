//! Sources and destinations of messages.

use crate::codes::peel;
use crate::id::PublicId;
use crate::order::{prefix_of_concat, Checked, Coded};
use crate::prefix::Prefix;
use crate::xor_name::XorName;
use vstd::prelude::*;

verus! {

/// The source or the destination of a message.
#[derive(Clone, Copy, Debug, PartialEq, Eq)]
pub enum Authority {
    /// The group of nodes that manage a client.
    ClientManager(XorName),
    /// The group of nodes that manage a piece of data.
    NaeManager(XorName),
    /// The group of nodes that manage a node.
    NodeManager(XorName),
    /// The section that a name belongs to.
    Section(XorName),
    /// All sections that are compatible with a prefix.
    PrefixSection(Prefix),
    /// A single node.
    ManagedNode(XorName),
    /// A client, behind the node that it is connected to.
    Client { client_id: PublicId, proxy_node_name: XorName },
}

impl Authority {
    /// The name of the authority.
    pub open spec fn xor_name(&self) -> XorName {
        match *self {
            Authority::ClientManager(name) => name,
            Authority::NaeManager(name) => name,
            Authority::NodeManager(name) => name,
            Authority::Section(name) => name,
            Authority::PrefixSection(prefix) => prefix.lowest_name(),
            Authority::ManagedNode(name) => name,
            Authority::Client { client_id, proxy_node_name } => client_id.xor_name(),
        }
    }

    /// Returns the name of the authority; that of a prefix is the smallest name that matches it.
    pub fn name(&self) -> (r: XorName)
        requires
            self.inv(),
        ensures
            r == self.xor_name(),
    {
        match self {
            Authority::ClientManager(name) => *name,
            Authority::NaeManager(name) => *name,
            Authority::NodeManager(name) => *name,
            Authority::Section(name) => *name,
            Authority::PrefixSection(prefix) => prefix.lower_bound(),
            Authority::ManagedNode(name) => *name,
            Authority::Client { client_id, proxy_node_name } => *client_id.name(),
        }
    }

    /// The number of the variant.
    pub open spec fn tag(&self) -> u8 {
        match *self {
            Authority::ClientManager(_) => 0,
            Authority::NaeManager(_) => 1,
            Authority::NodeManager(_) => 2,
            Authority::Section(_) => 3,
            Authority::PrefixSection(_) => 4,
            Authority::ManagedNode(_) => 5,
            Authority::Client { .. } => 6,
        }
    }

    /// The code of what the variant holds.
    pub open spec fn body_code(&self) -> Seq<u8> {
        match *self {
            Authority::ClientManager(name) => XorName::code(name),
            Authority::NaeManager(name) => XorName::code(name),
            Authority::NodeManager(name) => XorName::code(name),
            Authority::Section(name) => XorName::code(name),
            Authority::PrefixSection(prefix) => Prefix::code(prefix),
            Authority::ManagedNode(name) => XorName::code(name),
            Authority::Client { client_id, proxy_node_name } => PublicId::code(client_id)
                + XorName::code(proxy_node_name),
        }
    }
}

impl View for Authority {
    type V = Authority;

    open spec fn view(&self) -> Authority {
        *self
    }
}

impl Checked for Authority {
    open spec fn inv(&self) -> bool {
        match *self {
            Authority::PrefixSection(prefix) => prefix.inv(),
            _ => true,
        }
    }

    fn duplicate(&self) -> (r: Self) {
        *self
    }
}

impl Coded for Authority {
    open spec fn code(v: Authority) -> Seq<u8> {
        seq![v.tag()] + v.body_code()
    }

    open spec fn valid(v: Authority) -> bool {
        v.inv()
    }

    proof fn inv_valid(&self) {
    }

    proof fn code_unique(a: Authority, b: Authority) {
        let ca = Self::code(a);
        let cb = Self::code(b);
        assert(ca[0] == cb.subrange(0, ca.len() as int)[0]);
        assert(ca[0] == a.tag() && cb[0] == b.tag());
        prefix_of_concat(seq![a.tag()], a.body_code(), seq![b.tag()], b.body_code());
        match (a, b) {
            (Authority::PrefixSection(x), Authority::PrefixSection(y)) => {
                Prefix::code_unique(x, y);
            },
            (
                Authority::Client { client_id: x, proxy_node_name: p },
                Authority::Client { client_id: y, proxy_node_name: q },
            ) => {
                peel::<PublicId>(x, XorName::code(p), y, XorName::code(q));
                XorName::code_unique(p, q);
            },
            _ => {
                XorName::code_unique(a.xor_name(), b.xor_name());
            },
        }
    }

    fn write(&self, out: &mut Vec<u8>) {
        let ghost start = out@;
        match self {
            Authority::ClientManager(name) => {
                out.push(0u8);
                name.write(out);
            },
            Authority::NaeManager(name) => {
                out.push(1u8);
                name.write(out);
            },
            Authority::NodeManager(name) => {
                out.push(2u8);
                name.write(out);
            },
            Authority::Section(name) => {
                out.push(3u8);
                name.write(out);
            },
            Authority::PrefixSection(prefix) => {
                out.push(4u8);
                prefix.write(out);
            },
            Authority::ManagedNode(name) => {
                out.push(5u8);
                name.write(out);
            },
            Authority::Client { client_id, proxy_node_name } => {
                out.push(6u8);
                client_id.write(out);
                proxy_node_name.write(out);
            },
        }
        assert(out@ =~= start + Self::code(*self));
    }
}

/// An authority is named by the name that it was given, a client by its own name, and a prefix by the
/// lowest name that belongs to it.
pub proof fn authority_is_named(auth: Authority, name: XorName)
    ensures
        (auth == Authority::ClientManager(name) || auth == Authority::NaeManager(name) || auth
            == Authority::NodeManager(name) || auth == Authority::Section(name) || auth
            == Authority::ManagedNode(name)) ==> auth.xor_name() == name,
        auth matches Authority::Client { client_id, proxy_node_name } ==> auth.xor_name()
            == client_id.xor_name(),
        auth matches Authority::PrefixSection(prefix) ==> (prefix.covers(name) && (forall|i: int|
            prefix.bits().len() <= i < 256 ==> !#[trigger] name.bits()[i]) ==> auth.xor_name()
            == name),
{
    if let Authority::PrefixSection(prefix) = auth {
        if prefix.covers(name) && (forall|i: int|
            prefix.bits().len() <= i < 256 ==> !#[trigger] name.bits()[i]) {
            let k = prefix.lowest_name();
            assert(prefix.is_lowest_name(name));
            assert(prefix.is_lowest_name(k));
            assert forall|i: int| 0 <= i < 256 implies name.bits()[i] == k.bits()[i] by {
                if i < prefix.bits().len() {
                    assert(prefix.bits()[i] == name.bits()[i] && prefix.bits()[i] == k.bits()[i]);
                }
            }
            assert(name.bits() =~= k.bits());
            XorName::bits_injective(name, k);
        }
    }
}

} // verus!
