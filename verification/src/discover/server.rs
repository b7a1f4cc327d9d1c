//! A liteserver as discovery sees it, and the choice of its address among the
//! records that a DNS lookup of its host returned.

use vstd::prelude::*;

verus! {

/// The identifier of a liteserver: its key type and its key.
#[derive(Debug, PartialEq, Eq, Hash)]
pub struct LiteServerId {
    pub typ: String,
    pub key: String,
}

/// The mathematical value of a [`LiteServerId`].
pub struct LiteServerIdView {
    pub typ: Seq<char>,
    pub key: Seq<char>,
}

impl View for LiteServerId {
    type V = LiteServerIdView;

    open spec fn view(&self) -> LiteServerIdView {
        LiteServerIdView { typ: self.typ@, key: self.key@ }
    }
}

impl Clone for LiteServerId {
    fn clone(&self) -> (r: Self)
        ensures
            r == *self,
    {
        LiteServerId { typ: self.typ.clone(), key: self.key.clone() }
    }
}

/// A liteserver: identifier, IPv4 address as a signed integer, port, and an
/// optional host name whose DNS records override the address.
#[derive(Debug, PartialEq, Eq, Hash)]
pub struct LiteServer {
    pub id: LiteServerId,
    pub ip: i32,
    pub port: u16,
    pub host: Option<String>,
}

/// The mathematical value of a [`LiteServer`].
pub struct LiteServerView {
    pub id: LiteServerIdView,
    pub ip: i32,
    pub port: u16,
    pub host: Option<Seq<char>>,
}

/// The value of an optional string.
pub open spec fn opt_string_view(s: Option<String>) -> Option<Seq<char>> {
    match s {
        Some(t) => Some(t@),
        None => None,
    }
}

impl View for LiteServer {
    type V = LiteServerView;

    open spec fn view(&self) -> LiteServerView {
        LiteServerView {
            id: self.id@,
            ip: self.ip,
            port: self.port,
            host: opt_string_view(self.host),
        }
    }
}

impl LiteServerView {
    /// The same liteserver with its address replaced.
    pub open spec fn with_ip(self, ip: i32) -> LiteServerView {
        LiteServerView { ip: ip, ..self }
    }
}

fn clone_opt_string(s: &Option<String>) -> (r: Option<String>)
    ensures
        r == *s,
{
    match s {
        Some(t) => Some(t.clone()),
        None => None,
    }
}

impl Clone for LiteServer {
    fn clone(&self) -> (r: Self)
        ensures
            r == *self,
    {
        LiteServer {
            id: self.id.clone(),
            ip: self.ip,
            port: self.port,
            host: clone_opt_string(&self.host),
        }
    }
}

impl LiteServer {
    /// This liteserver with its address replaced by `ip`.
    pub fn with_ip(self, ip: i32) -> (r: Self)
        ensures
            r@ == self@.with_ip(ip),
    {
        LiteServer { ip: ip, ..self }
    }
}

/// Whether two liteservers are the same value.
pub(crate) fn same_server(a: &LiteServer, b: &LiteServer) -> (r: bool)
    ensures
        r == (a@ == b@),
{
    let same_host = match (&a.host, &b.host) {
        (Some(x), Some(y)) => *x == *y,
        (None, None) => true,
        _ => false,
    };
    a.id.typ == b.id.typ && a.id.key == b.id.key && a.ip == b.ip && a.port == b.port && same_host
}

/// An address that a DNS lookup returned.
#[derive(Debug, Clone, Copy, PartialEq, Eq)]
pub enum ResolvedIp {
    /// An IPv4 address, by its four octets in network order.
    V4(u8, u8, u8, u8),
    /// An IPv6 address; discovery does not use these.
    V6,
}

/// The IPv4 address `a.b.c.d` read as a big-endian 32-bit number.
pub open spec fn ipv4_to_u32(a: u8, b: u8, c: u8, d: u8) -> u32 {
    (a * 16777216 + b * 65536 + c * 256 + d) as u32
}

/// The first IPv4 address among `records`, as a number.
pub open spec fn first_ipv4(records: Seq<ResolvedIp>) -> Option<u32>
    decreases records.len(),
{
    if records.len() == 0 {
        None
    } else {
        match records[0] {
            ResolvedIp::V4(a, b, c, d) => Some(ipv4_to_u32(a, b, c, d)),
            ResolvedIp::V6 => first_ipv4(records.drop_first()),
        }
    }
}

/// What a DNS lookup that returned `records` makes of `ls`: a liteserver without a
/// host is not looked up and stays as it is.
pub open spec fn spec_apply_dns_records(ls: LiteServerView, records: Seq<ResolvedIp>) -> LiteServerView {
    match ls.host {
        None => ls,
        Some(_) => match first_ipv4(records) {
            Some(v) => ls.with_ip(v as i32),
            None => ls,
        },
    }
}

fn ipv4_number(a: u8, b: u8, c: u8, d: u8) -> (r: u32)
    ensures
        r == ipv4_to_u32(a, b, c, d),
{
    (a as u32) * 16777216 + (b as u32) * 65536 + (c as u32) * 256 + (d as u32)
}

/// The liteserver `ls` after the lookup of its host returned `records`: the first
/// IPv4 record, read as a big-endian number and reinterpreted as a signed 32-bit
/// integer, becomes its address; with no IPv4 record it is unchanged. A liteserver
/// without a host has nothing to look up and is returned unchanged.
pub fn apply_dns_records(ls: LiteServer, records: &Vec<ResolvedIp>) -> (r: LiteServer)
    ensures
        r@ == spec_apply_dns_records(ls@, records@),
        ls.host is None ==> r == ls,
{
    if ls.host.is_none() {
        return ls;
    }
    let n = records.len();
    assert(records@.skip(0) =~= records@);
    for i in 0..n
        invariant
            n == records@.len(),
            ls.host is Some,
            first_ipv4(records@) == first_ipv4(records@.skip(i as int)),
    {
        match records[i] {
            ResolvedIp::V4(a, b, c, d) => {
                let v = ipv4_number(a, b, c, d);
                return ls.with_ip(v as i32);
            },
            ResolvedIp::V6 => {
                assert(records@.skip(i as int).drop_first() =~= records@.skip(i + 1));
            },
        }
    }
    assert(records@.skip(n as int).len() == 0);
    ls
}

/// The number of an IPv4 address holds its octets in network order: the first octet
/// in the top eight bits, the last in the bottom eight.
pub proof fn lemma_ipv4_octets(a: u8, b: u8, c: u8, d: u8)
    ensures
        ipv4_to_u32(a, b, c, d) >> 24u32 == a as u32,
        (ipv4_to_u32(a, b, c, d) >> 16u32) & 0xffu32 == b as u32,
        (ipv4_to_u32(a, b, c, d) >> 8u32) & 0xffu32 == c as u32,
        ipv4_to_u32(a, b, c, d) & 0xffu32 == d as u32,
{
    let v = ipv4_to_u32(a, b, c, d);
    assert(v == (a * 16777216 + b * 65536 + c * 256 + d) as u32);
    assert(((a * 16777216 + b * 65536 + c * 256 + d) as u32) >> 24u32 == a as u32) by (bit_vector);
    assert((((a * 16777216 + b * 65536 + c * 256 + d) as u32) >> 16u32) & 0xffu32 == b as u32) by (bit_vector);
    assert((((a * 16777216 + b * 65536 + c * 256 + d) as u32) >> 8u32) & 0xffu32 == c as u32) by (bit_vector);
    assert(((a * 16777216 + b * 65536 + c * 256 + d) as u32) & 0xffu32 == d as u32) by (bit_vector);
}

proof fn lemma_first_ipv4_at(records: Seq<ResolvedIp>, k: int)
    requires
        0 <= k < records.len(),
        records[k] is V4,
        forall|j: int| 0 <= j < k ==> records[j] is V6,
    ensures
        first_ipv4(records) == Some(
            ipv4_to_u32(records[k]->V4_0, records[k]->V4_1, records[k]->V4_2, records[k]->V4_3),
        ),
    decreases k,
{
    if k > 0 {
        assert(records[0] is V6);
        let rest = records.drop_first();
        assert forall|j: int| 0 <= j < k - 1 implies rest[j] is V6 by {
            assert(rest[j] == records[j + 1]);
        }
        assert(rest[k - 1] == records[k]);
        lemma_first_ipv4_at(rest, k - 1);
    }
}

proof fn lemma_first_ipv4_none(records: Seq<ResolvedIp>)
    requires
        forall|j: int| 0 <= j < records.len() ==> records[j] is V6,
    ensures
        first_ipv4(records) is None,
    decreases records.len(),
{
    if records.len() > 0 {
        let rest = records.drop_first();
        assert forall|j: int| 0 <= j < rest.len() implies rest[j] is V6 by {
            assert(rest[j] == records[j + 1]);
        }
        lemma_first_ipv4_none(rest);
    }
}

/// A liteserver with a host whose lookup returned, before any IPv4 record, only IPv6
/// ones, and then the IPv4 record `a.b.c.d`, gets that address: its address, read as
/// an unsigned 32-bit number, holds `a`, `b`, `c`, `d` from the top byte down; its
/// identifier, port and host stay as they were.
pub proof fn lemma_dns_takes_first_ipv4(ls: LiteServerView, records: Seq<ResolvedIp>, k: int)
    requires
        ls.host is Some,
        0 <= k < records.len(),
        records[k] is V4,
        forall|j: int| 0 <= j < k ==> records[j] is V6,
    ensures
        ({
            let r = spec_apply_dns_records(ls, records);
            &&& (r.ip as u32) >> 24u32 == records[k]->V4_0 as u32
            &&& ((r.ip as u32) >> 16u32) & 0xffu32 == records[k]->V4_1 as u32
            &&& ((r.ip as u32) >> 8u32) & 0xffu32 == records[k]->V4_2 as u32
            &&& (r.ip as u32) & 0xffu32 == records[k]->V4_3 as u32
            &&& r.id == ls.id
            &&& r.port == ls.port
            &&& r.host == ls.host
        }),
{
    let (a, b, c, d) = (records[k]->V4_0, records[k]->V4_1, records[k]->V4_2, records[k]->V4_3);
    lemma_first_ipv4_at(records, k);
    lemma_ipv4_octets(a, b, c, d);
    let v = ipv4_to_u32(a, b, c, d);
    assert((v as i32) as u32 == v) by (bit_vector);
}

/// A lookup that returned no IPv4 record leaves the liteserver as it was.
pub proof fn lemma_dns_without_ipv4_keeps_server(ls: LiteServerView, records: Seq<ResolvedIp>)
    requires
        forall|j: int| 0 <= j < records.len() ==> records[j] is V6,
    ensures
        spec_apply_dns_records(ls, records) == ls,
{
    lemma_first_ipv4_none(records);
}

} // verus!
