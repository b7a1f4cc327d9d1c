//! The global TON network configuration and the liteserver entries it lists.

use vstd::prelude::*;
use vstd::string::*;

verus! {

/// The identifier of a liteserver: its key type and its key.
#[derive(Debug, PartialEq, Eq, Hash)]
pub struct LiteserverId {
    pub typ: String,
    pub key: String,
}

/// The mathematical value of a [`LiteserverId`].
pub struct LiteserverIdView {
    pub typ: Seq<char>,
    pub key: Seq<char>,
}

impl View for LiteserverId {
    type V = LiteserverIdView;

    open spec fn view(&self) -> LiteserverIdView {
        LiteserverIdView { typ: self.typ@, key: self.key@ }
    }
}

/// A liteserver entry of the configuration: identifier, IPv4 address (as a signed
/// integer, the way the configuration stores it) and port.
#[derive(Debug, PartialEq, Eq, Hash)]
pub struct Liteserver {
    pub id: LiteserverId,
    pub ip: i32,
    pub port: u16,
}

/// The mathematical value of a [`Liteserver`].
pub struct LiteserverView {
    pub id: LiteserverIdView,
    pub ip: i32,
    pub port: u16,
}

impl View for Liteserver {
    type V = LiteserverView;

    open spec fn view(&self) -> LiteserverView {
        LiteserverView { id: self.id@, ip: self.ip, port: self.port }
    }
}

impl Clone for LiteserverId {
    fn clone(&self) -> (r: Self)
        ensures
            r == *self,
    {
        LiteserverId { typ: self.typ.clone(), key: self.key.clone() }
    }
}

impl Clone for Liteserver {
    fn clone(&self) -> (r: Self)
        ensures
            r == *self,
    {
        Liteserver { id: self.id.clone(), ip: self.ip, port: self.port }
    }
}

/// The textual identifier of a liteserver: its key type, a colon, and its key.
pub open spec fn spec_liteserver_id(id: LiteserverIdView) -> Seq<char> {
    id.typ + seq![':'] + id.key
}

/// The textual identifier is the key type, then a colon, then the key, each kept
/// character for character: its length is the sum of theirs plus one, it starts with
/// the key type, the colon follows, and the rest is the key.
pub proof fn lemma_liteserver_id_parts(id: LiteserverIdView)
    ensures
        spec_liteserver_id(id).len() == id.typ.len() + 1 + id.key.len(),
        spec_liteserver_id(id).subrange(0, id.typ.len() as int) == id.typ,
        spec_liteserver_id(id)[id.typ.len() as int] == ':',
        spec_liteserver_id(id).subrange(id.typ.len() + 1int, spec_liteserver_id(id).len() as int) == id.key,
{
    let s = spec_liteserver_id(id);
    assert(s.subrange(0, id.typ.len() as int) =~= id.typ);
    assert(s.subrange(id.typ.len() + 1int, s.len() as int) =~= id.key);
}

/// Two liteservers whose key types hold no colon have the same textual identifier
/// only when they have the same key type and the same key.
pub proof fn lemma_liteserver_id_injective(x: LiteserverIdView, y: LiteserverIdView)
    requires
        !x.typ.contains(':'),
        !y.typ.contains(':'),
        spec_liteserver_id(x) == spec_liteserver_id(y),
    ensures
        x == y,
{
    lemma_liteserver_id_parts(x);
    lemma_liteserver_id_parts(y);
    let s = spec_liteserver_id(x);
    if x.typ.len() < y.typ.len() {
        assert(s[x.typ.len() as int] == ':');
        assert(y.typ[x.typ.len() as int] == s.subrange(0, y.typ.len() as int)[x.typ.len() as int]);
        assert(y.typ.contains(':'));
    } else if y.typ.len() < x.typ.len() {
        assert(s[y.typ.len() as int] == ':');
        assert(x.typ[y.typ.len() as int] == s.subrange(0, x.typ.len() as int)[y.typ.len() as int]);
        assert(x.typ.contains(':'));
    }
    assert(x.typ =~= y.typ);
    assert(x.key =~= y.key);
}

impl Liteserver {
    /// The identifier of this liteserver written as `typ:key`.
    pub fn id(&self) -> (r: String)
        ensures
            r@ == spec_liteserver_id(self.id@),
            r@.len() == self.id.typ@.len() + 1 + self.id.key@.len(),
            r@.subrange(0, self.id.typ@.len() as int) == self.id.typ@,
            r@[self.id.typ@.len() as int] == ':',
            r@.subrange(self.id.typ@.len() + 1int, r@.len() as int) == self.id.key@,
    {
        let mut r = self.id.typ.clone();
        r.append(":");
        r.append(self.id.key.as_str());
        proof {
            reveal_strlit(":");
            lemma_liteserver_id_parts(self.id@);
        }
        r
    }
}

/// `serde_json::Value`, the JSON document type, made known to Verus as an opaque type.
#[verifier::external_type_specification]
#[verifier::external_body]
pub struct ExJsonValue(serde_json::Value);

/// Copies a JSON document through `<serde_json::Value as Clone>::clone`, which serde_json
/// derives: the copy is the same value as the original.
#[verifier::external_body]
fn clone_json(v: &serde_json::Value) -> (r: serde_json::Value)
    ensures
        r == *v,
{
    v.clone()
}

/// The global configuration: the liteservers it lists, and every other field of the
/// document, kept as it was read.
#[derive(Debug, PartialEq)]
pub struct TonConfig {
    pub liteservers: Vec<Liteserver>,
    pub data: serde_json::Value,
}

impl TonConfig {
    /// This configuration narrowed to the single liteserver `liteserver`: the other
    /// fields stay as they are.
    pub fn with_liteserver(&self, liteserver: &Liteserver) -> (r: Self)
        ensures
            r.liteservers@ == seq![*liteserver],
            r.data == self.data,
    {
        let mut liteservers: Vec<Liteserver> = Vec::new();
        liteservers.push(liteserver.clone());
        assert(liteservers@ =~= seq![*liteserver]);
        TonConfig { liteservers, data: clone_json(&self.data) }
    }
}

} // verus!
