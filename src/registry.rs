//! The rendezvous server's peer registry and the relay messages it produces.
use crate::codec::{
    decode_registration, encode_endpoint, encode_peers, encode_spec, endpoint_spec, endpoint_text,
    lemma_endpoint_round_trip, peer_views, CodecError, PeerRecord, PeerView,
};
use vstd::prelude::*;

verus! {

/// The server-observed endpoint that identifies a peer.
pub open spec fn key_of(p: PeerView) -> (Seq<char>, u16) {
    (p.remote_address, p.remote_port)
}

/// `s` without the records whose key is `(address, port)`, order kept.
pub open spec fn excluding(s: Seq<PeerView>, address: Seq<char>, port: u16) -> Seq<PeerView>
    decreases s.len(),
{
    if s.len() == 0 {
        Seq::empty()
    } else {
        let prev = excluding(s.drop_last(), address, port);
        if key_of(s.last()) == (address, port) {
            prev
        } else {
            prev.push(s.last())
        }
    }
}

/// No two records share a key.
pub open spec fn keys_unique(s: Seq<PeerView>) -> bool {
    forall|i: int, j: int|
        0 <= i < s.len() && 0 <= j < s.len() && i != j ==> key_of(#[trigger] s[i]) != key_of(
            #[trigger] s[j],
        )
}

/// Registering a record replaces any record with the same key.
pub open spec fn register_spec(s: Seq<PeerView>, p: PeerView) -> Seq<PeerView> {
    excluding(s, p.remote_address, p.remote_port).push(p)
}

/// The relay messages for the first `n` records of `s`: for each record
/// whose list of other peers is non-empty, its key text and that list encoded.
pub open spec fn relays_upto(s: Seq<PeerView>, n: nat) -> Seq<(Seq<char>, Seq<char>)>
    decreases n,
{
    if n == 0 {
        Seq::empty()
    } else {
        let prev = relays_upto(s, (n - 1) as nat);
        let p = s[n - 1];
        let others = excluding(s, p.remote_address, p.remote_port);
        if others.len() > 0 {
            prev.push((endpoint_text(p.remote_address, p.remote_port), encode_spec(others)))
        } else {
            prev
        }
    }
}

/// The relay messages that the registry state `s` calls for.
pub open spec fn relays_spec(s: Seq<PeerView>) -> Seq<(Seq<char>, Seq<char>)> {
    relays_upto(s, s.len())
}

/// Copies the records of `peers` whose observed endpoint is not
/// `filter_ip:filter_port`.
pub fn filter_peers(
    peers: &Vec<PeerRecord>,
    filter_ip: &String,
    filter_port: u16,
) -> (r: Vec<PeerRecord>)
    ensures
        peer_views(r@) == excluding(peer_views(peers@), filter_ip@, filter_port),
{
    let mut result: Vec<PeerRecord> = Vec::new();
    let mut i: usize = 0;
    while i < peers.len()
        invariant
            i <= peers@.len(),
            peer_views(result@) == excluding(
                peer_views(peers@).subrange(0, i as int),
                filter_ip@,
                filter_port,
            ),
        decreases peers@.len() - i,
    {
        let p = &peers[i];
        let ghost prev = result@;
        assert(peer_views(peers@).subrange(0, i as int + 1).drop_last() =~= peer_views(
            peers@,
        ).subrange(0, i as int));
        if !(p.remote_address == *filter_ip && p.remote_port == filter_port) {
            result.push(
                PeerRecord {
                    local_address: p.local_address.clone(),
                    local_port: p.local_port,
                    remote_address: p.remote_address.clone(),
                    remote_port: p.remote_port,
                },
            );
            assert(peer_views(result@) =~= peer_views(prev).push(p@));
        }
        i = i + 1;
    }
    assert(peer_views(peers@).subrange(0, i as int) =~= peer_views(peers@));
    result
}

/// A payload to write to the control connection whose key is `target_key`.
#[derive(Debug, Clone)]
pub struct RelayMessage {
    pub target_key: String,
    pub payload: String,
}

pub open spec fn relay_views(v: Seq<RelayMessage>) -> Seq<(Seq<char>, Seq<char>)> {
    v.map_values(|m: RelayMessage| (m.target_key@, m.payload@))
}

/// The peers that the server knows, one record per control connection.
pub struct Registry {
    peers: Vec<PeerRecord>,
}

impl View for Registry {
    type V = Seq<PeerView>;

    closed spec fn view(&self) -> Seq<PeerView> {
        peer_views(self.peers@)
    }
}

impl Registry {
    pub open spec fn wf(&self) -> bool {
        keys_unique(self@)
    }

    /// An empty registry.
    pub fn new() -> (r: Registry)
        ensures
            r@ == Seq::<PeerView>::empty(),
            r.wf(),
    {
        let r = Registry { peers: Vec::new() };
        assert(r@ =~= Seq::<PeerView>::empty());
        r
    }

    /// The number of records.
    pub fn len(&self) -> (r: usize)
        ensures
            r == self@.len(),
    {
        self.peers.len()
    }

    /// Every record but those whose observed endpoint is `address:port`.
    pub fn snapshot_excluding(&self, address: &String, port: u16) -> (r: Vec<PeerRecord>)
        ensures
            peer_views(r@) == excluding(self@, address@, port),
    {
        filter_peers(&self.peers, address, port)
    }
}

} // verus!

verus! {

proof fn lemma_excluding_subset(s: Seq<PeerView>, address: Seq<char>, port: u16)
    ensures
        forall|x: PeerView| #[trigger] excluding(s, address, port).contains(x) ==> s.contains(x),
        excluding(s, address, port).len() <= s.len(),
    decreases s.len(),
{
    if s.len() > 0 {
        let q = s.drop_last();
        lemma_excluding_subset(q, address, port);
        assert forall|x: PeerView| #[trigger] excluding(s, address, port).contains(x) implies s.contains(
            x,
        ) by {
            if excluding(q, address, port).contains(x) {
                let j = choose|j: int| 0 <= j < q.len() && q[j] == x;
                assert(s[j] == x);
            } else {
                assert(s[s.len() - 1] == x);
            }
        }
    }
}

/// A snapshot that excludes an endpoint never holds a record of that
/// endpoint, whatever the registry holds.
pub proof fn lemma_snapshot_omits_endpoint(s: Seq<PeerView>, address: Seq<char>, port: u16)
    ensures
        forall|i: int|
            0 <= i < excluding(s, address, port).len() ==> key_of(
                #[trigger] excluding(s, address, port)[i],
            ) != (address, port),
    decreases s.len(),
{
    if s.len() > 0 {
        let q = s.drop_last();
        lemma_snapshot_omits_endpoint(q, address, port);
        let e = excluding(q, address, port);
        assert forall|i: int|
            0 <= i < excluding(s, address, port).len() implies key_of(
            #[trigger] excluding(s, address, port)[i],
        ) != (address, port) by {
            if i < e.len() {
                assert(excluding(s, address, port)[i] == e[i]);
            }
        }
    }
}

proof fn lemma_excluding_unique(s: Seq<PeerView>, address: Seq<char>, port: u16)
    requires
        keys_unique(s),
    ensures
        keys_unique(excluding(s, address, port)),
    decreases s.len(),
{
    if s.len() > 0 {
        let q = s.drop_last();
        assert(keys_unique(q)) by {
            assert forall|i: int, j: int|
                0 <= i < q.len() && 0 <= j < q.len() && i != j implies key_of(#[trigger] q[i])
                != key_of(#[trigger] q[j]) by {
                assert(q[i] == s[i] && q[j] == s[j]);
            }
        }
        lemma_excluding_unique(q, address, port);
        lemma_excluding_subset(q, address, port);
        let e = excluding(q, address, port);
        if key_of(s.last()) != (address, port) {
            let f = e.push(s.last());
            assert forall|i: int, j: int|
                0 <= i < f.len() && 0 <= j < f.len() && i != j implies key_of(#[trigger] f[i])
                != key_of(#[trigger] f[j]) by {
                if i == e.len() || j == e.len() {
                    let k = if i == e.len() {
                        j
                    } else {
                        i
                    };
                    assert(e.contains(e[k]));
                    let m = choose|m: int| 0 <= m < q.len() && q[m] == e[k];
                    assert(s[m] == e[k]);
                }
            }
        }
    }
}

proof fn lemma_excluding_len(s: Seq<PeerView>, address: Seq<char>, port: u16)
    ensures
        (exists|i: int| 0 <= i < s.len() && key_of(#[trigger] s[i]) == (address, port))
            ==> excluding(s, address, port).len() < s.len(),
        (forall|i: int| 0 <= i < s.len() ==> key_of(#[trigger] s[i]) != (address, port))
            ==> excluding(s, address, port) == s,
    decreases s.len(),
{
    lemma_excluding_subset(s, address, port);
    if s.len() > 0 {
        let q = s.drop_last();
        lemma_excluding_len(q, address, port);
        lemma_excluding_subset(q, address, port);
        if exists|i: int| 0 <= i < s.len() && key_of(#[trigger] s[i]) == (address, port) {
            let i = choose|i: int| 0 <= i < s.len() && key_of(#[trigger] s[i]) == (address, port);
            if i < q.len() {
                assert(key_of(q[i]) == (address, port));
            }
        }
        if forall|i: int| 0 <= i < s.len() ==> key_of(#[trigger] s[i]) != (address, port) {
            assert forall|i: int| 0 <= i < q.len() implies key_of(#[trigger] q[i]) != (
                address,
                port,
            ) by {
                assert(q[i] == s[i]);
            }
            assert(key_of(s[s.len() - 1]) != (address, port));
            assert(q.push(s.last()) =~= s);
        }
    } else {
        assert(s =~= Seq::<PeerView>::empty());
    }
}

} // verus!

verus! {

impl Registry {
    /// Records `record`, replacing any record with the same observed endpoint.
    pub fn register(&mut self, record: PeerRecord)
        requires
            old(self).wf(),
        ensures
            final(self).wf(),
            final(self)@ == register_spec(old(self)@, record@),
    {
        let mut kept = filter_peers(&self.peers, &record.remote_address, record.remote_port);
        let ghost e = excluding(old(self)@, record@.remote_address, record@.remote_port);
        kept.push(record);
        self.peers = kept;
        proof {
            assert(self@ =~= e.push(record@));
            lemma_excluding_unique(old(self)@, record@.remote_address, record@.remote_port);
            lemma_snapshot_omits_endpoint(old(self)@, record@.remote_address, record@.remote_port);
            let f = self@;
            assert forall|i: int, j: int|
                0 <= i < f.len() && 0 <= j < f.len() && i != j implies key_of(#[trigger] f[i])
                != key_of(#[trigger] f[j]) by {
                if i < e.len() && j < e.len() {
                    assert(f[i] == e[i] && f[j] == e[j]);
                } else if i < e.len() {
                    assert(f[i] == e[i]);
                } else {
                    assert(f[j] == e[j]);
                }
            }
        }
    }

    /// Removes the record whose observed endpoint is `address:port`; says
    /// whether there was one.
    pub fn unregister(&mut self, address: &String, port: u16) -> (r: bool)
        requires
            old(self).wf(),
        ensures
            final(self).wf(),
            final(self)@ == excluding(old(self)@, address@, port),
            r == exists|i: int|
                0 <= i < old(self)@.len() && key_of(#[trigger] old(self)@[i]) == (address@, port),
    {
        let before = self.peers.len();
        self.peers = filter_peers(&self.peers, address, port);
        proof {
            lemma_excluding_unique(old(self)@, address@, port);
            lemma_excluding_len(old(self)@, address@, port);
        }
        self.peers.len() < before
    }

    /// The relay messages for the current state: for each record, in order,
    /// the list of every other record, addressed to that record's key, where
    /// that list is not empty.
    pub fn relay_messages(&self) -> (r: Vec<RelayMessage>)
        ensures
            relay_views(r@) == relays_spec(self@),
    {
        let mut out: Vec<RelayMessage> = Vec::new();
        let mut i: usize = 0;
        while i < self.peers.len()
            invariant
                i <= self@.len(),
                self@ == peer_views(self.peers@),
                relay_views(out@) == relays_upto(self@, i as nat),
            decreases self@.len() - i,
        {
            let p = &self.peers[i];
            assert(self@[i as int] == p@);
            let others = filter_peers(&self.peers, &p.remote_address, p.remote_port);
            if others.len() > 0 {
                let ghost prev = out@;
                let target_key = encode_endpoint(p.remote_address.as_str(), p.remote_port);
                let payload = encode_peers(&others);
                out.push(RelayMessage { target_key, payload });
                assert(relay_views(out@) =~= relay_views(prev).push(
                    (target_key@, payload@),
                ));
            }
            i = i + 1;
        }
        out
    }

    /// Handles a registration message that arrived on the control connection
    /// observed at `remote_address:remote_port`: records the peer and returns
    /// the relay messages that the new state calls for. A malformed message
    /// leaves the registry as it was.
    pub fn on_registration(
        &mut self,
        remote_address: &String,
        remote_port: u16,
        message: &str,
    ) -> (r: Result<Vec<RelayMessage>, CodecError>)
        requires
            old(self).wf(),
        ensures
            final(self).wf(),
            match endpoint_spec(message@) {
                Some((local_address, local_port)) => {
                    let p = PeerView {
                        local_address,
                        local_port,
                        remote_address: remote_address@,
                        remote_port,
                    };
                    &&& final(self)@ == register_spec(old(self)@, p)
                    &&& r is Ok
                    &&& relay_views(r->Ok_0@) == relays_spec(final(self)@)
                },
                None => {
                    &&& final(self)@ == old(self)@
                    &&& r == Err::<Vec<RelayMessage>, CodecError>(CodecError::MalformedEndpoint)
                },
            },
    {
        match decode_registration(message) {
            Err(e) => Err(e),
            Ok((local_address, local_port)) => {
                let record = PeerRecord {
                    local_address,
                    local_port,
                    remote_address: remote_address.clone(),
                    remote_port,
                };
                self.register(record);
                Ok(self.relay_messages())
            },
        }
    }
}

} // verus!

verus! {

/// Distinct endpoints have distinct key texts.
pub proof fn lemma_key_text_injective(a: Seq<char>, p: u16, b: Seq<char>, q: u16)
    requires
        (a, p) != (b, q),
    ensures
        endpoint_text(a, p) != endpoint_text(b, q),
{
    lemma_endpoint_round_trip(a, p);
    lemma_endpoint_round_trip(b, q);
}

/// Two peers with distinct observed endpoints register one after the other
/// on an empty registry: the first registration relays nothing; the second
/// relays exactly one message to each peer, to distinct keys, and each
/// message lists exactly the other peer.
pub proof fn lemma_two_peer_session(a: PeerView, b: PeerView)
    requires
        key_of(a) != key_of(b),
    ensures
        relays_spec(register_spec(Seq::empty(), a)) == Seq::<(Seq<char>, Seq<char>)>::empty(),
        relays_spec(register_spec(register_spec(Seq::empty(), a), b)) == seq![
            (endpoint_text(a.remote_address, a.remote_port), encode_spec(seq![b])),
            (endpoint_text(b.remote_address, b.remote_port), encode_spec(seq![a])),
        ],
        endpoint_text(a.remote_address, a.remote_port) != endpoint_text(
            b.remote_address,
            b.remote_port,
        ),
{
    let e = Seq::<PeerView>::empty();
    let s1 = register_spec(e, a);
    assert(excluding(e, a.remote_address, a.remote_port) =~= e);
    assert(s1 =~= seq![a]);
    assert(s1.drop_last() =~= e);
    assert(excluding(s1, a.remote_address, a.remote_port) =~= e);
    assert(relays_upto(s1, 0) =~= Seq::<(Seq<char>, Seq<char>)>::empty());
    let s2 = register_spec(s1, b);
    assert(excluding(e, b.remote_address, b.remote_port) =~= e);
    assert(excluding(s1, b.remote_address, b.remote_port) =~= seq![a]);
    assert(s2 =~= seq![a, b]);
    assert(s2.drop_last() =~= s1);
    assert(excluding(s1, a.remote_address, a.remote_port) =~= e);
    assert(excluding(s2, a.remote_address, a.remote_port) =~= seq![b]);
    assert(excluding(s2, b.remote_address, b.remote_port) =~= seq![a]);
    assert(relays_upto(s2, 0) =~= Seq::<(Seq<char>, Seq<char>)>::empty());
    assert(relays_upto(s2, 1) =~= seq![
        (endpoint_text(a.remote_address, a.remote_port), encode_spec(seq![b])),
    ]);
    assert(relays_upto(s2, 2) =~= seq![
        (endpoint_text(a.remote_address, a.remote_port), encode_spec(seq![b])),
        (endpoint_text(b.remote_address, b.remote_port), encode_spec(seq![a])),
    ]);
    lemma_key_text_injective(a.remote_address, a.remote_port, b.remote_address, b.remote_port);
}

proof fn lemma_relay_targets(s: Seq<PeerView>, n: nat)
    requires
        n <= s.len(),
    ensures
        forall|i: int|
            0 <= i < relays_upto(s, n).len() ==> exists|j: int|
                0 <= j < n && (#[trigger] relays_upto(s, n)[i]).0 == endpoint_text(
                    s[j].remote_address,
                    s[j].remote_port,
                ),
    decreases n,
{
    if n > 0 {
        let m = (n - 1) as nat;
        lemma_relay_targets(s, m);
        let prev = relays_upto(s, m);
        assert forall|i: int| 0 <= i < relays_upto(s, n).len() implies exists|j: int|
            0 <= j < n && (#[trigger] relays_upto(s, n)[i]).0 == endpoint_text(
                s[j].remote_address,
                s[j].remote_port,
            ) by {
            if i < prev.len() {
                assert(relays_upto(s, n)[i] == prev[i]);
                let j = choose|j: int|
                    0 <= j < m && (#[trigger] prev[i]).0 == endpoint_text(
                        s[j].remote_address,
                        s[j].remote_port,
                    );
                assert(0 <= j < n);
            } else {
                assert(relays_upto(s, n)[i].0 == endpoint_text(
                    s[n - 1].remote_address,
                    s[n - 1].remote_port,
                ));
            }
        }
    }
}

/// Once the record of `address:port` is removed, no relay message that the
/// registry calls for is addressed to that endpoint's key.
pub proof fn lemma_departed_peer_not_relayed(s: Seq<PeerView>, address: Seq<char>, port: u16)
    ensures
        forall|i: int|
            0 <= i < relays_spec(excluding(s, address, port)).len() ==> (
            #[trigger] relays_spec(excluding(s, address, port))[i]).0 != endpoint_text(
                address,
                port,
            ),
{
    let t = excluding(s, address, port);
    lemma_relay_targets(t, t.len());
    lemma_snapshot_omits_endpoint(s, address, port);
    assert forall|i: int| 0 <= i < relays_spec(t).len() implies (
    #[trigger] relays_spec(t)[i]).0 != endpoint_text(address, port) by {
        let j = choose|j: int|
            0 <= j < t.len() && (#[trigger] relays_upto(t, t.len())[i]).0 == endpoint_text(
                t[j].remote_address,
                t[j].remote_port,
            );
        assert(key_of(t[j]) != (address, port));
        lemma_key_text_injective(t[j].remote_address, t[j].remote_port, address, port);
    }
}

} // verus!
