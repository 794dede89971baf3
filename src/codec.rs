//! Text formats of the control channel: endpoints, registrations and peer lists.
use vstd::prelude::*;

verus! {

/// The decimal digit character for `d`.
pub open spec fn digit_char(d: nat) -> char {
    ((d + 48) as u8) as char
}

pub open spec fn is_digit(c: char) -> bool {
    '0' <= c && c <= '9'
}

pub open spec fn digit_value(c: char) -> nat {
    ((c as u32) - 48) as nat
}

pub open spec fn all_digits(s: Seq<char>) -> bool {
    forall|i: int| 0 <= i < s.len() ==> is_digit(#[trigger] s[i])
}

/// Shortest decimal text of `n`.
pub open spec fn dec(n: nat) -> Seq<char>
    decreases n,
{
    if n < 10 {
        seq![digit_char(n)]
    } else {
        dec(n / 10).push(digit_char(n % 10))
    }
}

/// The number that a run of decimal digits denotes.
pub open spec fn digits_value(s: Seq<char>) -> nat
    decreases s.len(),
{
    if s.len() == 0 {
        0
    } else {
        digits_value(s.drop_last()) * 10 + digit_value(s.last())
    }
}

/// What a port field denotes: an optional `+`, then one or more decimal
/// digits whose value fits in 16 bits.
pub open spec fn port_value(s: Seq<char>) -> Option<u16> {
    let d = if s.len() > 0 && s[0] == '+' {
        s.drop_first()
    } else {
        s
    };
    if d.len() > 0 && all_digits(d) && digits_value(d) <= 65535 {
        Some(digits_value(d) as u16)
    } else {
        None
    }
}

/// Relies on String::push: appends one character.
#[verifier::external_body]
fn push_char(s: &mut String, c: char)
    ensures
        final(s)@ == old(s)@.push(c),
{
    s.push(c);
}

/// Appends the decimal text of `n` to `out`.
pub fn push_decimal(out: &mut String, n: u16)
    ensures
        final(out)@ == old(out)@ + dec(n as nat),
    decreases n,
{
    if n >= 10 {
        push_decimal(out, n / 10);
    }
    let c: char = ((n % 10) as u8 + 48) as char;
    push_char(out, c);
    proof {
        if n >= 10 {
            assert(old(out)@ + dec(n as nat) =~= old(out)@ + dec((n / 10) as nat) + seq![c]);
        } else {
            assert(old(out)@ + dec(n as nat) =~= old(out)@ + seq![c]);
        }
    }
}

proof fn lemma_digits_prefix(t: Seq<char>, k: int)
    requires
        0 <= k <= t.len(),
        all_digits(t),
    ensures
        digits_value(t.subrange(0, k)) <= digits_value(t),
    decreases t.len(),
{
    if k < t.len() {
        let u = t.drop_last();
        assert(u.subrange(0, k) =~= t.subrange(0, k));
        lemma_digits_prefix(u, k);
    } else {
        assert(t.subrange(0, k) =~= t);
    }
}

/// Reads a port field: `None` unless it is an optional `+` and then decimal
/// digits whose value fits in 16 bits.
pub fn parse_port(s: &str) -> (r: Option<u16>)
    ensures
        r == port_value(s@),
{
    let n = s.unicode_len();
    let mut start: usize = 0;
    if n > 0 && s.get_char(0) == '+' {
        start = 1;
    }
    let ghost d = if s@.len() > 0 && s@[0] == '+' {
        s@.drop_first()
    } else {
        s@
    };
    assert(d =~= s@.subrange(start as int, n as int));
    if start >= n {
        return None;
    }
    let mut acc: u32 = 0;
    let mut i: usize = start;
    while i < n
        invariant
            start <= i <= n,
            n == s@.len(),
            d == s@.subrange(start as int, n as int),
            d == (if s@.len() > 0 && s@[0] == '+' {
                s@.drop_first()
            } else {
                s@
            }),
            all_digits(s@.subrange(start as int, i as int)),
            acc as nat == digits_value(s@.subrange(start as int, i as int)),
            acc <= 65535,
        decreases n - i,
    {
        let c = s.get_char(i);
        let ghost p = s@.subrange(start as int, i as int + 1);
        assert(p.drop_last() =~= s@.subrange(start as int, i as int));
        assert(d[i - start] == c);
        if !('0' <= c && c <= '9') {
            assert(!is_digit(d[i - start]));
            assert(!all_digits(d));
            return None;
        }
        let v: u32 = acc * 10 + (c as u32 - 48);
        assert(v as nat == digits_value(p));
        if v > 65535 {
            assert(d.len() > 0);
            proof {
                assert(forall|j: int| 0 <= j < d.len() ==> #[trigger] d[j] == s@[start + j]);
                if all_digits(d) {
                    assert(d.subrange(0, i - start + 1) =~= p);
                    lemma_digits_prefix(d, i - start + 1);
                }
                assert(!(all_digits(d) && digits_value(d) <= 65535));
            }
            return None;
        }
        acc = v;
        i = i + 1;
        assert(all_digits(s@.subrange(start as int, i as int))) by {
            assert(forall|j: int| 0 <= j < p.len() - 1 ==> #[trigger] p[j] == s@.subrange(start as int, i - 1)[j]);
        }
    }
    assert(s@.subrange(start as int, i as int) =~= d);
    Some(acc as u16)
}

} // verus!

verus! {

/// A peer known to the rendezvous server: the endpoint the peer reported for
/// itself, and the endpoint the server observed on its control connection.
#[derive(Debug, Clone)]
pub struct PeerRecord {
    pub local_address: String,
    pub local_port: u16,
    pub remote_address: String,
    pub remote_port: u16,
}

/// A `PeerRecord` as plain values.
pub struct PeerView {
    pub local_address: Seq<char>,
    pub local_port: u16,
    pub remote_address: Seq<char>,
    pub remote_port: u16,
}

impl View for PeerRecord {
    type V = PeerView;

    open spec fn view(&self) -> PeerView {
        PeerView {
            local_address: self.local_address@,
            local_port: self.local_port,
            remote_address: self.remote_address@,
            remote_port: self.remote_port,
        }
    }
}

pub open spec fn peer_views(v: Seq<PeerRecord>) -> Seq<PeerView> {
    v.map_values(|p: PeerRecord| p@)
}

/// Errors of the control channel's text formats.
#[derive(Debug, Clone, Copy, PartialEq, Eq, Structural)]
pub enum CodecError {
    /// An endpoint without a colon, or whose port is not a 16-bit number.
    MalformedEndpoint,
    /// A peer-list entry that does not hold exactly two `|`-separated parts.
    MalformedPeerList,
}

/// `address:port`, the port in shortest decimal form.
pub open spec fn endpoint_text(address: Seq<char>, port: u16) -> Seq<char> {
    address + seq![':'] + dec(port as nat)
}

/// One peer-list entry: the observed endpoint, `|`, the reported endpoint.
pub open spec fn record_text(p: PeerView) -> Seq<char> {
    endpoint_text(p.remote_address, p.remote_port) + seq!['|'] + endpoint_text(
        p.local_address,
        p.local_port,
    )
}

/// The peer-list message for `ps`: its entries joined by `,`.
pub open spec fn encode_spec(ps: Seq<PeerView>) -> Seq<char>
    decreases ps.len(),
{
    if ps.len() == 0 {
        Seq::empty()
    } else if ps.len() == 1 {
        record_text(ps[0])
    } else {
        encode_spec(ps.drop_last()) + seq![','] + record_text(ps.last())
    }
}

/// Appends `address:port` to `out`.
fn push_endpoint(out: &mut String, address: &str, port: u16)
    ensures
        final(out)@ == old(out)@ + endpoint_text(address@, port),
{
    out.append(address);
    push_char(out, ':');
    push_decimal(out, port);
    assert(final(out)@ =~= old(out)@ + endpoint_text(address@, port));
}

/// The text of an endpoint, as a registration message or a relay key.
pub fn encode_endpoint(address: &str, port: u16) -> (r: String)
    ensures
        r@ == endpoint_text(address@, port),
{
    let mut out = String::new();
    push_endpoint(&mut out, address, port);
    assert(out@ =~= endpoint_text(address@, port));
    out
}

/// Encodes a peer list: each record as `remote:port|local:port`, joined by `,`.
pub fn encode_peers(peers: &Vec<PeerRecord>) -> (r: String)
    ensures
        r@ == encode_spec(peer_views(peers@)),
{
    let mut out = String::new();
    let mut i: usize = 0;
    while i < peers.len()
        invariant
            i <= peers@.len(),
            out@ == encode_spec(peer_views(peers@).subrange(0, i as int)),
        decreases peers@.len() - i,
    {
        let ghost before = out@;
        if i > 0 {
            push_char(&mut out, ',');
        }
        let p = &peers[i];
        push_endpoint(&mut out, p.remote_address.as_str(), p.remote_port);
        push_char(&mut out, '|');
        push_endpoint(&mut out, p.local_address.as_str(), p.local_port);
        proof {
            let s = peer_views(peers@).subrange(0, i as int + 1);
            assert(s.drop_last() =~= peer_views(peers@).subrange(0, i as int));
            assert(s.last() == p@);
            if i == 0 {
                assert(out@ =~= record_text(p@));
            } else {
                assert(out@ =~= before + seq![','] + record_text(p@));
            }
        }
        i = i + 1;
    }
    assert(peer_views(peers@).subrange(0, i as int) =~= peer_views(peers@));
    out
}

} // verus!

verus! {

/// The pieces of `s` between occurrences of `sep` (always at least one).
pub open spec fn split_spec(s: Seq<char>, sep: char) -> Seq<Seq<char>>
    decreases s.len(),
{
    if s.len() == 0 {
        seq![Seq::empty()]
    } else {
        let prev = split_spec(s.drop_last(), sep);
        if s.last() == sep {
            prev.push(Seq::empty())
        } else {
            prev.update(prev.len() - 1, prev.last().push(s.last()))
        }
    }
}

pub open spec fn string_views(v: Seq<String>) -> Seq<Seq<char>> {
    v.map_values(|x: String| x@)
}

pub proof fn lemma_split_nonempty(s: Seq<char>, sep: char)
    ensures
        split_spec(s, sep).len() >= 1,
    decreases s.len(),
{
    if s.len() > 0 {
        lemma_split_nonempty(s.drop_last(), sep);
    }
}

/// Splits `s` at each `sep`.
fn split_on(s: &str, sep: char) -> (r: Vec<String>)
    ensures
        string_views(r@) == split_spec(s@, sep),
{
    let n = s.unicode_len();
    let mut done: Vec<String> = Vec::new();
    let mut cur = String::new();
    let mut i: usize = 0;
    while i < n
        invariant
            i <= n,
            n == s@.len(),
            string_views(done@).push(cur@) == split_spec(s@.subrange(0, i as int), sep),
        decreases n - i,
    {
        let c = s.get_char(i);
        let ghost pre = s@.subrange(0, i as int);
        let ghost prev_done = done@;
        let ghost prev_cur = cur@;
        assert(s@.subrange(0, i as int + 1).drop_last() =~= pre);
        if c == sep {
            done.push(cur);
            cur = String::new();
            assert(string_views(done@).push(cur@) =~= string_views(prev_done).push(prev_cur).push(
                Seq::empty(),
            ));
        } else {
            push_char(&mut cur, c);
            let ghost prev = split_spec(pre, sep);
            assert(string_views(done@).push(cur@) =~= prev.update(
                prev.len() - 1,
                prev.last().push(c),
            ));
        }
        i = i + 1;
    }
    done.push(cur);
    assert(s@.subrange(0, n as int) =~= s@);
    assert(string_views(done@) =~= split_spec(s@, sep));
    done
}

/// Index of the last `c` in `s`, or -1.
pub open spec fn last_index(s: Seq<char>, c: char) -> int
    decreases s.len(),
{
    if s.len() == 0 {
        -1
    } else if s.last() == c {
        s.len() - 1
    } else {
        last_index(s.drop_last(), c)
    }
}

proof fn lemma_last_index_range(s: Seq<char>, c: char)
    ensures
        -1 <= last_index(s, c) < s.len(),
        last_index(s, c) >= 0 ==> s[last_index(s, c)] == c,
    decreases s.len(),
{
    if s.len() > 0 && s.last() != c {
        lemma_last_index_range(s.drop_last(), c);
    }
}

/// Splits `buf` at its last colon into address and port text; `None` when it
/// holds no colon.
pub fn ip_parser(buf: &str) -> (r: Option<(String, String)>)
    ensures
        match r {
            Some((address, port)) => {
                let k = last_index(buf@, ':');
                &&& k >= 0
                &&& address@ == buf@.subrange(0, k)
                &&& port@ == buf@.subrange(k + 1, buf@.len() as int)
            },
            None => last_index(buf@, ':') < 0,
        },
{
    let n = buf.unicode_len();
    let mut i: usize = n;
    assert(buf@.subrange(0, n as int) =~= buf@);
    while i > 0
        invariant
            i <= n,
            n == buf@.len(),
            last_index(buf@, ':') == last_index(buf@.subrange(0, i as int), ':'),
        decreases i,
    {
        let c = buf.get_char(i - 1);
        assert(buf@.subrange(0, i as int).drop_last() =~= buf@.subrange(0, i - 1));
        if c == ':' {
            let address = buf.substring_char(0, i - 1).to_owned();
            let port = buf.substring_char(i, n).to_owned();
            return Some((address, port));
        }
        i = i - 1;
    }
    None
}

/// The address and port of an endpoint text, split at its last colon; `None`
/// when it holds no colon or the port is not a 16-bit number.
pub open spec fn endpoint_spec(s: Seq<char>) -> Option<(Seq<char>, u16)> {
    let k = last_index(s, ':');
    if k >= 0 && port_value(s.subrange(k + 1, s.len() as int)) is Some {
        Some((s.subrange(0, k), port_value(s.subrange(k + 1, s.len() as int))->0))
    } else {
        None
    }
}

/// Decodes a registration message `address:port`, split at the last colon so
/// that IPv6 addresses pass unescaped.
pub fn decode_registration(text: &str) -> (r: Result<(String, u16), CodecError>)
    ensures
        match r {
            Ok((address, port)) => endpoint_spec(text@) == Some((address@, port)),
            Err(e) => e == CodecError::MalformedEndpoint && endpoint_spec(text@) is None,
        },
{
    match ip_parser(text) {
        None => Err(CodecError::MalformedEndpoint),
        Some((address, port_text)) => match parse_port(port_text.as_str()) {
            None => Err(CodecError::MalformedEndpoint),
            Some(port) => Ok((address, port)),
        },
    }
}

/// The candidate pairs of a peer-list message, or `None` when an entry does
/// not hold exactly two `|`-separated parts.
pub open spec fn decode_spec(s: Seq<char>) -> Option<Seq<(Seq<char>, Seq<char>)>> {
    let entries = split_spec(s, ',');
    if forall|i: int| 0 <= i < entries.len() ==> #[trigger] split_spec(entries[i], '|').len() == 2 {
        Some(entries.map_values(|e: Seq<char>| (split_spec(e, '|')[0], split_spec(e, '|')[1])))
    } else {
        None
    }
}

pub open spec fn pair_views(v: Seq<(String, String)>) -> Seq<(Seq<char>, Seq<char>)> {
    v.map_values(|p: (String, String)| (p.0@, p.1@))
}

/// Decodes a peer-list message into its (public, private) endpoint pairs.
pub fn decode_peer_message(text: &str) -> (r: Result<Vec<(String, String)>, CodecError>)
    ensures
        match r {
            Ok(v) => decode_spec(text@) == Some(pair_views(v@)),
            Err(e) => e == CodecError::MalformedPeerList && decode_spec(text@) is None,
        },
{
    let entries = split_on(text, ',');
    let ghost ev = split_spec(text@, ',');
    let mut out: Vec<(String, String)> = Vec::new();
    let mut i: usize = 0;
    while i < entries.len()
        invariant
            i <= entries@.len(),
            string_views(entries@) == ev,
            ev == split_spec(text@, ','),
            forall|j: int| 0 <= j < i ==> #[trigger] split_spec(ev[j], '|').len() == 2,
            pair_views(out@) == ev.subrange(0, i as int).map_values(
                |e: Seq<char>| (split_spec(e, '|')[0], split_spec(e, '|')[1]),
            ),
        decreases entries@.len() - i,
    {
        let parts = split_on(entries[i].as_str(), '|');
        assert(ev[i as int] == entries@[i as int]@);
        if parts.len() != 2 {
            assert(string_views(parts@).len() == parts@.len());
            assert(split_spec(ev[i as int], '|').len() != 2);
            return Err(CodecError::MalformedPeerList);
        }
        let ghost prev = out@;
        out.push((parts[0].clone(), parts[1].clone()));
        assert(pair_views(out@) =~= ev.subrange(0, i as int + 1).map_values(
            |e: Seq<char>| (split_spec(e, '|')[0], split_spec(e, '|')[1]),
        )) by {
            assert(pair_views(out@) =~= pair_views(prev).push((parts@[0]@, parts@[1]@)));
        }
        i = i + 1;
    }
    assert(ev.subrange(0, i as int) =~= ev);
    Ok(out)
}

} // verus!

verus! {

pub open spec fn lacks(s: Seq<char>, c: char) -> bool {
    forall|i: int| 0 <= i < s.len() ==> #[trigger] s[i] != c
}

proof fn lemma_digit(k: nat)
    requires
        k < 10,
    ensures
        is_digit(digit_char(k)),
        digit_value(digit_char(k)) == k,
{
    assert(((k + 48) as u8) as char as u32 == k + 48);
}

proof fn lemma_dec(n: nat)
    ensures
        dec(n).len() >= 1,
        all_digits(dec(n)),
        digits_value(dec(n)) == n,
    decreases n,
{
    lemma_digit(n % 10);
    if n < 10 {
        assert(dec(n).drop_last() =~= Seq::<char>::empty());
        assert(digits_value(Seq::<char>::empty()) == 0);
        assert(digits_value(dec(n)) == digits_value(dec(n).drop_last()) * 10 + digit_value(
            dec(n).last(),
        ));
    } else {
        lemma_dec(n / 10);
        let d = dec(n);
        assert(d.drop_last() =~= dec(n / 10));
        vstd::arithmetic::div_mod::lemma_fundamental_div_mod(n as int, 10);
        assert(digits_value(d) == digits_value(dec(n / 10)) * 10 + digit_value(digit_char(n % 10)));
        assert(digits_value(d) == n) by (nonlinear_arith)
            requires
                digits_value(d) == (n / 10) * 10 + n % 10,
                n == 10 * (n / 10) + n % 10,
        ;
        assert forall|i: int| 0 <= i < d.len() implies is_digit(#[trigger] d[i]) by {
            if i < d.len() - 1 {
                assert(d[i] == dec(n / 10)[i]);
            }
        }
    }
}

proof fn lemma_digits_lack(s: Seq<char>)
    requires
        all_digits(s),
    ensures
        lacks(s, ':'),
        lacks(s, ','),
        lacks(s, '|'),
        lacks(s, '+'),
{
}

/// Every port reads back from its decimal text.
pub proof fn lemma_port_round_trip(p: u16)
    ensures
        port_value(dec(p as nat)) == Some(p),
{
    lemma_dec(p as nat);
    lemma_digits_lack(dec(p as nat));
}

proof fn lemma_last_index_after(a: Seq<char>, d: Seq<char>)
    requires
        lacks(d, ':'),
    ensures
        last_index(a + seq![':'] + d, ':') == a.len(),
    decreases d.len(),
{
    let s = a + seq![':'] + d;
    if d.len() == 0 {
        assert(s.last() == ':');
    } else {
        assert(s.drop_last() =~= a + seq![':'] + d.drop_last());
        assert(s.last() == d.last());
        lemma_last_index_after(a, d.drop_last());
    }
}

/// An endpoint's text decodes to its address and port, whatever colons the
/// address holds.
pub proof fn lemma_endpoint_round_trip(address: Seq<char>, port: u16)
    ensures
        endpoint_spec(endpoint_text(address, port)) == Some((address, port)),
{
    let s = endpoint_text(address, port);
    lemma_dec(port as nat);
    lemma_digits_lack(dec(port as nat));
    lemma_last_index_after(address, dec(port as nat));
    assert(s.subrange(0, address.len() as int) =~= address);
    assert(s.subrange(address.len() as int + 1, s.len() as int) =~= dec(port as nat));
    lemma_port_round_trip(port);
}

proof fn lemma_split_lacking(s: Seq<char>, sep: char)
    requires
        lacks(s, sep),
    ensures
        split_spec(s, sep) == seq![s],
    decreases s.len(),
{
    if s.len() > 0 {
        lemma_split_lacking(s.drop_last(), sep);
        assert(s.drop_last().push(s.last()) =~= s);
        assert(split_spec(s, sep) =~= seq![s]);
    } else {
        assert(s =~= Seq::<char>::empty());
    }
}

proof fn lemma_split_concat(a: Seq<char>, sep: char, b: Seq<char>)
    ensures
        split_spec(a + seq![sep] + b, sep) == split_spec(a, sep) + split_spec(b, sep),
    decreases b.len(),
{
    let s = a + seq![sep] + b;
    if b.len() == 0 {
        assert(s.drop_last() =~= a);
        assert(split_spec(b, sep) =~= seq![Seq::<char>::empty()]);
        assert(split_spec(s, sep) =~= split_spec(a, sep) + split_spec(b, sep));
    } else {
        assert(s.drop_last() =~= a + seq![sep] + b.drop_last());
        lemma_split_concat(a, sep, b.drop_last());
        lemma_split_nonempty(b.drop_last(), sep);
        assert(split_spec(s, sep) =~= split_spec(a, sep) + split_spec(b, sep));
    }
}

proof fn lemma_endpoint_lacks(address: Seq<char>, port: u16, c: char)
    requires
        lacks(address, c),
        c != ':',
        !is_digit(c),
    ensures
        lacks(endpoint_text(address, port), c),
{
    lemma_dec(port as nat);
    let s = endpoint_text(address, port);
    assert forall|i: int| 0 <= i < s.len() implies #[trigger] s[i] != c by {
        if i > address.len() {
            assert(s[i] == dec(port as nat)[i - address.len() - 1]);
        }
    }
}

/// Whether an address can travel in a peer list unescaped.
pub open spec fn address_fits(a: Seq<char>) -> bool {
    lacks(a, ',') && lacks(a, '|')
}

/// Whether a record can travel in a peer list unescaped.
pub open spec fn record_fits(p: PeerView) -> bool {
    address_fits(p.remote_address) && address_fits(p.local_address)
}

proof fn lemma_record_split(p: PeerView)
    requires
        record_fits(p),
    ensures
        lacks(record_text(p), ','),
        split_spec(record_text(p), '|') == seq![
            endpoint_text(p.remote_address, p.remote_port),
            endpoint_text(p.local_address, p.local_port),
        ],
{
    let e1 = endpoint_text(p.remote_address, p.remote_port);
    let e2 = endpoint_text(p.local_address, p.local_port);
    lemma_endpoint_lacks(p.remote_address, p.remote_port, ',');
    lemma_endpoint_lacks(p.local_address, p.local_port, ',');
    lemma_endpoint_lacks(p.remote_address, p.remote_port, '|');
    lemma_endpoint_lacks(p.local_address, p.local_port, '|');
    let r = record_text(p);
    assert forall|i: int| 0 <= i < r.len() implies #[trigger] r[i] != ',' by {
        if i > e1.len() {
            assert(r[i] == e2[i - e1.len() - 1]);
        } else if i < e1.len() {
            assert(r[i] == e1[i]);
        }
    }
    lemma_split_concat(e1, '|', e2);
    lemma_split_lacking(e1, '|');
    lemma_split_lacking(e2, '|');
    assert(seq![e1] + seq![e2] =~= seq![e1, e2]);
}

proof fn lemma_entries(ps: Seq<PeerView>)
    requires
        ps.len() > 0,
        forall|i: int| 0 <= i < ps.len() ==> record_fits(#[trigger] ps[i]),
    ensures
        split_spec(encode_spec(ps), ',') == ps.map_values(|p: PeerView| record_text(p)),
    decreases ps.len(),
{
    lemma_record_split(ps.last());
    lemma_split_lacking(record_text(ps.last()), ',');
    if ps.len() == 1 {
        assert(ps.map_values(|p: PeerView| record_text(p)) =~= seq![record_text(ps[0])]);
    } else {
        let q = ps.drop_last();
        assert forall|i: int| 0 <= i < q.len() implies record_fits(#[trigger] q[i]) by {
            assert(q[i] == ps[i]);
        }
        lemma_entries(q);
        lemma_split_concat(encode_spec(q), ',', record_text(ps.last()));
        assert(ps.map_values(|p: PeerView| record_text(p)) =~= q.map_values(
            |p: PeerView| record_text(p),
        ).push(record_text(ps.last())));
    }
}

/// Decoding an encoded, non-empty peer list gives back each record, in order:
/// its observed endpoint as the first candidate and its reported endpoint as
/// the second, each of which decodes to the record's address and port.
pub proof fn lemma_peer_list_round_trip(ps: Seq<PeerView>)
    requires
        ps.len() > 0,
        forall|i: int| 0 <= i < ps.len() ==> record_fits(#[trigger] ps[i]),
    ensures
        decode_spec(encode_spec(ps)) is Some,
        decode_spec(encode_spec(ps))->0.len() == ps.len(),
        forall|i: int|
            #![trigger decode_spec(encode_spec(ps))->0[i]]
            0 <= i < ps.len() ==> {
                let (public, private) = decode_spec(encode_spec(ps))->0[i];
                &&& endpoint_spec(public) == Some((ps[i].remote_address, ps[i].remote_port))
                &&& endpoint_spec(private) == Some((ps[i].local_address, ps[i].local_port))
            },
{
    lemma_entries(ps);
    let entries = split_spec(encode_spec(ps), ',');
    assert(entries.len() == ps.len());
    assert forall|i: int| 0 <= i < entries.len() implies #[trigger] split_spec(
        entries[i],
        '|',
    ).len() == 2 by {
        assert(record_fits(ps[i]));
        lemma_record_split(ps[i]);
    }
    let d = decode_spec(encode_spec(ps))->0;
    assert forall|i: int| 0 <= i < ps.len() implies endpoint_spec((#[trigger] d[i]).0) == Some(
        (ps[i].remote_address, ps[i].remote_port),
    ) && endpoint_spec(d[i].1) == Some((ps[i].local_address, ps[i].local_port)) by {
        assert(record_fits(ps[i]));
        lemma_record_split(ps[i]);
        lemma_endpoint_round_trip(ps[i].remote_address, ps[i].remote_port);
        lemma_endpoint_round_trip(ps[i].local_address, ps[i].local_port);
    }
}

} // verus!
