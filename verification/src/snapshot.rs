use vstd::prelude::*;

use crate::board::Board;
use crate::edge::Edge;
use crate::idmap::IdMap;
use crate::node::Node;
use crate::tag::Tagger;
use vstd::arithmetic::div_mod::lemma_fundamental_div_mod;
use vstd::utf8::decode_utf8;
use vstd::utf8::encode_utf8;
use vstd::utf8::encode_utf8_decode_utf8;
use vstd::utf8::encode_utf8_valid_utf8;
use vstd::utf8::valid_utf8;

verus! {

// The snapshot is a line-oriented text encoding of the whole store. Every
// number stands on a line of its own as decimal digits; every string is a
// byte-count line followed by the raw bytes and a closing newline. The
// store is written as: node allocator (counter, recycle-list length, the
// recycled identifiers), node count, each node (identifier, incident-edge
// count, the incident-edge identifiers, name, notes), then the edge
// allocator, edge count, and each edge (identifier, endpoints, name, notes).

pub open spec fn is_digit(b: u8) -> bool {
    48 <= b && b <= 57
}

/// Decimal digits of `v`, most significant first.
pub open spec fn enc_nat(v: nat) -> Seq<u8>
    decreases v,
{
    if v < 10 {
        seq![(v + 48) as u8]
    } else {
        enc_nat(v / 10).push(((v % 10) + 48) as u8)
    }
}

/// A number line: decimal digits closed by a newline.
pub open spec fn enc_token(v: nat) -> Seq<u8> {
    enc_nat(v).push(10u8)
}

/// A string record: its byte count as a line, the raw bytes, a newline.
pub open spec fn enc_str(s: Seq<u8>) -> Seq<u8> {
    enc_token(s.len()) + s + seq![10u8]
}

/// One number line per identifier.
pub open spec fn enc_ids(s: Seq<i32>) -> Seq<u8>
    decreases s.len(),
{
    if s.len() == 0 {
        Seq::empty()
    } else {
        enc_token(s[0] as nat) + enc_ids(s.drop_first())
    }
}

pub open spec fn enc_tagger(t: Tagger) -> Seq<u8> {
    enc_token(t.n as nat) + enc_token(t.available_ids@.len()) + enc_ids(t.available_ids@)
}

pub open spec fn enc_node(id: i32, nd: Node) -> Seq<u8> {
    enc_token(id as nat) + enc_token(nd.edges@.len()) + enc_ids(nd.edges@) + enc_str(
        encode_utf8(nd.name@),
    ) + enc_str(encode_utf8(nd.notes@))
}

pub open spec fn enc_nodes(s: Seq<(i32, Node)>) -> Seq<u8>
    decreases s.len(),
{
    if s.len() == 0 {
        Seq::empty()
    } else {
        enc_node(s[0].0, s[0].1) + enc_nodes(s.drop_first())
    }
}

pub open spec fn enc_edge(id: i32, e: Edge) -> Seq<u8> {
    enc_token(id as nat) + enc_token(e.from as nat) + enc_token(e.to as nat) + enc_str(
        encode_utf8(e.name@),
    ) + enc_str(encode_utf8(e.notes@))
}

pub open spec fn enc_edges(s: Seq<(i32, Edge)>) -> Seq<u8>
    decreases s.len(),
{
    if s.len() == 0 {
        Seq::empty()
    } else {
        enc_edge(s[0].0, s[0].1) + enc_edges(s.drop_first())
    }
}

/// The complete snapshot of a store.
pub open spec fn spec_snapshot(b: Board) -> Seq<u8> {
    enc_tagger(b.node_tagger) + enc_token(b.nodes.entries@.len()) + enc_nodes(b.nodes.entries@)
        + enc_tagger(b.edge_tagger) + enc_token(b.edges.entries@.len()) + enc_edges(
        b.edges.entries@,
    )
}

/// Numeric value of a digit sequence.
pub open spec fn dec_digits(s: Seq<u8>) -> nat
    decreases s.len(),
{
    if s.len() == 0 {
        0
    } else {
        dec_digits(s.drop_last()) * 10 + (if is_digit(s.last()) {
            (s.last() - 48) as nat
        } else {
            0
        })
    }
}

/// The digit line of a number is non-empty, all digits, and reads back as
/// the number itself.
pub proof fn lemma_enc_nat(v: nat)
    ensures
        enc_nat(v).len() >= 1,
        forall|i: int| 0 <= i < enc_nat(v).len() ==> is_digit(#[trigger] enc_nat(v)[i]),
        dec_digits(enc_nat(v)) == v,
    decreases v,
{
    if v < 10 {
        let e = enc_nat(v);
        assert(e == seq![(v + 48) as u8]);
        assert(e.len() == 1);
        assert(e.drop_last() =~= Seq::<u8>::empty());
        assert(dec_digits(e.drop_last()) == 0);
        assert(e.last() == (v + 48) as u8);
        assert(is_digit(e.last()));
        assert(dec_digits(e) == 0 * 10 + (e.last() - 48));
        assert forall|i: int| 0 <= i < e.len() implies is_digit(#[trigger] e[i]) by {
            assert(e[i] == e.last());
        }
    } else {
        lemma_enc_nat(v / 10);
        lemma_fundamental_div_mod(v as int, 10);
        let e = enc_nat(v);
        assert(e.drop_last() =~= enc_nat(v / 10));
        assert(e.last() == ((v % 10) + 48) as u8);
        assert forall|i: int| 0 <= i < e.len() implies is_digit(#[trigger] e[i]) by {
            if i < e.len() - 1 {
                assert(e[i] == enc_nat(v / 10)[i]);
            }
        }
        assert(dec_digits(e) == dec_digits(enc_nat(v / 10)) * 10 + v % 10);
    }
}

/// Every prefix of a number's digit line reads back as at most the number.
pub proof fn lemma_enc_nat_prefix(v: nat, k: int)
    requires
        0 <= k <= enc_nat(v).len(),
    ensures
        dec_digits(enc_nat(v).take(k)) <= v,
    decreases v,
{
    if v < 10 {
        if k == 0 {
            assert(enc_nat(v).take(0) =~= Seq::<u8>::empty());
        } else {
            assert(enc_nat(v).take(k) =~= enc_nat(v));
            lemma_enc_nat(v);
        }
    } else {
        lemma_fundamental_div_mod(v as int, 10);
        if k <= enc_nat(v).len() - 1 {
            assert(enc_nat(v).take(k) =~= enc_nat(v / 10).take(k));
            lemma_enc_nat_prefix(v / 10, k);
            assert(v / 10 <= v);
        } else {
            assert(enc_nat(v).take(k) =~= enc_nat(v));
            lemma_enc_nat(v);
        }
    }
}

/// Appends the decimal digits of `v`.
fn push_nat(out: &mut Vec<u8>, v: usize)
    ensures
        final(out)@ == old(out)@ + enc_nat(v as nat),
    decreases v,
{
    if v < 10 {
        out.push((v as u8) + 48);
        proof {
            assert(final(out)@ =~= old(out)@ + enc_nat(v as nat));
        }
    } else {
        push_nat(out, v / 10);
        out.push(((v % 10) as u8) + 48);
        proof {
            assert(final(out)@ =~= old(out)@ + enc_nat(v as nat));
        }
    }
}

/// Appends a number line.
fn push_token(out: &mut Vec<u8>, v: usize)
    ensures
        final(out)@ == old(out)@ + enc_token(v as nat),
{
    push_nat(out, v);
    out.push(10u8);
    proof {
        assert(final(out)@ =~= old(out)@ + enc_token(v as nat));
    }
}

/// Appends a string record.
fn push_string(out: &mut Vec<u8>, s: &String)
    ensures
        final(out)@ == old(out)@ + enc_str(encode_utf8(s@)),
{
    let st: &str = &**s;
    let bytes: &[u8] = st.as_bytes();
    push_token(out, bytes.len());
    out.extend_from_slice(bytes);
    out.push(10u8);
    proof {
        assert(final(out)@ =~= old(out)@ + enc_str(encode_utf8(s@)));
    }
}

/// `enc_ids` grows by one number line per appended identifier.
proof fn lemma_enc_ids_push(s: Seq<i32>, x: i32)
    ensures
        enc_ids(s.push(x)) == enc_ids(s) + enc_token(x as nat),
    decreases s.len(),
{
    let p = s.push(x);
    assert(p.len() == s.len() + 1);
    if s.len() == 0 {
        assert(p[0] == x);
        assert(p.drop_first() =~= Seq::<i32>::empty());
        assert(enc_ids(p) == enc_token(p[0] as nat) + enc_ids(p.drop_first()));
        assert(enc_ids(p.drop_first()) == Seq::<u8>::empty());
        assert(enc_ids(s) == Seq::<u8>::empty());
        assert(enc_ids(p) =~= enc_ids(s) + enc_token(x as nat));
    } else {
        assert(p[0] == s[0]);
        assert(p.drop_first() =~= s.drop_first().push(x));
        lemma_enc_ids_push(s.drop_first(), x);
        assert(enc_ids(p) == enc_token(s[0] as nat) + (enc_ids(s.drop_first()) + enc_token(
            x as nat,
        )));
        assert(enc_ids(p) =~= enc_ids(s) + enc_token(x as nat));
    }
}

proof fn lemma_enc_nodes_push(s: Seq<(i32, Node)>, x: (i32, Node))
    ensures
        enc_nodes(s.push(x)) == enc_nodes(s) + enc_node(x.0, x.1),
    decreases s.len(),
{
    let p = s.push(x);
    assert(p.len() == s.len() + 1);
    if s.len() == 0 {
        assert(p[0] == x);
        assert(p.drop_first() =~= Seq::<(i32, Node)>::empty());
        assert(enc_nodes(p) == enc_node(p[0].0, p[0].1) + enc_nodes(p.drop_first()));
        assert(enc_nodes(p) =~= enc_nodes(s) + enc_node(x.0, x.1));
    } else {
        assert(p[0] == s[0]);
        assert(p.drop_first() =~= s.drop_first().push(x));
        lemma_enc_nodes_push(s.drop_first(), x);
        assert(enc_nodes(p) == enc_node(s[0].0, s[0].1) + (enc_nodes(s.drop_first()) + enc_node(
            x.0,
            x.1,
        )));
        assert(enc_nodes(p) =~= enc_nodes(s) + enc_node(x.0, x.1));
    }
}

proof fn lemma_enc_edges_push(s: Seq<(i32, Edge)>, x: (i32, Edge))
    ensures
        enc_edges(s.push(x)) == enc_edges(s) + enc_edge(x.0, x.1),
    decreases s.len(),
{
    let p = s.push(x);
    assert(p.len() == s.len() + 1);
    if s.len() == 0 {
        assert(p[0] == x);
        assert(p.drop_first() =~= Seq::<(i32, Edge)>::empty());
        assert(enc_edges(p) == enc_edge(p[0].0, p[0].1) + enc_edges(p.drop_first()));
        assert(enc_edges(p) =~= enc_edges(s) + enc_edge(x.0, x.1));
    } else {
        assert(p[0] == s[0]);
        assert(p.drop_first() =~= s.drop_first().push(x));
        lemma_enc_edges_push(s.drop_first(), x);
        assert(enc_edges(p) == enc_edge(s[0].0, s[0].1) + (enc_edges(s.drop_first()) + enc_edge(
            x.0,
            x.1,
        )));
        assert(enc_edges(p) =~= enc_edges(s) + enc_edge(x.0, x.1));
    }
}

/// Appends a tagger: counter line, recycle-list length line, one line per
/// recycled identifier.
#[verifier::loop_isolation(false)]
fn push_tagger(out: &mut Vec<u8>, t: &Tagger)
    requires
        t.wf(),
    ensures
        final(out)@ == old(out)@ + enc_tagger(*t),
{
    push_token(out, t.n as usize);
    push_token(out, t.available_ids.len());
    let mut i: usize = 0;
    while i < t.available_ids.len()
        invariant
            0 <= i <= t.available_ids@.len(),
            out@ == old(out)@ + enc_token(t.n as nat) + enc_token(t.available_ids@.len())
                + enc_ids(t.available_ids@.take(i as int)),
        decreases t.available_ids@.len() - i,
    {
        let id = t.available_ids[i];
        push_token(out, id as usize);
        proof {
            lemma_enc_ids_push(t.available_ids@.take(i as int), id);
            assert(t.available_ids@.take(i as int + 1) =~= t.available_ids@.take(i as int).push(
                id,
            ));
        }
        i = i + 1;
    }
    proof {
        assert(t.available_ids@.take(t.available_ids@.len() as int) =~= t.available_ids@);
    }
}


/// Appends one node record.
#[verifier::loop_isolation(false)]
fn push_node(out: &mut Vec<u8>, id: i32, nd: &Node)
    requires
        id >= 0,
        forall|j: int| 0 <= j < nd.edges@.len() ==> #[trigger] nd.edges@[j] >= 0,
    ensures
        final(out)@ == old(out)@ + enc_node(id, *nd),
{
    push_token(out, id as usize);
    push_token(out, nd.edges.len());
    let mut j: usize = 0;
    while j < nd.edges.len()
        invariant
            0 <= j <= nd.edges@.len(),
            out@ == old(out)@ + enc_token(id as nat) + enc_token(nd.edges@.len()) + enc_ids(
                nd.edges@.take(j as int),
            ),
        decreases nd.edges@.len() - j,
    {
        let eid = nd.edges[j];
        push_token(out, eid as usize);
        proof {
            lemma_enc_ids_push(nd.edges@.take(j as int), eid);
            assert(nd.edges@.take(j as int + 1) =~= nd.edges@.take(j as int).push(eid));
        }
        j = j + 1;
    }
    proof {
        assert(nd.edges@.take(nd.edges@.len() as int) =~= nd.edges@);
    }
    push_string(out, &nd.name);
    push_string(out, &nd.notes);
    proof {
        assert(final(out)@ =~= old(out)@ + enc_node(id, *nd));
    }
}

/// Appends one edge record.
fn push_edge(out: &mut Vec<u8>, id: i32, e: &Edge)
    requires
        id >= 0,
        e.from >= 0,
        e.to >= 0,
    ensures
        final(out)@ == old(out)@ + enc_edge(id, *e),
{
    push_token(out, id as usize);
    push_token(out, e.from as usize);
    push_token(out, e.to as usize);
    push_string(out, &e.name);
    push_string(out, &e.notes);
    proof {
        assert(final(out)@ =~= old(out)@ + enc_edge(id, *e));
    }
}

impl Board {
    /// Serializes the whole store: `decode` reads the result back as an
    /// equal store.
    #[verifier::loop_isolation(false)]
    pub fn encode(&self) -> (out: Vec<u8>)
        requires
            self.wf(),
        ensures
            out@ == spec_snapshot(*self),
    {
        let mut out: Vec<u8> = Vec::new();
        proof {
            assert(out@ =~= Seq::<u8>::empty());
        }
        push_tagger(&mut out, &self.node_tagger);
        push_token(&mut out, self.nodes.len());
        let mut i: usize = 0;
        while i < self.nodes.entries.len()
            invariant
                0 <= i <= self.nodes.entries@.len(),
                out@ == enc_tagger(self.node_tagger) + enc_token(self.nodes.entries@.len())
                    + enc_nodes(self.nodes.entries@.take(i as int)),
            decreases self.nodes.entries@.len() - i,
        {
            proof {
                self.nodes.lemma_at(i as int);
                assert(self.nodes@.dom() == self.node_tagger.live_ids());
                let id = self.nodes.entries@[i as int].0;
                let nd = self.nodes.entries@[i as int].1;
                assert forall|j: int| 0 <= j < nd.edges@.len() implies #[trigger] nd.edges@[j]
                    >= 0 by {
                    assert(self.nodes@[id].edges@.contains(nd.edges@[j]));
                    assert(self.edges@.dom().contains(nd.edges@[j]));
                    assert(self.edges@.dom() == self.edge_tagger.live_ids());
                }
            }
            let id = self.nodes.entries[i].0;
            push_node(&mut out, id, &self.nodes.entries[i].1);
            proof {
                lemma_enc_nodes_push(
                    self.nodes.entries@.take(i as int),
                    self.nodes.entries@[i as int],
                );
                assert(self.nodes.entries@.take(i as int + 1) =~= self.nodes.entries@.take(
                    i as int,
                ).push(self.nodes.entries@[i as int]));
            }
            i = i + 1;
        }
        proof {
            assert(self.nodes.entries@.take(self.nodes.entries@.len() as int)
                =~= self.nodes.entries@);
        }
        push_tagger(&mut out, &self.edge_tagger);
        push_token(&mut out, self.edges.len());
        let mut i: usize = 0;
        while i < self.edges.entries.len()
            invariant
                0 <= i <= self.edges.entries@.len(),
                out@ == enc_tagger(self.node_tagger) + enc_token(self.nodes.entries@.len())
                    + enc_nodes(self.nodes.entries@) + enc_tagger(self.edge_tagger) + enc_token(
                    self.edges.entries@.len(),
                ) + enc_edges(self.edges.entries@.take(i as int)),
            decreases self.edges.entries@.len() - i,
        {
            proof {
                self.edges.lemma_at(i as int);
                assert(self.edges@.dom() == self.edge_tagger.live_ids());
                assert(self.nodes@.dom() == self.node_tagger.live_ids());
                let e = self.edges.entries@[i as int].1;
                assert(e == self.edges@[self.edges.entries@[i as int].0]);
                assert(self.nodes@.dom().contains(e.from));
                assert(self.nodes@.dom().contains(e.to));
            }
            let id = self.edges.entries[i].0;
            push_edge(&mut out, id, &self.edges.entries[i].1);
            proof {
                lemma_enc_edges_push(
                    self.edges.entries@.take(i as int),
                    self.edges.entries@[i as int],
                );
                assert(self.edges.entries@.take(i as int + 1) =~= self.edges.entries@.take(
                    i as int,
                ).push(self.edges.entries@[i as int]));
            }
            i = i + 1;
        }
        proof {
            assert(self.edges.entries@.take(self.edges.entries@.len() as int)
                =~= self.edges.entries@);
            assert(out@ =~= spec_snapshot(*self));
        }
        out
    }
}

/// `x` appears in `b` at position `p`.
pub open spec fn starts_at(b: Seq<u8>, p: int, x: Seq<u8>) -> bool {
    0 <= p && p + x.len() <= b.len() && b.subrange(p, p + x.len()) == x
}

pub proof fn lemma_starts_at_cat(b: Seq<u8>, p: int, x: Seq<u8>, y: Seq<u8>)
    requires
        starts_at(b, p, x + y),
    ensures
        starts_at(b, p, x),
        starts_at(b, p + x.len(), y),
{
    let xy = x + y;
    assert forall|i: int| 0 <= i < xy.len() implies b[p + i] == xy[i] by {
        assert(b.subrange(p, p + xy.len())[i] == xy[i]);
    }
    assert(b.subrange(p, p + x.len()) =~= x);
    assert forall|i: int| 0 <= i < y.len() implies b[p + x.len() + i] == y[i] by {
        assert(b[p + (x.len() + i)] == xy[x.len() + i]);
    }
    assert(b.subrange(p + x.len(), p + x.len() + y.len()) =~= y);
}

/// Reads one number line: a non-empty digit run closed by a newline. On
/// exactly the encoding of a number that fits the machine, it returns that
/// number and the position after the newline.
#[verifier::loop_isolation(false)]
fn parse_token(bytes: &Vec<u8>, pos: usize) -> (r: Option<(usize, usize)>)
    ensures
        r matches Some(p) ==> pos < p.1 <= bytes@.len(),
        forall|v: nat| #![trigger enc_token(v)]
            v <= usize::MAX && starts_at(bytes@, pos as int, enc_token(v)) ==> r == Some(
                ((v as usize), ((pos + enc_token(v).len()) as usize)),
            ),
{
    let n = bytes.len();
    if pos >= n {
        proof {
            assert forall|v: nat|
                v <= usize::MAX && starts_at(bytes@, pos as int, enc_token(v)) implies false by {
                token_run_facts(bytes@, pos as int, v);
                lemma_enc_nat(v);
            }
        }
        return None;
    }
    let mut j: usize = pos;
    let mut acc: usize = 0;
    proof {
        assert(bytes@.subrange(pos as int, pos as int) =~= Seq::<u8>::empty());
    }
    loop
        invariant
            pos <= j <= n,
            n == bytes@.len(),
            forall|t: int| pos <= t < j ==> is_digit(#[trigger] bytes@[t]),
            acc == dec_digits(bytes@.subrange(pos as int, j as int)),
        decreases n - j,
    {
        if j < n {
            let b = bytes[j];
            if 48 <= b && b <= 57 {
                let d = (b - 48) as usize;
                if acc > (usize::MAX - d) / 10 {
                    proof {
                        lemma_fundamental_div_mod((usize::MAX - d) as int, 10);
                        assert(acc * 10 + d > usize::MAX);
                        assert forall|v: nat|
                            v <= usize::MAX && starts_at(
                                bytes@,
                                pos as int,
                                enc_token(v),
                            ) implies false by {
                            token_run_facts(bytes@, pos as int, v);
                            lemma_enc_nat(v);
                            let ln = enc_nat(v).len() as int;
                            assert(j < pos + ln) by {
                                if j >= pos + ln {
                                    assert(is_digit(bytes@[pos + ln]));
                                }
                            }
                            let k = j - pos;
                            assert(bytes@.subrange(pos as int, j as int) =~= enc_nat(v).take(k));
                            assert(bytes@.subrange(pos as int, j as int + 1) =~= enc_nat(v).take(
                                k + 1,
                            ));
                            assert(bytes@.subrange(pos as int, j as int + 1).drop_last()
                                =~= bytes@.subrange(pos as int, j as int));
                            assert(dec_digits(enc_nat(v).take(k + 1)) == acc * 10 + d);
                            lemma_enc_nat_prefix(v, k + 1);
                        }
                    }
                    return None;
                }
                acc = acc * 10 + d;
                proof {
                    assert(bytes@.subrange(pos as int, j as int + 1).drop_last() =~= bytes@.subrange(
                        pos as int,
                        j as int,
                    ));
                    assert(bytes@.subrange(pos as int, j as int + 1).last() == b);
                }
                j = j + 1;
            } else {
                if j > pos && b == 10 {
                    proof {
                        assert forall|v: nat|
                            v <= usize::MAX && starts_at(bytes@, pos as int, enc_token(v)) implies
                        acc == v && j + 1 == pos + enc_token(v).len() by {
                            token_run_facts(bytes@, pos as int, v);
                            lemma_enc_nat(v);
                            let ln = enc_nat(v).len() as int;
                            assert(j <= pos + ln) by {
                                if j > pos + ln {
                                    assert(is_digit(bytes@[pos + ln]));
                                }
                            }
                            assert(j >= pos + ln) by {
                                if j < pos + ln {
                                    assert(bytes@[j as int] == enc_nat(v)[j - pos]);
                                }
                            }
                            assert(bytes@.subrange(pos as int, j as int) =~= enc_nat(v));
                        }
                    }
                    return Some((acc, j + 1));
                } else {
                    proof {
                        assert forall|v: nat|
                            v <= usize::MAX && starts_at(
                                bytes@,
                                pos as int,
                                enc_token(v),
                            ) implies false by {
                            token_run_facts(bytes@, pos as int, v);
                            lemma_enc_nat(v);
                            let ln = enc_nat(v).len() as int;
                            assert(j <= pos + ln) by {
                                if j > pos + ln {
                                    assert(is_digit(bytes@[pos + ln]));
                                }
                            }
                            if j < pos + ln {
                                assert(bytes@[j as int] == enc_nat(v)[j - pos]);
                            } else {
                                assert(bytes@[j as int] == 10);
                            }
                        }
                    }
                    return None;
                }
            }
        } else {
            proof {
                assert forall|v: nat|
                    v <= usize::MAX && starts_at(bytes@, pos as int, enc_token(v)) implies false by {
                    token_run_facts(bytes@, pos as int, v);
                    lemma_enc_nat(v);
                    let ln = enc_nat(v).len() as int;
                    assert(pos + ln < n);
                    assert(is_digit(bytes@[pos + ln]));
                }
            }
            return None;
        }
    }
}

/// Unpacks what `starts_at(b, p, enc_token(v))` says byte by byte.
proof fn token_run_facts(b: Seq<u8>, p: int, v: nat)
    requires
        starts_at(b, p, enc_token(v)),
    ensures
        p + enc_nat(v).len() + 1 <= b.len(),
        forall|t: int|
            0 <= t < enc_nat(v).len() ==> b[p + t] == #[trigger] enc_nat(v)[t],
        b[p + enc_nat(v).len()] == 10,
        enc_token(v).len() == enc_nat(v).len() + 1,
{
    let tk = enc_token(v);
    assert forall|i: int| 0 <= i < tk.len() implies b[p + i] == tk[i] by {
        assert(b.subrange(p, p + tk.len())[i] == tk[i]);
    }
    assert forall|t: int| 0 <= t < enc_nat(v).len() implies b[p + t] == #[trigger] enc_nat(
        v,
    )[t] by {
        assert(tk[t] == enc_nat(v)[t]);
        assert(b[p + t] == tk[t]);
    }
    assert(b[p + enc_nat(v).len()] == tk[enc_nat(v).len() as int]);
}

/// Copies `count` bytes beginning at `start`.
#[verifier::loop_isolation(false)]
fn read_bytes(bytes: &Vec<u8>, start: usize, count: usize) -> (r: Option<Vec<u8>>)
    ensures
        start + count <= bytes@.len() ==> (r matches Some(v) && v@ == bytes@.subrange(
            start as int,
            start + count,
        )),
        r is Some ==> start + count <= bytes@.len(),
{
    let n = bytes.len();
    if count > n || start > n - count {
        return None;
    }
    let mut v: Vec<u8> = Vec::new();
    proof {
        assert(v@ =~= bytes@.subrange(start as int, start as int));
    }
    let mut i: usize = 0;
    while i < count
        invariant
            0 <= i <= count,
            start + count <= bytes@.len(),
            v@ == bytes@.subrange(start as int, start + i),
        decreases count - i,
    {
        v.push(bytes[start + i]);
        proof {
            assert(v@ =~= bytes@.subrange(start as int, start + i + 1));
        }
        i = i + 1;
    }
    Some(v)
}

/// Relies on String::from_utf8: it returns the string whose UTF-8 encoding
/// is the given bytes exactly when they are valid UTF-8, and refuses them
/// otherwise.
#[verifier::external_body]
fn string_from_utf8(v: Vec<u8>) -> (r: Option<String>)
    ensures
        match r {
            Some(s) => valid_utf8(v@) && encode_utf8(s@) == v@,
            None => !valid_utf8(v@),
        },
{
    match String::from_utf8(v) {
        Ok(s) => Some(s),
        Err(_) => None,
    }
}

/// Reads one string record. On exactly the encoding of a string it returns
/// an equal string and the position after the record.
fn parse_string(bytes: &Vec<u8>, pos: usize) -> (r: Option<(String, usize)>)
    ensures
        r matches Some(p) ==> pos < p.1 <= bytes@.len(),
        forall|cs: Seq<char>| #![trigger encode_utf8(cs)]
            starts_at(bytes@, pos as int, enc_str(encode_utf8(cs))) ==> (r matches Some(p) && p.0@
                == cs && p.1 == pos + enc_str(encode_utf8(cs)).len()),
{
    proof {
        lemma_vec_len_bound(bytes);
    }
    broadcast use encode_utf8_valid_utf8;
    broadcast use encode_utf8_decode_utf8;

    let n = bytes.len();
    proof {
        assert forall|cs: Seq<char>|
            starts_at(bytes@, pos as int, enc_str(encode_utf8(cs))) implies {
            let s = encode_utf8(cs);
            &&& starts_at(bytes@, pos as int, enc_token(s.len()))
            &&& starts_at(bytes@, pos + enc_token(s.len()).len(), s + seq![10u8])
            &&& s.len() <= usize::MAX
        } by {
            let s = encode_utf8(cs);
            assert(enc_str(s) =~= enc_token(s.len()) + (s + seq![10u8]));
            lemma_starts_at_cat(bytes@, pos as int, enc_token(s.len()), s + seq![10u8]);
        }
    }
    let t = parse_token(bytes, pos);
    match t {
        None => None,
        Some((len, p1)) => {
            let rb = read_bytes(bytes, p1, len);
            match rb {
                None => {
                    proof {
                        assert forall|cs: Seq<char>|
                            starts_at(
                                bytes@,
                                pos as int,
                                enc_str(encode_utf8(cs)),
                            ) implies false by {
                            let s = encode_utf8(cs);
                            assert(p1 + s.len() + 1 <= bytes@.len());
                        }
                    }
                    None
                },
                Some(content) => {
                    let p2 = p1 + len;
                    if p2 >= n {
                        proof {
                            assert forall|cs: Seq<char>|
                                starts_at(
                                    bytes@,
                                    pos as int,
                                    enc_str(encode_utf8(cs)),
                                ) implies false by {
                                let s = encode_utf8(cs);
                                assert(p1 + s.len() + 1 <= bytes@.len());
                            }
                        }
                        return None;
                    }
                    let nl = bytes[p2];
                    if nl != 10 {
                        proof {
                            assert forall|cs: Seq<char>|
                                starts_at(
                                    bytes@,
                                    pos as int,
                                    enc_str(encode_utf8(cs)),
                                ) implies false by {
                                let s = encode_utf8(cs);
                                let tail = s + seq![10u8];
                                assert(bytes@.subrange(
                                    p1 as int,
                                    p1 + tail.len(),
                                )[s.len() as int] == tail[s.len() as int]);
                            }
                        }
                        return None;
                    }
                    let st = string_from_utf8(content);
                    match st {
                        None => {
                            proof {
                                assert forall|cs: Seq<char>|
                                    starts_at(
                                        bytes@,
                                        pos as int,
                                        enc_str(encode_utf8(cs)),
                                    ) implies false by {
                                    let s = encode_utf8(cs);
                                    let tail = s + seq![10u8];
                                    assert(content@ =~= s) by {
                                        assert forall|i: int| 0 <= i < s.len() implies content@[i]
                                            == s[i] by {
                                            assert(bytes@.subrange(p1 as int, p1 + tail.len())[i]
                                                == tail[i]);
                                            assert(content@[i] == bytes@.subrange(
                                                p1 as int,
                                                p1 + len,
                                            )[i]);
                                        }
                                    }
                                }
                            }
                            None
                        },
                        Some(out) => {
                            proof {
                                assert forall|cs: Seq<char>|
                                    starts_at(bytes@, pos as int, enc_str(encode_utf8(cs))) implies
                                out@ == cs && p2 + 1 == pos + enc_str(encode_utf8(cs)).len() by {
                                    let s = encode_utf8(cs);
                                    let tail = s + seq![10u8];
                                    assert(content@ =~= s) by {
                                        assert forall|i: int| 0 <= i < s.len() implies content@[i]
                                            == s[i] by {
                                            assert(bytes@.subrange(p1 as int, p1 + tail.len())[i]
                                                == tail[i]);
                                            assert(content@[i] == bytes@.subrange(
                                                p1 as int,
                                                p1 + len,
                                            )[i]);
                                        }
                                    }
                                    assert(encode_utf8(out@) == s);
                                    assert(decode_utf8(encode_utf8(out@)) == out@);
                                    assert(decode_utf8(encode_utf8(cs)) == cs);
                                    assert(enc_str(s).len() == enc_token(s.len()).len() + s.len()
                                        + 1);
                                }
                            }
                            Some((out, p2 + 1))
                        },
                    }
                },
            }
        },
    }
}


/// Any vector's view fits the machine's length type.
proof fn lemma_vec_len_bound<T>(v: &Vec<T>)
    ensures
        v@.len() <= usize::MAX,
{
    assert(vstd::std_specs::vec::spec_vec_len(v) == v@.len());
}

/// Identifier sequences written to a snapshot are non-negative.
pub open spec fn ids_ok(s: Seq<i32>) -> bool {
    forall|j: int| 0 <= j < s.len() ==> s[j] >= 0
}

pub open spec fn same_node(a: Node, b: Node) -> bool {
    a.name@ == b.name@ && a.notes@ == b.notes@ && a.edges@ == b.edges@
}

pub open spec fn same_edge(a: Edge, b: Edge) -> bool {
    a.name@ == b.name@ && a.notes@ == b.notes@ && a.from == b.from && a.to == b.to
}

pub open spec fn same_tagger(a: Tagger, b: Tagger) -> bool {
    a.n == b.n && a.available_ids@ == b.available_ids@
}

/// Two stores hold the same node and edge records, in the same entry order,
/// and the same allocator state.
pub open spec fn same_content(a: Board, b: Board) -> bool {
    &&& same_tagger(a.node_tagger, b.node_tagger)
    &&& same_tagger(a.edge_tagger, b.edge_tagger)
    &&& a.nodes.entries@.len() == b.nodes.entries@.len()
    &&& forall|j: int|
        0 <= j < a.nodes.entries@.len() ==> (#[trigger] a.nodes.entries@[j]).0
            == b.nodes.entries@[j].0 && same_node(a.nodes.entries@[j].1, b.nodes.entries@[j].1)
    &&& a.edges.entries@.len() == b.edges.entries@.len()
    &&& forall|j: int|
        0 <= j < a.edges.entries@.len() ==> (#[trigger] a.edges.entries@[j]).0
            == b.edges.entries@[j].0 && same_edge(a.edges.entries@[j].1, b.edges.entries@[j].1)
}

/// Reads `count` identifier lines.
fn parse_ids(bytes: &Vec<u8>, pos: usize, count: usize) -> (r: Option<(Vec<i32>, usize)>)
    ensures
        r matches Some(p) ==> pos <= p.1 <= bytes@.len(),
        forall|s: Seq<i32>| #![trigger enc_ids(s)]
            s.len() == count && ids_ok(s) && starts_at(bytes@, pos as int, enc_ids(s)) ==> (
            r matches Some(p) && p.0@ == s && p.1 == pos + enc_ids(s).len()),
    decreases count,
{
    proof {
        lemma_vec_len_bound(bytes);
    }
    let n = bytes.len();
    if pos > n {
        proof {
            assert forall|s: Seq<i32>|
                s.len() == count && ids_ok(s) && starts_at(
                    bytes@,
                    pos as int,
                    enc_ids(s),
                ) implies false by {}
        }
        return None;
    }
    if count == 0 {
        let v: Vec<i32> = Vec::new();
        proof {
            assert forall|s: Seq<i32>|
                s.len() == count && ids_ok(s) && starts_at(bytes@, pos as int, enc_ids(s)) implies
            v@ == s && pos == pos + enc_ids(s).len() by {
                assert(v@ =~= s);
            }
        }
        return Some((v, pos));
    }
    let ghost unpack = |s: Seq<i32>| (enc_token(s[0] as nat), enc_ids(s.drop_first()));
    proof {
        assert forall|s: Seq<i32>|
            s.len() == count && ids_ok(s) && starts_at(bytes@, pos as int, enc_ids(s)) implies {
            &&& starts_at(bytes@, pos as int, enc_token(s[0] as nat))
            &&& starts_at(
                bytes@,
                pos + enc_token(s[0] as nat).len(),
                enc_ids(s.drop_first()),
            )
            &&& s[0] as nat <= usize::MAX
            &&& ids_ok(s.drop_first())
        } by {
            assert(enc_ids(s) == enc_token(s[0] as nat) + enc_ids(s.drop_first()));
            lemma_starts_at_cat(
                bytes@,
                pos as int,
                enc_token(s[0] as nat),
                enc_ids(s.drop_first()),
            );
            assert(s[0] >= 0);
            assert forall|j: int| 0 <= j < s.drop_first().len() implies s.drop_first()[j] >= 0 by {
                assert(s.drop_first()[j] == s[j + 1]);
            }
        }
    }
    let t = parse_token(bytes, pos);
    match t {
        None => {
            proof {
                assert forall|s: Seq<i32>|
                    s.len() == count && ids_ok(s) && starts_at(
                        bytes@,
                        pos as int,
                        enc_ids(s),
                    ) implies false by {}
            }
            None
        },
        Some((v, p1)) => {
            if v > (i32::MAX as usize) {
                proof {
                    assert forall|s: Seq<i32>|
                        s.len() == count && ids_ok(s) && starts_at(
                            bytes@,
                            pos as int,
                            enc_ids(s),
                        ) implies false by {}
                }
                return None;
            }
            let id = v as i32;
            let rest = parse_ids(bytes, p1, count - 1);
            match rest {
                None => {
                    proof {
                        assert forall|s: Seq<i32>|
                            s.len() == count && ids_ok(s) && starts_at(
                                bytes@,
                                pos as int,
                                enc_ids(s),
                            ) implies false by {}
                    }
                    None
                },
                Some((mut ids, p2)) => {
                    ids.insert(0, id);
                    proof {
                        assert forall|s: Seq<i32>|
                            s.len() == count && ids_ok(s) && starts_at(
                                bytes@,
                                pos as int,
                                enc_ids(s),
                            ) implies ids@ == s && p2 == pos + enc_ids(s).len() by {
                            assert(id == s[0]);
                            assert(ids@ =~= s);
                        }
                    }
                    Some((ids, p2))
                },
            }
        },
    }
}

/// Reads an allocator: counter line, recycle-list length line, the
/// recycled identifiers.
fn parse_tagger(bytes: &Vec<u8>, pos: usize) -> (r: Option<(Tagger, usize)>)
    ensures
        r matches Some(p) ==> pos <= p.1 <= bytes@.len(),
        forall|t: Tagger| #![trigger enc_tagger(t)]
            t.wf() && starts_at(bytes@, pos as int, enc_tagger(t)) ==> (r matches Some(p)
                && same_tagger(p.0, t) && p.1 == pos + enc_tagger(t).len()),
{
    proof {
        lemma_vec_len_bound(bytes);
    }
    proof {
        assert forall|t: Tagger|
            t.wf() && starts_at(bytes@, pos as int, enc_tagger(t)) implies {
            &&& starts_at(bytes@, pos as int, enc_token(t.n as nat))
            &&& starts_at(
                bytes@,
                pos + enc_token(t.n as nat).len(),
                enc_token(t.available_ids@.len()),
            )
            &&& starts_at(
                bytes@,
                pos + enc_token(t.n as nat).len() + enc_token(t.available_ids@.len()).len(),
                enc_ids(t.available_ids@),
            )
            &&& ids_ok(t.available_ids@)
        } by {
            assert(enc_tagger(t) =~= enc_token(t.n as nat) + (enc_token(t.available_ids@.len())
                + enc_ids(t.available_ids@)));
            lemma_starts_at_cat(
                bytes@,
                pos as int,
                enc_token(t.n as nat),
                enc_token(t.available_ids@.len()) + enc_ids(t.available_ids@),
            );
            lemma_starts_at_cat(
                bytes@,
                pos + enc_token(t.n as nat).len(),
                enc_token(t.available_ids@.len()),
                enc_ids(t.available_ids@),
            );
        }
    }
    let t0 = parse_token(bytes, pos);
    match t0 {
        None => {
            proof {
                assert forall|t: Tagger|
                    t.wf() && starts_at(bytes@, pos as int, enc_tagger(t)) implies false by {
                    assert(starts_at(bytes@, pos as int, enc_token(t.n as nat)));
                }
            }
            None
        },
        Some((nv, p1)) => {
            if nv > (i32::MAX as usize) {
                proof {
                    assert forall|t: Tagger|
                        t.wf() && starts_at(bytes@, pos as int, enc_tagger(t)) implies false by {
                        assert(starts_at(bytes@, pos as int, enc_token(t.n as nat)));
                    }
                }
                return None;
            }
            let t1 = parse_token(bytes, p1);
            match t1 {
                None => {
                    proof {
                        assert forall|t: Tagger|
                            t.wf() && starts_at(bytes@, pos as int, enc_tagger(t)) implies false by {
                            assert(starts_at(bytes@, pos as int, enc_token(t.n as nat)));
                            lemma_vec_len_bound(&t.available_ids);
                            assert(starts_at(
                                bytes@,
                                pos + enc_token(t.n as nat).len(),
                                enc_token(t.available_ids@.len()),
                            ));
                        }
                    }
                    None
                },
                Some((k, p2)) => {
                    let idsr = parse_ids(bytes, p2, k);
                    match idsr {
                        None => {
                            proof {
                                assert forall|t: Tagger|
                                    t.wf() && starts_at(
                                        bytes@,
                                        pos as int,
                                        enc_tagger(t),
                                    ) implies false by {
                                    assert(starts_at(bytes@, pos as int, enc_token(t.n as nat)));
                                    lemma_vec_len_bound(&t.available_ids);
                                    assert(starts_at(
                                        bytes@,
                                        pos + enc_token(t.n as nat).len(),
                                        enc_token(t.available_ids@.len()),
                                    ));
                                    assert(ids_ok(t.available_ids@));
                                    assert(starts_at(
                                        bytes@,
                                        pos + enc_token(t.n as nat).len() + enc_token(
                                            t.available_ids@.len(),
                                        ).len(),
                                        enc_ids(t.available_ids@),
                                    ));
                                }
                            }
                            None
                        },
                        Some((ids, p3)) => {
                            let tg = Tagger { n: nv as i32, available_ids: ids };
                            proof {
                                assert forall|t: Tagger|
                                    t.wf() && starts_at(bytes@, pos as int, enc_tagger(t)) implies
                                same_tagger(tg, t) && p3 == pos + enc_tagger(t).len() by {
                                    assert(starts_at(bytes@, pos as int, enc_token(t.n as nat)));
                                    assert(nv == t.n as nat);
                                    assert(p1 == pos + enc_token(t.n as nat).len());
                                    lemma_vec_len_bound(&t.available_ids);
                                    assert(starts_at(
                                        bytes@,
                                        p1 as int,
                                        enc_token(t.available_ids@.len()),
                                    ));
                                    assert(k == t.available_ids@.len());
                                    assert(p2 == p1 + enc_token(t.available_ids@.len()).len());
                                    assert(ids_ok(t.available_ids@));
                                    assert(starts_at(bytes@, p2 as int, enc_ids(t.available_ids@)));
                                    assert(ids@ == t.available_ids@);
                                    assert(p3 == p2 + enc_ids(t.available_ids@).len());
                                    assert(enc_tagger(t).len() == enc_token(t.n as nat).len()
                                        + enc_token(t.available_ids@.len()).len() + enc_ids(
                                        t.available_ids@,
                                    ).len());
                                }
                            }
                            Some((tg, p3))
                        },
                    }
                },
            }
        },
    }
}

/// Reads one node record.
fn parse_node(bytes: &Vec<u8>, pos: usize) -> (r: Option<((i32, Node), usize)>)
    ensures
        r matches Some(p) ==> pos <= p.1 <= bytes@.len(),
        forall|id: i32, nd: Node| #![trigger enc_node(id, nd)]
            id >= 0 && ids_ok(nd.edges@) && starts_at(bytes@, pos as int, enc_node(id, nd)) ==> (
            r matches Some(p) && p.0.0 == id && same_node(p.0.1, nd) && p.1 == pos + enc_node(
                id,
                nd,
            ).len()),
{
    proof {
        lemma_vec_len_bound(bytes);
    }
    let t0 = parse_token(bytes, pos);
    match t0 {
        None => {
            proof {
                assert forall|id: i32, nd: Node|
                    id >= 0 && ids_ok(nd.edges@) && starts_at(
                        bytes@,
                        pos as int,
                        enc_node(id, nd),
                    ) implies false by {
                    node_hints(bytes@, pos as int, id, nd);
                }
            }
            None
        },
        Some((idv, p1)) => {
            if idv > (i32::MAX as usize) {
                proof {
                assert forall|id: i32, nd: Node|
                    id >= 0 && ids_ok(nd.edges@) && starts_at(
                        bytes@,
                        pos as int,
                        enc_node(id, nd),
                    ) implies false by {
                    node_hints(bytes@, pos as int, id, nd);
                }
            }
                return None;
            }
            let t1 = parse_token(bytes, p1);
            match t1 {
                None => {
                    proof {
                assert forall|id: i32, nd: Node|
                    id >= 0 && ids_ok(nd.edges@) && starts_at(
                        bytes@,
                        pos as int,
                        enc_node(id, nd),
                    ) implies false by {
                    node_hints(bytes@, pos as int, id, nd);
                }
            }
                    None
                },
                Some((k, p2)) => {
                    let idsr = parse_ids(bytes, p2, k);
                    match idsr {
                        None => {
                            proof {
                assert forall|id: i32, nd: Node|
                    id >= 0 && ids_ok(nd.edges@) && starts_at(
                        bytes@,
                        pos as int,
                        enc_node(id, nd),
                    ) implies false by {
                    node_hints(bytes@, pos as int, id, nd);
                }
            }
                            None
                        },
                        Some((eids, p3)) => {
                            let namer = parse_string(bytes, p3);
                            match namer {
                                None => {
                                    proof {
                assert forall|id: i32, nd: Node|
                    id >= 0 && ids_ok(nd.edges@) && starts_at(
                        bytes@,
                        pos as int,
                        enc_node(id, nd),
                    ) implies false by {
                    node_hints(bytes@, pos as int, id, nd);
                }
            }
                                    None
                                },
                                Some((name, p4)) => {
                                    let notesr = parse_string(bytes, p4);
                                    match notesr {
                                        None => {
                                            proof {
                assert forall|id: i32, nd: Node|
                    id >= 0 && ids_ok(nd.edges@) && starts_at(
                        bytes@,
                        pos as int,
                        enc_node(id, nd),
                    ) implies false by {
                    node_hints(bytes@, pos as int, id, nd);
                }
            }
                                            None
                                        },
                                        Some((notes, p5)) => {
                                            let nd2 = Node { name, notes, edges: eids };
                                            proof {
                                                assert forall|id: i32, nd: Node|
                                                    id >= 0 && ids_ok(nd.edges@) && starts_at(
                                                        bytes@,
                                                        pos as int,
                                                        enc_node(id, nd),
                                                    ) implies (idv as i32) == id && same_node(
                                                    nd2,
                                                    nd,
                                                ) && p5 == pos + enc_node(id, nd).len() by {
                                                    node_hints(bytes@, pos as int, id, nd);
                                                }
                                            }
                                            Some(((idv as i32, nd2), p5))
                                        },
                                    }
                                },
                            }
                        },
                    }
                },
            }
        },
    }
}

/// Restates the component layout of one encoded node record.
proof fn node_hints(b: Seq<u8>, pos: int, id: i32, nd: Node)
    requires
        id >= 0,
        ids_ok(nd.edges@),
        starts_at(b, pos, enc_node(id, nd)),
    ensures
        nd.edges@.len() <= usize::MAX,
        starts_at(b, pos, enc_token(id as nat)),
        starts_at(b, pos + enc_token(id as nat).len(), enc_token(nd.edges@.len())),
        starts_at(
            b,
            pos + enc_token(id as nat).len() + enc_token(nd.edges@.len()).len(),
            enc_ids(nd.edges@),
        ),
        starts_at(
            b,
            pos + enc_token(id as nat).len() + enc_token(nd.edges@.len()).len() + enc_ids(
                nd.edges@,
            ).len(),
            enc_str(encode_utf8(nd.name@)),
        ),
        starts_at(
            b,
            pos + enc_token(id as nat).len() + enc_token(nd.edges@.len()).len() + enc_ids(
                nd.edges@,
            ).len() + enc_str(encode_utf8(nd.name@)).len(),
            enc_str(encode_utf8(nd.notes@)),
        ),
        enc_node(id, nd).len() == enc_token(id as nat).len() + enc_token(nd.edges@.len()).len()
            + enc_ids(nd.edges@).len() + enc_str(encode_utf8(nd.name@)).len() + enc_str(
            encode_utf8(nd.notes@),
        ).len(),
{
    lemma_vec_len_bound(&nd.edges);
    let a = enc_token(id as nat);
    let bb = enc_token(nd.edges@.len());
    let c = enc_ids(nd.edges@);
    let d = enc_str(encode_utf8(nd.name@));
    let e = enc_str(encode_utf8(nd.notes@));
    assert(enc_node(id, nd) =~= a + (bb + (c + (d + e))));
    lemma_starts_at_cat(b, pos, a, bb + (c + (d + e)));
    lemma_starts_at_cat(b, pos + a.len(), bb, c + (d + e));
    lemma_starts_at_cat(b, pos + a.len() + bb.len(), c, d + e);
    lemma_starts_at_cat(b, pos + a.len() + bb.len() + c.len(), d, e);
}

pub open spec fn node_entries_ok(s: Seq<(i32, Node)>) -> bool {
    forall|j: int|
        0 <= j < s.len() ==> (#[trigger] s[j]).0 >= 0 && ids_ok(s[j].1.edges@)
}

/// Reads `count` node records.
fn parse_nodes(bytes: &Vec<u8>, pos: usize, count: usize) -> (r: Option<(Vec<(i32, Node)>, usize)>)
    ensures
        r matches Some(p) ==> pos <= p.1 <= bytes@.len(),
        forall|s: Seq<(i32, Node)>| #![trigger enc_nodes(s)]
            s.len() == count && node_entries_ok(s) && starts_at(bytes@, pos as int, enc_nodes(s))
                ==> (r matches Some(p) && p.0@.len() == s.len() && (forall|j: int|
                0 <= j < s.len() ==> (#[trigger] p.0@[j]).0 == s[j].0 && same_node(
                    p.0@[j].1,
                    s[j].1,
                )) && p.1 == pos + enc_nodes(s).len()),
    decreases count,
{
    proof {
        lemma_vec_len_bound(bytes);
    }
    let n = bytes.len();
    if pos > n {
        return None;
    }
    if count == 0 {
        let v: Vec<(i32, Node)> = Vec::new();
        return Some((v, pos));
    }
    proof {
        assert forall|s: Seq<(i32, Node)>|
            s.len() == count && node_entries_ok(s) && starts_at(
                bytes@,
                pos as int,
                enc_nodes(s),
            ) implies {
            &&& starts_at(bytes@, pos as int, enc_node(s[0].0, s[0].1))
            &&& starts_at(
                bytes@,
                pos + enc_node(s[0].0, s[0].1).len(),
                enc_nodes(s.drop_first()),
            )
            &&& node_entries_ok(s.drop_first())
        } by {
            assert(enc_nodes(s) == enc_node(s[0].0, s[0].1) + enc_nodes(s.drop_first()));
            lemma_starts_at_cat(
                bytes@,
                pos as int,
                enc_node(s[0].0, s[0].1),
                enc_nodes(s.drop_first()),
            );
            assert forall|j: int|
                0 <= j < s.drop_first().len() implies (#[trigger] s.drop_first()[j]).0 >= 0
                    && ids_ok(s.drop_first()[j].1.edges@) by {
                assert(s.drop_first()[j] == s[j + 1]);
            }
        }
    }
    let h = parse_node(bytes, pos);
    match h {
        None => None,
        Some((entry, p1)) => {
            let rest = parse_nodes(bytes, p1, count - 1);
            match rest {
                None => None,
                Some((mut es, p2)) => {
                    let ghost es0 = es@;
                    es.insert(0, entry);
                    proof {
                        assert forall|s: Seq<(i32, Node)>|
                            s.len() == count && node_entries_ok(s) && starts_at(
                                bytes@,
                                pos as int,
                                enc_nodes(s),
                            ) implies es@.len() == s.len() && (forall|j: int|
                            0 <= j < s.len() ==> (#[trigger] es@[j]).0 == s[j].0 && same_node(
                                es@[j].1,
                                s[j].1,
                            )) && p2 == pos + enc_nodes(s).len() by {
                            assert forall|j: int|
                                0 <= j < s.len() implies (#[trigger] es@[j]).0 == s[j].0
                                    && same_node(es@[j].1, s[j].1) by {
                                if j > 0 {
                                    assert(es@[j] == es0[j - 1]) by {
                                        assert(es@ == es0.insert(0, entry));
                                    }
                                    assert(s.drop_first()[j - 1] == s[j]);
                                }
                            }
                        }
                    }
                    Some((es, p2))
                },
            }
        },
    }
}

/// Reads one edge record.
fn parse_edge(bytes: &Vec<u8>, pos: usize) -> (r: Option<((i32, Edge), usize)>)
    ensures
        r matches Some(p) ==> pos <= p.1 <= bytes@.len(),
        forall|id: i32, e: Edge| #![trigger enc_edge(id, e)]
            id >= 0 && e.from >= 0 && e.to >= 0 && starts_at(
                bytes@,
                pos as int,
                enc_edge(id, e),
            ) ==> (r matches Some(p) && p.0.0 == id && same_edge(p.0.1, e) && p.1 == pos
                + enc_edge(id, e).len()),
{
    proof {
        lemma_vec_len_bound(bytes);
    }
    let t0 = parse_token(bytes, pos);
    match t0 {
        None => {
            proof {
                assert forall|id: i32, e: Edge|
                    id >= 0 && e.from >= 0 && e.to >= 0 && starts_at(
                        bytes@,
                        pos as int,
                        enc_edge(id, e),
                    ) implies false by {
                    edge_hints(bytes@, pos as int, id, e);
                }
            }
            None
        },
        Some((idv, p1)) => {
            if idv > (i32::MAX as usize) {
                proof {
                assert forall|id: i32, e: Edge|
                    id >= 0 && e.from >= 0 && e.to >= 0 && starts_at(
                        bytes@,
                        pos as int,
                        enc_edge(id, e),
                    ) implies false by {
                    edge_hints(bytes@, pos as int, id, e);
                }
            }
                return None;
            }
            let t1 = parse_token(bytes, p1);
            match t1 {
                None => {
                    proof {
                assert forall|id: i32, e: Edge|
                    id >= 0 && e.from >= 0 && e.to >= 0 && starts_at(
                        bytes@,
                        pos as int,
                        enc_edge(id, e),
                    ) implies false by {
                    edge_hints(bytes@, pos as int, id, e);
                }
            }
                    None
                },
                Some((fv, p2)) => {
                    if fv > (i32::MAX as usize) {
                        proof {
                assert forall|id: i32, e: Edge|
                    id >= 0 && e.from >= 0 && e.to >= 0 && starts_at(
                        bytes@,
                        pos as int,
                        enc_edge(id, e),
                    ) implies false by {
                    edge_hints(bytes@, pos as int, id, e);
                }
            }
                        return None;
                    }
                    let t2 = parse_token(bytes, p2);
                    match t2 {
                        None => {
                            proof {
                assert forall|id: i32, e: Edge|
                    id >= 0 && e.from >= 0 && e.to >= 0 && starts_at(
                        bytes@,
                        pos as int,
                        enc_edge(id, e),
                    ) implies false by {
                    edge_hints(bytes@, pos as int, id, e);
                }
            }
                            None
                        },
                        Some((tv, p3)) => {
                            if tv > (i32::MAX as usize) {
                                proof {
                assert forall|id: i32, e: Edge|
                    id >= 0 && e.from >= 0 && e.to >= 0 && starts_at(
                        bytes@,
                        pos as int,
                        enc_edge(id, e),
                    ) implies false by {
                    edge_hints(bytes@, pos as int, id, e);
                }
            }
                                return None;
                            }
                            let namer = parse_string(bytes, p3);
                            match namer {
                                None => {
                                    proof {
                assert forall|id: i32, e: Edge|
                    id >= 0 && e.from >= 0 && e.to >= 0 && starts_at(
                        bytes@,
                        pos as int,
                        enc_edge(id, e),
                    ) implies false by {
                    edge_hints(bytes@, pos as int, id, e);
                }
            }
                                    None
                                },
                                Some((name, p4)) => {
                                    let notesr = parse_string(bytes, p4);
                                    match notesr {
                                        None => {
                                            proof {
                assert forall|id: i32, e: Edge|
                    id >= 0 && e.from >= 0 && e.to >= 0 && starts_at(
                        bytes@,
                        pos as int,
                        enc_edge(id, e),
                    ) implies false by {
                    edge_hints(bytes@, pos as int, id, e);
                }
            }
                                            None
                                        },
                                        Some((notes, p5)) => {
                                            let e2 = Edge {
                                                name,
                                                notes,
                                                from: fv as i32,
                                                to: tv as i32,
                                            };
                                            proof {
                                                assert forall|id: i32, e: Edge|
                                                    id >= 0 && e.from >= 0 && e.to >= 0
                                                        && starts_at(
                                                        bytes@,
                                                        pos as int,
                                                        enc_edge(id, e),
                                                    ) implies (idv as i32) == id && same_edge(
                                                    e2,
                                                    e,
                                                ) && p5 == pos + enc_edge(id, e).len() by {
                                                    edge_hints(bytes@, pos as int, id, e);
                                                }
                                            }
                                            Some(((idv as i32, e2), p5))
                                        },
                                    }
                                },
                            }
                        },
                    }
                },
            }
        },
    }
}

/// Restates the component layout of one encoded edge record.
proof fn edge_hints(b: Seq<u8>, pos: int, id: i32, e: Edge)
    requires
        id >= 0,
        e.from >= 0,
        e.to >= 0,
        starts_at(b, pos, enc_edge(id, e)),
    ensures
        starts_at(b, pos, enc_token(id as nat)),
        starts_at(b, pos + enc_token(id as nat).len(), enc_token(e.from as nat)),
        starts_at(
            b,
            pos + enc_token(id as nat).len() + enc_token(e.from as nat).len(),
            enc_token(e.to as nat),
        ),
        starts_at(
            b,
            pos + enc_token(id as nat).len() + enc_token(e.from as nat).len() + enc_token(
                e.to as nat,
            ).len(),
            enc_str(encode_utf8(e.name@)),
        ),
        starts_at(
            b,
            pos + enc_token(id as nat).len() + enc_token(e.from as nat).len() + enc_token(
                e.to as nat,
            ).len() + enc_str(encode_utf8(e.name@)).len(),
            enc_str(encode_utf8(e.notes@)),
        ),
        enc_edge(id, e).len() == enc_token(id as nat).len() + enc_token(e.from as nat).len()
            + enc_token(e.to as nat).len() + enc_str(encode_utf8(e.name@)).len() + enc_str(
            encode_utf8(e.notes@),
        ).len(),
{
    let a = enc_token(id as nat);
    let bb = enc_token(e.from as nat);
    let c = enc_token(e.to as nat);
    let d = enc_str(encode_utf8(e.name@));
    let f = enc_str(encode_utf8(e.notes@));
    assert(enc_edge(id, e) =~= a + (bb + (c + (d + f))));
    lemma_starts_at_cat(b, pos, a, bb + (c + (d + f)));
    lemma_starts_at_cat(b, pos + a.len(), bb, c + (d + f));
    lemma_starts_at_cat(b, pos + a.len() + bb.len(), c, d + f);
    lemma_starts_at_cat(b, pos + a.len() + bb.len() + c.len(), d, f);
}

pub open spec fn edge_entries_ok(s: Seq<(i32, Edge)>) -> bool {
    forall|j: int|
        0 <= j < s.len() ==> (#[trigger] s[j]).0 >= 0 && s[j].1.from >= 0 && s[j].1.to >= 0
}

/// Reads `count` edge records.
fn parse_edges(bytes: &Vec<u8>, pos: usize, count: usize) -> (r: Option<(Vec<(i32, Edge)>, usize)>)
    ensures
        r matches Some(p) ==> pos <= p.1 <= bytes@.len(),
        forall|s: Seq<(i32, Edge)>| #![trigger enc_edges(s)]
            s.len() == count && edge_entries_ok(s) && starts_at(bytes@, pos as int, enc_edges(s))
                ==> (r matches Some(p) && p.0@.len() == s.len() && (forall|j: int|
                0 <= j < s.len() ==> (#[trigger] p.0@[j]).0 == s[j].0 && same_edge(
                    p.0@[j].1,
                    s[j].1,
                )) && p.1 == pos + enc_edges(s).len()),
    decreases count,
{
    proof {
        lemma_vec_len_bound(bytes);
    }
    let n = bytes.len();
    if pos > n {
        return None;
    }
    if count == 0 {
        let v: Vec<(i32, Edge)> = Vec::new();
        return Some((v, pos));
    }
    proof {
        assert forall|s: Seq<(i32, Edge)>|
            s.len() == count && edge_entries_ok(s) && starts_at(
                bytes@,
                pos as int,
                enc_edges(s),
            ) implies {
            &&& starts_at(bytes@, pos as int, enc_edge(s[0].0, s[0].1))
            &&& starts_at(
                bytes@,
                pos + enc_edge(s[0].0, s[0].1).len(),
                enc_edges(s.drop_first()),
            )
            &&& edge_entries_ok(s.drop_first())
        } by {
            assert(enc_edges(s) == enc_edge(s[0].0, s[0].1) + enc_edges(s.drop_first()));
            lemma_starts_at_cat(
                bytes@,
                pos as int,
                enc_edge(s[0].0, s[0].1),
                enc_edges(s.drop_first()),
            );
            assert forall|j: int|
                0 <= j < s.drop_first().len() implies (#[trigger] s.drop_first()[j]).0 >= 0 && s.drop_first()[j].1.from
                    >= 0 && s.drop_first()[j].1.to >= 0 by {
                assert(s.drop_first()[j] == s[j + 1]);
            }
        }
    }
    let h = parse_edge(bytes, pos);
    match h {
        None => None,
        Some((entry, p1)) => {
            let rest = parse_edges(bytes, p1, count - 1);
            match rest {
                None => None,
                Some((mut es, p2)) => {
                    let ghost es0 = es@;
                    es.insert(0, entry);
                    proof {
                        assert forall|s: Seq<(i32, Edge)>|
                            s.len() == count && edge_entries_ok(s) && starts_at(
                                bytes@,
                                pos as int,
                                enc_edges(s),
                            ) implies es@.len() == s.len() && (forall|j: int|
                            0 <= j < s.len() ==> (#[trigger] es@[j]).0 == s[j].0 && same_edge(
                                es@[j].1,
                                s[j].1,
                            )) && p2 == pos + enc_edges(s).len() by {
                            assert forall|j: int|
                                0 <= j < s.len() implies (#[trigger] es@[j]).0 == s[j].0
                                    && same_edge(es@[j].1, s[j].1) by {
                                if j > 0 {
                                    assert(es@[j] == es0[j - 1]) by {
                                        assert(es@ == es0.insert(0, entry));
                                    }
                                    assert(s.drop_first()[j - 1] == s[j]);
                                }
                            }
                        }
                    }
                    Some((es, p2))
                },
            }
        },
    }
}


/// Restates the component layout of a whole snapshot, and the facts about a
/// well-formed store that the record parsers ask for.
proof fn snapshot_hints(bts: Seq<u8>, b: Board)
    requires
        b.wf(),
        bts == spec_snapshot(b),
    ensures
        b.node_tagger.wf(),
        b.edge_tagger.wf(),
        node_entries_ok(b.nodes.entries@),
        edge_entries_ok(b.edges.entries@),
        b.nodes.entries@.len() <= usize::MAX,
        b.edges.entries@.len() <= usize::MAX,
        starts_at(bts, 0, enc_tagger(b.node_tagger)),
        starts_at(bts, enc_tagger(b.node_tagger).len() as int, enc_token(b.nodes.entries@.len())),
        starts_at(
            bts,
            (enc_tagger(b.node_tagger).len() + enc_token(b.nodes.entries@.len()).len()) as int,
            enc_nodes(b.nodes.entries@),
        ),
        starts_at(
            bts,
            (enc_tagger(b.node_tagger).len() + enc_token(b.nodes.entries@.len()).len() + enc_nodes(
                b.nodes.entries@,
            ).len()) as int,
            enc_tagger(b.edge_tagger),
        ),
        starts_at(
            bts,
            (enc_tagger(b.node_tagger).len() + enc_token(b.nodes.entries@.len()).len() + enc_nodes(
                b.nodes.entries@,
            ).len() + enc_tagger(b.edge_tagger).len()) as int,
            enc_token(b.edges.entries@.len()),
        ),
        starts_at(
            bts,
            (enc_tagger(b.node_tagger).len() + enc_token(b.nodes.entries@.len()).len() + enc_nodes(
                b.nodes.entries@,
            ).len() + enc_tagger(b.edge_tagger).len() + enc_token(
                b.edges.entries@.len(),
            ).len()) as int,
            enc_edges(b.edges.entries@),
        ),
{
    lemma_vec_len_bound(&b.nodes.entries);
    lemma_vec_len_bound(&b.edges.entries);
    let a = enc_tagger(b.node_tagger);
    let c = enc_token(b.nodes.entries@.len());
    let d = enc_nodes(b.nodes.entries@);
    let e = enc_tagger(b.edge_tagger);
    let f = enc_token(b.edges.entries@.len());
    let g = enc_edges(b.edges.entries@);
    assert(bts =~= a + (c + (d + (e + (f + g)))));
    assert(starts_at(bts, 0, a + (c + (d + (e + (f + g)))))) by {
        assert(bts.subrange(0, bts.len() as int) =~= bts);
    }
    lemma_starts_at_cat(bts, 0, a, c + (d + (e + (f + g))));
    lemma_starts_at_cat(bts, a.len() as int, c, d + (e + (f + g)));
    lemma_starts_at_cat(bts, (a.len() + c.len()) as int, d, e + (f + g));
    lemma_starts_at_cat(bts, (a.len() + c.len() + d.len()) as int, e, f + g);
    lemma_starts_at_cat(bts, (a.len() + c.len() + d.len() + e.len()) as int, f, g);
    assert forall|j: int|
        0 <= j < b.nodes.entries@.len() implies (#[trigger] b.nodes.entries@[j]).0 >= 0 && ids_ok(
        b.nodes.entries@[j].1.edges@,
    ) by {
        b.nodes.lemma_at(j);
        let id = b.nodes.entries@[j].0;
        assert(b.nodes@.dom() == b.node_tagger.live_ids());
        let nd = b.nodes.entries@[j].1;
        assert forall|k: int| 0 <= k < nd.edges@.len() implies nd.edges@[k] >= 0 by {
            assert(b.nodes@[id].edges@.contains(nd.edges@[k]));
            assert(b.edges@.dom().contains(nd.edges@[k]));
            assert(b.edges@.dom() == b.edge_tagger.live_ids());
        }
    }
    assert forall|j: int|
        0 <= j < b.edges.entries@.len() implies (#[trigger] b.edges.entries@[j]).0 >= 0
            && b.edges.entries@[j].1.from >= 0 && b.edges.entries@[j].1.to >= 0 by {
        b.edges.lemma_at(j);
        let e2 = b.edges.entries@[j].1;
        assert(b.edges@.dom() == b.edge_tagger.live_ids());
        assert(b.nodes@.dom() == b.node_tagger.live_ids());
        assert(b.nodes@.dom().contains(e2.from));
        assert(b.nodes@.dom().contains(e2.to));
    }
}

impl Board {
    /// Reads a snapshot back. On exactly the encoding of a well-formed
    /// store it returns a store with the same content, so a snapshot
    /// written by `encode` always loads as an equal store.
    #[verifier::rlimit(80)]
    pub fn decode(bytes: &Vec<u8>) -> (r: Option<Board>)
        ensures
            forall|b: Board| #![trigger spec_snapshot(b)]
                b.wf() && bytes@ == spec_snapshot(b) ==> (r matches Some(b2) && same_content(
                    b2,
                    b,
                )),
    {
        proof {
            lemma_vec_len_bound(bytes);
        }
        let r0 = parse_tagger(bytes, 0);
        match r0 {
            None => {
                proof {
                    assert forall|b: Board|
                        b.wf() && bytes@ == spec_snapshot(b) implies false by {
                        snapshot_hints(bytes@, b);
                    }
                }
                None
            },
            Some((nt, p1)) => {
                let r1 = parse_token(bytes, p1);
                match r1 {
                    None => {
                        proof {
                            assert forall|b: Board|
                                b.wf() && bytes@ == spec_snapshot(b) implies false by {
                                snapshot_hints(bytes@, b);
                            }
                        }
                        None
                    },
                    Some((ncount, p2)) => {
                        let r2 = parse_nodes(bytes, p2, ncount);
                        match r2 {
                            None => {
                                proof {
                                    assert forall|b: Board|
                                        b.wf() && bytes@ == spec_snapshot(b) implies false by {
                                        snapshot_hints(bytes@, b);
                                    }
                                }
                                None
                            },
                            Some((nents, p3)) => {
                                let r3 = parse_tagger(bytes, p3);
                                match r3 {
                                    None => {
                                        proof {
                                            assert forall|b: Board|
                                                b.wf() && bytes@ == spec_snapshot(
                                                    b,
                                                ) implies false by {
                                                snapshot_hints(bytes@, b);
                                            }
                                        }
                                        None
                                    },
                                    Some((et, p4)) => {
                                        let r4 = parse_token(bytes, p4);
                                        match r4 {
                                            None => {
                                                proof {
                                                    assert forall|b: Board|
                                                        b.wf() && bytes@ == spec_snapshot(
                                                            b,
                                                        ) implies false by {
                                                        snapshot_hints(bytes@, b);
                                                    }
                                                }
                                                None
                                            },
                                            Some((ecount, p5)) => {
                                                let r5 = parse_edges(bytes, p5, ecount);
                                                match r5 {
                                                    None => {
                                                        proof {
                                                            assert forall|b: Board|
                                                                b.wf() && bytes@ == spec_snapshot(
                                                                    b,
                                                                ) implies false by {
                                                                snapshot_hints(bytes@, b);
                                                            }
                                                        }
                                                        None
                                                    },
                                                    Some((eents, p6)) => {
                                                        let b2 = Board {
                                                            nodes: IdMap { entries: nents },
                                                            node_tagger: nt,
                                                            edges: IdMap { entries: eents },
                                                            edge_tagger: et,
                                                        };
                                                        proof {
                                                            assert forall|b: Board|
                                                                b.wf() && bytes@ == spec_snapshot(
                                                                    b,
                                                                ) implies same_content(b2, b) by {
                                                                snapshot_hints(bytes@, b);
                                                            }
                                                        }
                                                        Some(b2)
                                                    },
                                                }
                                            },
                                        }
                                    },
                                }
                            },
                        }
                    },
                }
            },
        }
    }
}


/// Well-formedness carries across content equality: a store with the same
/// records and allocator state as a well-formed store is well-formed too.
/// With the round trip law this makes a decoded snapshot as usable as the
/// store it was written from.
pub proof fn lemma_same_content_wf(a: Board, b: Board)
    requires
        same_content(a, b),
        b.wf(),
    ensures
        a.wf(),
{
    assert(a.node_tagger.live_ids() =~= b.node_tagger.live_ids());
    assert(a.edge_tagger.live_ids() =~= b.edge_tagger.live_ids());
    assert(a.nodes.wf());
    assert(a.edges.wf());
    assert forall|k: i32| #[trigger] a.nodes.has_key(k) <==> b.nodes.has_key(k) by {
        if a.nodes.has_key(k) {
            let i = choose|i: int|
                0 <= i < a.nodes.entries@.len() && a.nodes.entries@[i].0 == k;
            assert(b.nodes.entries@[i].0 == k);
        }
        if b.nodes.has_key(k) {
            let i = choose|i: int|
                0 <= i < b.nodes.entries@.len() && b.nodes.entries@[i].0 == k;
            assert(a.nodes.entries@[i].0 == k);
        }
    }
    assert forall|k: i32| #[trigger] a.edges.has_key(k) <==> b.edges.has_key(k) by {
        if a.edges.has_key(k) {
            let i = choose|i: int|
                0 <= i < a.edges.entries@.len() && a.edges.entries@[i].0 == k;
            assert(b.edges.entries@[i].0 == k);
        }
        if b.edges.has_key(k) {
            let i = choose|i: int|
                0 <= i < b.edges.entries@.len() && b.edges.entries@[i].0 == k;
            assert(a.edges.entries@[i].0 == k);
        }
    }
    assert(a.nodes@.dom() =~= b.nodes@.dom());
    assert(a.edges@.dom() =~= b.edges@.dom());
    assert forall|k: i32| #[trigger] a.nodes@.dom().contains(k) implies same_node(
        a.nodes@[k],
        b.nodes@[k],
    ) by {
        a.nodes.lemma_key(k);
        let i = a.nodes.index_of_key(k);
        a.nodes.lemma_at(i);
        assert(b.nodes.entries@[i].0 == k);
        b.nodes.lemma_at(i);
    }
    assert forall|k: i32| #[trigger] a.edges@.dom().contains(k) implies same_edge(
        a.edges@[k],
        b.edges@[k],
    ) by {
        a.edges.lemma_key(k);
        let i = a.edges.index_of_key(k);
        a.edges.lemma_at(i);
        assert(b.edges.entries@[i].0 == k);
        b.edges.lemma_at(i);
    }
    assert(a.nodes@.dom() == a.node_tagger.live_ids());
    assert(a.edges@.dom() == a.edge_tagger.live_ids());
    assert forall|e: i32| #[trigger] a.edges@.dom().contains(e) implies a.edges@[e].from
        != a.edges@[e].to && a.nodes@.dom().contains(a.edges@[e].from)
        && a.nodes@.dom().contains(a.edges@[e].to) by {
        assert(b.edges@.dom().contains(e));
        assert(b.edges@[e].from != b.edges@[e].to);
    }
    assert forall|n: i32| #[trigger] a.nodes@.dom().contains(n) implies a.nodes@[
        n
    ].edges_no_dups() by {
        assert(b.nodes@[n].edges_no_dups());
        assert(a.nodes@[n].edges@ == b.nodes@[n].edges@);
    }
    assert forall|n: i32, e: i32|
        #![trigger a.nodes@[n].edges@.contains(e)]
        #![trigger a.nodes@.dom().contains(n), a.edges@.dom().contains(e)]
        a.nodes@.dom().contains(n) implies (a.nodes@[n].edges@.contains(e) <==> (
    a.edges@.dom().contains(e) && a.edges@[e].incident_to(n))) by {
        assert(b.nodes@.dom().contains(n));
        assert(b.nodes@[n].edges@.contains(e) <==> (b.edges@.dom().contains(e)
            && b.edges@[e].incident_to(n)));
        assert(a.nodes@[n].edges@ == b.nodes@[n].edges@);
        if a.edges@.dom().contains(e) {
            assert(a.edges@[e].incident_to(n) == b.edges@[e].incident_to(n));
        }
    }
}

} // verus!
