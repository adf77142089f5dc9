use vstd::prelude::*;

use crate::errors::{Error, ParseError};
use crate::util::bencode::{
    compare_keys, copy_bytes, decode as bdecode, dict_view, enc, key_lt, keys_sorted, lemma_dict_view,
    lemma_key_lt_at, lemma_keys_sorted_by_neighbours, lemma_list_view, lemma_wf_dict_all,
    lemma_wf_list_all, list_view, spec_decode, wf, BValue, Value, MAX_LENGTH, MAX_MAGNITUDE,
    lemma_canon_id, lemma_decode_encode, lemma_key_lt_irreflexive,
};

verus! {

// ---------------------------------------------------------------------------
// The words of the protocol, as bytes

pub open spec fn w_t() -> Seq<u8> { seq![116u8] }
pub open spec fn w_y() -> Seq<u8> { seq![121u8] }
pub open spec fn w_q() -> Seq<u8> { seq![113u8] }
pub open spec fn w_r() -> Seq<u8> { seq![114u8] }
pub open spec fn w_e() -> Seq<u8> { seq![101u8] }
pub open spec fn w_a() -> Seq<u8> { seq![97u8] }

/// `ping`
pub open spec fn w_ping() -> Seq<u8> { seq![112u8, 105, 110, 103] }
/// `find_node`
pub open spec fn w_find_node() -> Seq<u8> { seq![102u8, 105, 110, 100, 95, 110, 111, 100, 101] }
/// `get_peers`
pub open spec fn w_get_peers() -> Seq<u8> { seq![103u8, 101, 116, 95, 112, 101, 101, 114, 115] }
/// `announce_peer`
pub open spec fn w_announce_peer() -> Seq<u8> {
    seq![97u8, 110, 110, 111, 117, 110, 99, 101, 95, 112, 101, 101, 114]
}
/// `id`
pub open spec fn w_id() -> Seq<u8> { seq![105u8, 100] }
/// `target`
pub open spec fn w_target() -> Seq<u8> { seq![116u8, 97, 114, 103, 101, 116] }
/// `info_hash`
pub open spec fn w_info_hash() -> Seq<u8> { seq![105u8, 110, 102, 111, 95, 104, 97, 115, 104] }
/// `implied_port`
pub open spec fn w_implied_port() -> Seq<u8> {
    seq![105u8, 109, 112, 108, 105, 101, 100, 95, 112, 111, 114, 116]
}
/// `port`
pub open spec fn w_port() -> Seq<u8> { seq![112u8, 111, 114, 116] }
/// `token`
pub open spec fn w_token() -> Seq<u8> { seq![116u8, 111, 107, 101, 110] }
/// `nodes`
pub open spec fn w_nodes() -> Seq<u8> { seq![110u8, 111, 100, 101, 115] }
/// `values`
pub open spec fn w_values() -> Seq<u8> { seq![118u8, 97, 108, 117, 101, 115] }

// ---------------------------------------------------------------------------
// Messages

#[derive(Debug, PartialEq)]
pub enum DHTQuery {
    Ping { id: Vec<u8> },
    FindNode { id: Vec<u8>, target: Vec<u8> },
    GetPeers { id: Vec<u8>, info_hash: Vec<u8> },
    AnnouncePeer { id: Vec<u8>, impiled_port: u8, port: u16, info_hash: Vec<u8>, token: Vec<u8> },
}

#[derive(Debug, PartialEq)]
pub enum DHTResponse {
    ID { id: Vec<u8> },
    FindNode { id: Vec<u8>, nodes: Vec<u8> },
    GetPeers { id: Vec<u8>, token: Vec<u8>, values: Vec<Vec<u8>> },
}

/// A KRPC message; the first field of each variant is the transaction id.
#[derive(Debug, PartialEq)]
pub enum KRPC {
    Query(Vec<u8>, DHTQuery),
    Response(Vec<u8>, DHTResponse),
    Error(Vec<u8>, i64, Vec<u8>),
}

pub enum QueryV {
    Ping(Seq<u8>),
    FindNode(Seq<u8>, Seq<u8>),
    GetPeers(Seq<u8>, Seq<u8>),
    AnnouncePeer(Seq<u8>, u8, u16, Seq<u8>, Seq<u8>),
}

pub enum ResponseV {
    Id(Seq<u8>),
    FindNode(Seq<u8>, Seq<u8>),
    GetPeers(Seq<u8>, Seq<u8>, Seq<Seq<u8>>),
}

pub enum MsgV {
    Query(Seq<u8>, QueryV),
    Response(Seq<u8>, ResponseV),
    Error(Seq<u8>, int, Seq<u8>),
}

pub open spec fn bytes_views(l: Seq<Vec<u8>>) -> Seq<Seq<u8>> {
    l.map_values(|b: Vec<u8>| b@)
}

impl View for DHTQuery {
    type V = QueryV;

    open spec fn view(&self) -> QueryV {
        match self {
            DHTQuery::Ping { id } => QueryV::Ping(id@),
            DHTQuery::FindNode { id, target } => QueryV::FindNode(id@, target@),
            DHTQuery::GetPeers { id, info_hash } => QueryV::GetPeers(id@, info_hash@),
            DHTQuery::AnnouncePeer { id, impiled_port, port, info_hash, token } => QueryV::AnnouncePeer(
                id@,
                *impiled_port,
                *port,
                info_hash@,
                token@,
            ),
        }
    }
}

impl View for DHTResponse {
    type V = ResponseV;

    open spec fn view(&self) -> ResponseV {
        match self {
            DHTResponse::ID { id } => ResponseV::Id(id@),
            DHTResponse::FindNode { id, nodes } => ResponseV::FindNode(id@, nodes@),
            DHTResponse::GetPeers { id, token, values } => ResponseV::GetPeers(
                id@,
                token@,
                bytes_views(values@),
            ),
        }
    }
}

impl View for KRPC {
    type V = MsgV;

    open spec fn view(&self) -> MsgV {
        match self {
            KRPC::Query(t, q) => MsgV::Query(t@, q@),
            KRPC::Response(t, r) => MsgV::Response(t@, r@),
            KRPC::Error(t, c, m) => MsgV::Error(t@, *c as int, m@),
        }
    }
}

// ---------------------------------------------------------------------------
// From bencoded values to messages

/// The value bound to `k` in the entries `d` (the first such entry).
pub open spec fn lookup(d: Seq<(Seq<u8>, BValue)>, k: Seq<u8>) -> Option<BValue>
    decreases d.len(),
{
    if d.len() == 0 {
        None
    } else if d[0].0 == k {
        Some(d[0].1)
    } else {
        lookup(d.drop_first(), k)
    }
}

pub open spec fn as_str(o: Option<BValue>) -> Option<Seq<u8>> {
    match o {
        Some(BValue::Str(b)) => Some(b),
        _ => None,
    }
}

pub open spec fn as_int(o: Option<BValue>) -> Option<int> {
    match o {
        Some(BValue::Int(i)) => Some(i),
        _ => None,
    }
}

pub open spec fn as_dict(o: Option<BValue>) -> Option<Seq<(Seq<u8>, BValue)>> {
    match o {
        Some(BValue::Dict(d)) => Some(d),
        _ => None,
    }
}

/// A list whose items are all byte strings, as those strings.
pub open spec fn as_str_list(o: Option<BValue>) -> Option<Seq<Seq<u8>>> {
    match o {
        Some(BValue::List(l)) => if forall|i: int| 0 <= i < l.len() ==> (#[trigger] l[i]) is Str {
            Some(l.map_values(|x: BValue| x->Str_0))
        } else {
            None
        },
        _ => None,
    }
}

pub open spec fn str_field(d: Seq<(Seq<u8>, BValue)>, k: Seq<u8>) -> Option<Seq<u8>> {
    as_str(lookup(d, k))
}

/// The arguments `a` of a query of method `q`.
pub open spec fn query_args(q: Seq<u8>, a: Seq<(Seq<u8>, BValue)>) -> Option<QueryV> {
    let id = str_field(a, w_id());
    if id is None {
        None
    } else if q == w_ping() {
        Some(QueryV::Ping(id->0))
    } else if q == w_find_node() {
        match str_field(a, w_target()) {
            Some(target) => Some(QueryV::FindNode(id->0, target)),
            None => None,
        }
    } else if q == w_get_peers() {
        match str_field(a, w_info_hash()) {
            Some(h) => Some(QueryV::GetPeers(id->0, h)),
            None => None,
        }
    } else if q == w_announce_peer() {
        let h = str_field(a, w_info_hash());
        let token = str_field(a, w_token());
        let implied = as_int(lookup(a, w_implied_port()));
        let port = as_int(lookup(a, w_port()));
        if h is Some && token is Some && implied is Some && port is Some && 0 <= implied->0 <= 1
            && 0 <= port->0 <= 65535 {
            Some(QueryV::AnnouncePeer(id->0, implied->0 as u8, port->0 as u16, h->0, token->0))
        } else {
            None
        }
    } else {
        None
    }
}

/// The body `r` of a response, told apart by the fields it holds.
pub open spec fn response_body(r: Seq<(Seq<u8>, BValue)>) -> Option<ResponseV> {
    let id = str_field(r, w_id());
    if id is None {
        None
    } else if lookup(r, w_values()) is Some {
        let values = as_str_list(lookup(r, w_values()));
        let token = str_field(r, w_token());
        if values is Some && token is Some {
            Some(ResponseV::GetPeers(id->0, token->0, values->0))
        } else {
            None
        }
    } else if lookup(r, w_nodes()) is Some {
        match str_field(r, w_nodes()) {
            Some(nodes) => Some(ResponseV::FindNode(id->0, nodes)),
            None => None,
        }
    } else {
        Some(ResponseV::Id(id->0))
    }
}

pub open spec fn query_of(t: Seq<u8>, d: Seq<(Seq<u8>, BValue)>) -> Option<MsgV> {
    match (str_field(d, w_q()), as_dict(lookup(d, w_a()))) {
        (Some(q), Some(a)) => match query_args(q, a) {
            Some(qv) => Some(MsgV::Query(t, qv)),
            None => None,
        },
        _ => None,
    }
}

pub open spec fn response_of(t: Seq<u8>, d: Seq<(Seq<u8>, BValue)>) -> Option<MsgV> {
    match as_dict(lookup(d, w_r())) {
        Some(r) => match response_body(r) {
            Some(rv) => Some(MsgV::Response(t, rv)),
            None => None,
        },
        None => None,
    }
}

/// An error message: `e` holds exactly an integer code and a byte string.
pub open spec fn error_of(t: Seq<u8>, d: Seq<(Seq<u8>, BValue)>) -> Option<MsgV> {
    match lookup(d, w_e()) {
        Some(BValue::List(l)) => if l.len() == 2 && l[0] is Int && l[1] is Str {
            Some(MsgV::Error(t, l[0]->Int_0, l[1]->Str_0))
        } else {
            None
        },
        _ => None,
    }
}

/// The message that a decoded value carries, if it is a valid KRPC message:
/// a dictionary with a non-empty `t`, and a `y` that selects the kind.
pub open spec fn krpc_of(v: BValue) -> Option<MsgV> {
    match v {
        BValue::Dict(d) => {
            let t = str_field(d, w_t());
            let y = str_field(d, w_y());
            if t is None || y is None || t->0.len() == 0 {
                None
            } else if y->0 == w_q() {
                query_of(t->0, d)
            } else if y->0 == w_r() {
                response_of(t->0, d)
            } else if y->0 == w_e() {
                error_of(t->0, d)
            } else {
                None
            }
        },
        _ => None,
    }
}

/// What the bytes `s` decode to as a KRPC message.
pub open spec fn spec_krpc_decode(s: Seq<u8>) -> Result<MsgV, Error> {
    match spec_decode(s) {
        Ok(v) => match krpc_of(v) {
            Some(m) => Ok(m),
            None => Err(Error::InvalidKRPC),
        },
        Err(e) => Err(Error::BencodeParseError(e)),
    }
}

// ---------------------------------------------------------------------------
// Reading fields

pub open spec fn opt_bytes(o: Option<Vec<u8>>) -> Option<Seq<u8>> {
    match o {
        Some(b) => Some(b@),
        None => None,
    }
}

/// `r` is the outcome that `o` calls for: the message, or `InvalidKRPC`.
pub open spec fn outcome(r: Result<KRPC, Error>, o: Option<MsgV>) -> bool {
    match o {
        Some(m) => r matches Ok(x) && x@ == m,
        None => r == Err::<KRPC, Error>(Error::InvalidKRPC),
    }
}

fn field<'a>(d: &'a Vec<(Vec<u8>, Value)>, k: &[u8]) -> (r: Option<&'a Value>)
    ensures
        match lookup(dict_view(d@), k@) {
            Some(v) => r matches Some(x) && x@ == v,
            None => r is None,
        },
{
    proof {
        lemma_dict_view(d@);
    }
    let ghost dv = dict_view(d@);
    let mut i: usize = 0;
    assert(dv.skip(0) =~= dv);
    while i < d.len()
        invariant
            i <= d@.len(),
            dv == dict_view(d@),
            dv.len() == d@.len(),
            forall|j: int| 0 <= j < d@.len() ==> #[trigger] dv[j] == (d@[j].0@, d@[j].1@),
            lookup(dv, k@) == lookup(dv.skip(i as int), k@),
        decreases d@.len() - i,
    {
        assert(dv.skip(i as int)[0] == dv[i as int]);
        if compare_keys(d[i].0.as_slice(), k) == 0 {
            return Some(&d[i].1);
        }
        assert(dv.skip(i as int).drop_first() =~= dv.skip(i + 1));
        i += 1;
    }
    None
}

fn bytes_field(d: &Vec<(Vec<u8>, Value)>, k: &[u8]) -> (r: Option<Vec<u8>>)
    ensures
        opt_bytes(r) == str_field(dict_view(d@), k@),
{
    match field(d, k) {
        Some(Value::String(b)) => Some(copy_bytes(b.as_slice())),
        _ => None,
    }
}

fn int_field(d: &Vec<(Vec<u8>, Value)>, k: &[u8]) -> (r: Option<i64>)
    ensures
        match as_int(lookup(dict_view(d@), k@)) {
            Some(i) => r == Some(i as i64) && i == i as i64,
            None => r is None,
        },
{
    match field(d, k) {
        Some(Value::Integer(i)) => Some(*i),
        _ => None,
    }
}

fn dict_field<'a>(d: &'a Vec<(Vec<u8>, Value)>, k: &[u8]) -> (r: Option<&'a Vec<(Vec<u8>, Value)>>)
    ensures
        match as_dict(lookup(dict_view(d@), k@)) {
            Some(x) => r matches Some(y) && dict_view(y@) == x,
            None => r is None,
        },
{
    match field(d, k) {
        Some(Value::Dict(e)) => Some(e),
        _ => None,
    }
}

fn same_bytes(a: &[u8], b: &[u8]) -> (r: bool)
    ensures
        r == (a@ == b@),
{
    compare_keys(a, b) == 0
}

/// A list of byte strings as those strings; `None` if an item is not one.
fn str_list(l: &Vec<Value>) -> (r: Option<Vec<Vec<u8>>>)
    ensures
        match as_str_list(Some(BValue::List(list_view(l@)))) {
            Some(x) => r matches Some(y) && bytes_views(y@) == x,
            None => r is None,
        },
{
    proof {
        lemma_list_view(l@);
    }
    let ghost lv = list_view(l@);
    let mut out: Vec<Vec<u8>> = Vec::new();
    let mut i: usize = 0;
    while i < l.len()
        invariant
            i <= l@.len(),
            lv == list_view(l@),
            lv.len() == l@.len(),
            forall|j: int| 0 <= j < l@.len() ==> #[trigger] lv[j] == l@[j]@,
            out@.len() == i,
            forall|j: int| 0 <= j < i ==> (#[trigger] lv[j]) is Str && out@[j]@ == lv[j]->Str_0,
        decreases l@.len() - i,
    {
        match &l[i] {
            Value::String(b) => {
                out.push(copy_bytes(b.as_slice()));
            },
            _ => {
                assert(!(lv[i as int] is Str));
                return None;
            },
        }
        i += 1;
    }
    assert(bytes_views(out@) =~= lv.map_values(|x: BValue| x->Str_0));
    Some(out)
}

impl KRPC {
    fn decode_query(t: Vec<u8>, d: &Vec<(Vec<u8>, Value)>) -> (r: Result<Self, Error>)
        ensures
            outcome(r, query_of(t@, dict_view(d@))),
    {
        let kq = [113u8];
        let ka = [97u8];
        let kid = [105u8, 100];
        proof {
            assert(kq@ =~= w_q());
            assert(ka@ =~= w_a());
            assert(kid@ =~= w_id());
        }
        let q = match bytes_field(d, &kq) {
            Some(q) => q,
            None => {
                return Err(Error::InvalidKRPC);
            },
        };
        let a = match dict_field(d, &ka) {
            Some(a) => a,
            None => {
                return Err(Error::InvalidKRPC);
            },
        };
        let id = match bytes_field(a, &kid) {
            Some(id) => id,
            None => {
                return Err(Error::InvalidKRPC);
            },
        };
        let ping = [112u8, 105, 110, 103];
        let find_node = [102u8, 105, 110, 100, 95, 110, 111, 100, 101];
        let get_peers = [103u8, 101, 116, 95, 112, 101, 101, 114, 115];
        let announce_peer = [97u8, 110, 110, 111, 117, 110, 99, 101, 95, 112, 101, 101, 114];
        let ktarget = [116u8, 97, 114, 103, 101, 116];
        let khash = [105u8, 110, 102, 111, 95, 104, 97, 115, 104];
        let ktoken = [116u8, 111, 107, 101, 110];
        let kimplied = [105u8, 109, 112, 108, 105, 101, 100, 95, 112, 111, 114, 116];
        let kport = [112u8, 111, 114, 116];
        proof {
            assert(ping@ =~= w_ping());
            assert(find_node@ =~= w_find_node());
            assert(get_peers@ =~= w_get_peers());
            assert(announce_peer@ =~= w_announce_peer());
            assert(ktarget@ =~= w_target());
            assert(khash@ =~= w_info_hash());
            assert(ktoken@ =~= w_token());
            assert(kimplied@ =~= w_implied_port());
            assert(kport@ =~= w_port());
        }
        if same_bytes(q.as_slice(), &ping) {
            Ok(KRPC::Query(t, DHTQuery::Ping { id }))
        } else if same_bytes(q.as_slice(), &find_node) {
            match bytes_field(a, &ktarget) {
                Some(target) => Ok(KRPC::Query(t, DHTQuery::FindNode { id, target })),
                None => Err(Error::InvalidKRPC),
            }
        } else if same_bytes(q.as_slice(), &get_peers) {
            match bytes_field(a, &khash) {
                Some(info_hash) => Ok(KRPC::Query(t, DHTQuery::GetPeers { id, info_hash })),
                None => Err(Error::InvalidKRPC),
            }
        } else if same_bytes(q.as_slice(), &announce_peer) {
            let info_hash = bytes_field(a, &khash);
            let token = bytes_field(a, &ktoken);
            let implied = int_field(a, &kimplied);
            let port = int_field(a, &kport);
            match (info_hash, token, implied, port) {
                (Some(info_hash), Some(token), Some(implied), Some(port)) => {
                    if 0 <= implied && implied <= 1 && 0 <= port && port <= 65535 {
                        Ok(
                            KRPC::Query(
                                t,
                                DHTQuery::AnnouncePeer {
                                    id,
                                    impiled_port: implied as u8,
                                    port: port as u16,
                                    info_hash,
                                    token,
                                },
                            ),
                        )
                    } else {
                        Err(Error::InvalidKRPC)
                    }
                },
                _ => Err(Error::InvalidKRPC),
            }
        } else {
            Err(Error::InvalidKRPC)
        }
    }

    fn decode_response(t: Vec<u8>, d: &Vec<(Vec<u8>, Value)>) -> (r: Result<Self, Error>)
        ensures
            outcome(r, response_of(t@, dict_view(d@))),
    {
        let kr = [114u8];
        let kid = [105u8, 100];
        let kvalues = [118u8, 97, 108, 117, 101, 115];
        let knodes = [110u8, 111, 100, 101, 115];
        let ktoken = [116u8, 111, 107, 101, 110];
        proof {
            assert(kr@ =~= w_r());
            assert(kid@ =~= w_id());
            assert(kvalues@ =~= w_values());
            assert(knodes@ =~= w_nodes());
            assert(ktoken@ =~= w_token());
        }
        let body = match dict_field(d, &kr) {
            Some(body) => body,
            None => {
                return Err(Error::InvalidKRPC);
            },
        };
        let id = match bytes_field(body, &kid) {
            Some(id) => id,
            None => {
                return Err(Error::InvalidKRPC);
            },
        };
        match field(body, &kvalues) {
            Some(v) => {
                let values = match v {
                    Value::List(l) => str_list(l),
                    _ => None,
                };
                let token = bytes_field(body, &ktoken);
                match (values, token) {
                    (Some(values), Some(token)) => Ok(
                        KRPC::Response(t, DHTResponse::GetPeers { id, token, values }),
                    ),
                    _ => Err(Error::InvalidKRPC),
                }
            },
            None => match field(body, &knodes) {
                Some(Value::String(n)) => {
                    let nodes = copy_bytes(n.as_slice());
                    Ok(KRPC::Response(t, DHTResponse::FindNode { id, nodes }))
                },
                Some(_) => Err(Error::InvalidKRPC),
                None => Ok(KRPC::Response(t, DHTResponse::ID { id })),
            },
        }
    }

    fn decode_error(t: Vec<u8>, d: &Vec<(Vec<u8>, Value)>) -> (r: Result<Self, Error>)
        ensures
            outcome(r, error_of(t@, dict_view(d@))),
    {
        let ke = [101u8];
        proof {
            assert(ke@ =~= w_e());
        }
        let f = field(d, &ke);
        match f {
            Some(Value::List(l)) => {
                proof {
                    lemma_list_view(l@);
                    assert(lookup(dict_view(d@), w_e()) == Some(BValue::List(list_view(l@))));
                }
                if l.len() == 2 {
                    match (&l[0], &l[1]) {
                        (Value::Integer(code), Value::String(m)) => {
                            let message = copy_bytes(m.as_slice());
                            assert(list_view(l@)[0] == BValue::Int(*code as int));
                            assert(list_view(l@)[1] == BValue::Str(m@));
                            Ok(KRPC::Error(t, *code, message))
                        },
                        _ => {
                            assert(!(list_view(l@)[0] is Int && list_view(l@)[1] is Str));
                            Err(Error::InvalidKRPC)
                        },
                    }
                } else {
                    Err(Error::InvalidKRPC)
                }
            },
            _ => {
                assert(!(lookup(dict_view(d@), w_e()) matches Some(BValue::List(_))));
                Err(Error::InvalidKRPC)
            },
        }
    }

    /// Decodes a KRPC message: the bencoded value first, then the envelope
    /// (`t` and `y`) and the fields of its kind.
    pub fn decode(s: &[u8]) -> (r: Result<Self, Error>)
        ensures
            match spec_krpc_decode(s@) {
                Ok(m) => r matches Ok(x) && x@ == m,
                Err(e) => r == Err::<KRPC, Error>(e),
            },
    {
        let v = match bdecode(s) {
            Ok(v) => v,
            Err(e) => {
                return Err(e);
            },
        };
        let d = match &v {
            Value::Dict(d) => d,
            _ => {
                return Err(Error::InvalidKRPC);
            },
        };
        let kt = [116u8];
        let ky = [121u8];
        let kq = [113u8];
        let kr = [114u8];
        let ke = [101u8];
        proof {
            assert(kt@ =~= w_t());
            assert(ky@ =~= w_y());
            assert(kq@ =~= w_q());
            assert(kr@ =~= w_r());
            assert(ke@ =~= w_e());
        }
        let t = match bytes_field(d, &kt) {
            Some(t) => t,
            None => {
                return Err(Error::InvalidKRPC);
            },
        };
        let y = match bytes_field(d, &ky) {
            Some(y) => y,
            None => {
                return Err(Error::InvalidKRPC);
            },
        };
        if t.len() == 0 {
            Err(Error::InvalidKRPC)
        } else if same_bytes(y.as_slice(), &kq) {
            Self::decode_query(t, d)
        } else if same_bytes(y.as_slice(), &kr) {
            Self::decode_response(t, d)
        } else if same_bytes(y.as_slice(), &ke) {
            Self::decode_error(t, d)
        } else {
            Err(Error::InvalidKRPC)
        }
    }
}

// ---------------------------------------------------------------------------
// From messages to bencoded values

pub open spec fn method_name(q: QueryV) -> Seq<u8> {
    match q {
        QueryV::Ping(_) => w_ping(),
        QueryV::FindNode(_, _) => w_find_node(),
        QueryV::GetPeers(_, _) => w_get_peers(),
        QueryV::AnnouncePeer(_, _, _, _, _) => w_announce_peer(),
    }
}

/// The arguments of a query, keys in ascending order.
pub open spec fn args_value(q: QueryV) -> Seq<(Seq<u8>, BValue)> {
    match q {
        QueryV::Ping(id) => seq![(w_id(), BValue::Str(id))],
        QueryV::FindNode(id, target) => seq![
            (w_id(), BValue::Str(id)),
            (w_target(), BValue::Str(target)),
        ],
        QueryV::GetPeers(id, h) => seq![(w_id(), BValue::Str(id)), (w_info_hash(), BValue::Str(h))],
        QueryV::AnnouncePeer(id, implied, port, h, token) => seq![
            (w_id(), BValue::Str(id)),
            (w_implied_port(), BValue::Int(implied as int)),
            (w_info_hash(), BValue::Str(h)),
            (w_port(), BValue::Int(port as int)),
            (w_token(), BValue::Str(token)),
        ],
    }
}

pub open spec fn str_items(l: Seq<Seq<u8>>) -> Seq<BValue> {
    l.map_values(|b: Seq<u8>| BValue::Str(b))
}

/// The body of a response, keys in ascending order.
pub open spec fn body_value(r: ResponseV) -> Seq<(Seq<u8>, BValue)> {
    match r {
        ResponseV::Id(id) => seq![(w_id(), BValue::Str(id))],
        ResponseV::FindNode(id, nodes) => seq![
            (w_id(), BValue::Str(id)),
            (w_nodes(), BValue::Str(nodes)),
        ],
        ResponseV::GetPeers(id, token, values) => seq![
            (w_id(), BValue::Str(id)),
            (w_token(), BValue::Str(token)),
            (w_values(), BValue::List(str_items(values))),
        ],
    }
}

/// The bencoded dictionary that carries a message.
pub open spec fn msg_value(m: MsgV) -> BValue {
    match m {
        MsgV::Query(t, q) => BValue::Dict(
            seq![
                (w_a(), BValue::Dict(args_value(q))),
                (w_q(), BValue::Str(method_name(q))),
                (w_t(), BValue::Str(t)),
                (w_y(), BValue::Str(w_q())),
            ],
        ),
        MsgV::Response(t, r) => BValue::Dict(
            seq![
                (w_r(), BValue::Dict(body_value(r))),
                (w_t(), BValue::Str(t)),
                (w_y(), BValue::Str(w_r())),
            ],
        ),
        MsgV::Error(t, c, msg) => BValue::Dict(
            seq![
                (w_e(), BValue::List(seq![BValue::Int(c), BValue::Str(msg)])),
                (w_t(), BValue::Str(t)),
                (w_y(), BValue::Str(w_e())),
            ],
        ),
    }
}

/// A byte string short enough for a length prefix.
pub open spec fn fits(b: Seq<u8>) -> bool {
    b.len() <= MAX_LENGTH
}

/// Every byte string of the message fits a length prefix (as every one held
/// in memory does).
pub open spec fn msg_fits(m: MsgV) -> bool {
    match m {
        MsgV::Query(t, q) => fits(t) && match q {
            QueryV::Ping(id) => fits(id),
            QueryV::FindNode(id, x) => fits(id) && fits(x),
            QueryV::GetPeers(id, x) => fits(id) && fits(x),
            QueryV::AnnouncePeer(id, _, _, h, token) => fits(id) && fits(h) && fits(token),
        },
        MsgV::Response(t, r) => fits(t) && match r {
            ResponseV::Id(id) => fits(id),
            ResponseV::FindNode(id, x) => fits(id) && fits(x),
            ResponseV::GetPeers(id, token, values) => fits(id) && fits(token) && forall|i: int|
                0 <= i < values.len() ==> fits(#[trigger] values[i]),
        },
        MsgV::Error(t, c, msg) => fits(t) && fits(msg) && -(MAX_MAGNITUDE as int) <= c
            < MAX_MAGNITUDE as int,
    }
}

/// The order of the protocol's keys.
pub proof fn lemma_word_order()
    ensures
        key_lt(w_a(), w_q()),
        key_lt(w_q(), w_t()),
        key_lt(w_t(), w_y()),
        key_lt(w_r(), w_t()),
        key_lt(w_e(), w_t()),
        key_lt(w_id(), w_target()),
        key_lt(w_id(), w_info_hash()),
        key_lt(w_id(), w_implied_port()),
        key_lt(w_implied_port(), w_info_hash()),
        key_lt(w_info_hash(), w_port()),
        key_lt(w_port(), w_token()),
        key_lt(w_id(), w_nodes()),
        key_lt(w_id(), w_token()),
        key_lt(w_token(), w_values()),
{
    assert(w_id().take(1) =~= w_info_hash().take(1));
    lemma_key_lt_at(w_id(), w_info_hash(), 1);
    assert(w_id().take(1) =~= w_implied_port().take(1));
    lemma_key_lt_at(w_id(), w_implied_port(), 1);
    assert(w_implied_port().take(1) =~= w_info_hash().take(1));
    lemma_key_lt_at(w_implied_port(), w_info_hash(), 1);
}

pub proof fn lemma_str_items(l: Seq<Seq<u8>>)
    requires
        forall|i: int| 0 <= i < l.len() ==> fits(#[trigger] l[i]),
    ensures
        wf(BValue::List(str_items(l))),
{
    let items = str_items(l);
    assert forall|i: int| 0 <= i < items.len() implies wf(#[trigger] items[i]) by {
        assert(fits(l[i]));
    }
    lemma_wf_list_all(items);
}

/// Every message is carried by a well-formed value, which therefore encodes.
pub proof fn lemma_msg_value_wf(m: MsgV)
    requires
        msg_fits(m),
    ensures
        wf(msg_value(m)),
{
    lemma_word_order();
    let d = msg_value(m)->Dict_0;
    match m {
        MsgV::Query(t, q) => {
            let a = args_value(q);
            lemma_keys_sorted_by_neighbours(a);
            lemma_wf_dict_all(a);
        },
        MsgV::Response(t, r) => {
            let b = body_value(r);
            lemma_keys_sorted_by_neighbours(b);
            if let ResponseV::GetPeers(_, _, values) = r {
                lemma_str_items(values);
            }
            lemma_wf_dict_all(b);
        },
        MsgV::Error(t, c, msg) => {
            let l = seq![BValue::Int(c), BValue::Str(msg)];
            lemma_wf_list_all(l);
        },
    }
    lemma_keys_sorted_by_neighbours(d);
    lemma_wf_dict_all(d);
}

fn str_value(b: &[u8]) -> (v: Value)
    ensures
        v@ == BValue::Str(b@),
        fits(b@),
{
    let len = b.len();
    assert(b@.len() == len);
    Value::String(copy_bytes(b))
}

impl KRPC {
    fn encode_query(t: &[u8], q: &DHTQuery) -> (v: Value)
        ensures
            v@ == msg_value(MsgV::Query(t@, q@)),
            msg_fits(MsgV::Query(t@, q@)),
    {
        let kid = [105u8, 100];
        let ktarget = [116u8, 97, 114, 103, 101, 116];
        let khash = [105u8, 110, 102, 111, 95, 104, 97, 115, 104];
        let ktoken = [116u8, 111, 107, 101, 110];
        let kimplied = [105u8, 109, 112, 108, 105, 101, 100, 95, 112, 111, 114, 116];
        let kport = [112u8, 111, 114, 116];
        let ping = [112u8, 105, 110, 103];
        let find_node = [102u8, 105, 110, 100, 95, 110, 111, 100, 101];
        let get_peers = [103u8, 101, 116, 95, 112, 101, 101, 114, 115];
        let announce_peer = [97u8, 110, 110, 111, 117, 110, 99, 101, 95, 112, 101, 101, 114];
        proof {
            assert(kid@ =~= w_id());
            assert(ktarget@ =~= w_target());
            assert(khash@ =~= w_info_hash());
            assert(ktoken@ =~= w_token());
            assert(kimplied@ =~= w_implied_port());
            assert(kport@ =~= w_port());
            assert(ping@ =~= w_ping());
            assert(find_node@ =~= w_find_node());
            assert(get_peers@ =~= w_get_peers());
            assert(announce_peer@ =~= w_announce_peer());
        }
        let mut args: Vec<(Vec<u8>, Value)> = Vec::new();
        args.push((copy_bytes(&kid), str_value(q.id())));
        let method = match q {
            DHTQuery::Ping { .. } => copy_bytes(&ping),
            DHTQuery::FindNode { target, .. } => {
                args.push((copy_bytes(&ktarget), str_value(target.as_slice())));
                copy_bytes(&find_node)
            },
            DHTQuery::GetPeers { info_hash, .. } => {
                args.push((copy_bytes(&khash), str_value(info_hash.as_slice())));
                copy_bytes(&get_peers)
            },
            DHTQuery::AnnouncePeer { impiled_port, port, info_hash, token, .. } => {
                args.push((copy_bytes(&kimplied), Value::Integer(*impiled_port as i64)));
                args.push((copy_bytes(&khash), str_value(info_hash.as_slice())));
                args.push((copy_bytes(&kport), Value::Integer(*port as i64)));
                args.push((copy_bytes(&ktoken), str_value(token.as_slice())));
                copy_bytes(&announce_peer)
            },
        };
        proof {
            lemma_dict_view(args@);
            assert(dict_view(args@) =~= args_value(q@));
        }
        let ka = [97u8];
        let kq = [113u8];
        let kt = [116u8];
        let ky = [121u8];
        proof {
            assert(ka@ =~= w_a());
            assert(kq@ =~= w_q());
            assert(kt@ =~= w_t());
            assert(ky@ =~= w_y());
        }
        let mut d: Vec<(Vec<u8>, Value)> = Vec::new();
        d.push((copy_bytes(&ka), Value::Dict(args)));
        d.push((copy_bytes(&kq), Value::String(method)));
        d.push((copy_bytes(&kt), str_value(t)));
        d.push((copy_bytes(&ky), str_value(&kq)));
        proof {
            lemma_dict_view(d@);
            assert(dict_view(d@) =~= msg_value(MsgV::Query(t@, q@))->Dict_0);
        }
        Value::Dict(d)
    }

    fn encode_response(t: &[u8], r: &DHTResponse) -> (v: Value)
        ensures
            v@ == msg_value(MsgV::Response(t@, r@)),
            msg_fits(MsgV::Response(t@, r@)),
    {
        let kid = [105u8, 100];
        let knodes = [110u8, 111, 100, 101, 115];
        let ktoken = [116u8, 111, 107, 101, 110];
        let kvalues = [118u8, 97, 108, 117, 101, 115];
        proof {
            assert(kid@ =~= w_id());
            assert(knodes@ =~= w_nodes());
            assert(ktoken@ =~= w_token());
            assert(kvalues@ =~= w_values());
        }
        let mut body: Vec<(Vec<u8>, Value)> = Vec::new();
        match r {
            DHTResponse::ID { id } => {
                body.push((copy_bytes(&kid), str_value(id.as_slice())));
            },
            DHTResponse::FindNode { id, nodes } => {
                body.push((copy_bytes(&kid), str_value(id.as_slice())));
                body.push((copy_bytes(&knodes), str_value(nodes.as_slice())));
            },
            DHTResponse::GetPeers { id, token, values } => {
                let mut items: Vec<Value> = Vec::new();
                let mut i: usize = 0;
                while i < values.len()
                    invariant
                        i <= values@.len(),
                        items@.len() == i,
                        forall|j: int| 0 <= j < i ==> (#[trigger] items@[j])@ == BValue::Str(values@[j]@),
                        forall|j: int| 0 <= j < i ==> fits(#[trigger] values@[j]@),
                    decreases values@.len() - i,
                {
                    items.push(str_value(values[i].as_slice()));
                    i += 1;
                }
                proof {
                    lemma_list_view(items@);
                    assert(list_view(items@) =~= str_items(bytes_views(values@)));
                }
                body.push((copy_bytes(&kid), str_value(id.as_slice())));
                body.push((copy_bytes(&ktoken), str_value(token.as_slice())));
                body.push((copy_bytes(&kvalues), Value::List(items)));
            },
        }
        proof {
            lemma_dict_view(body@);
            assert(dict_view(body@) =~= body_value(r@));
        }
        let kr = [114u8];
        let kt = [116u8];
        let ky = [121u8];
        proof {
            assert(kr@ =~= w_r());
            assert(kt@ =~= w_t());
            assert(ky@ =~= w_y());
        }
        let mut d: Vec<(Vec<u8>, Value)> = Vec::new();
        d.push((copy_bytes(&kr), Value::Dict(body)));
        d.push((copy_bytes(&kt), str_value(t)));
        d.push((copy_bytes(&ky), str_value(&kr)));
        proof {
            lemma_dict_view(d@);
            assert(dict_view(d@) =~= msg_value(MsgV::Response(t@, r@))->Dict_0);
        }
        Value::Dict(d)
    }

    fn encode_error(t: &[u8], code: i64, msg: &[u8]) -> (v: Value)
        ensures
            v@ == msg_value(MsgV::Error(t@, code as int, msg@)),
            msg_fits(MsgV::Error(t@, code as int, msg@)),
    {
        let ke = [101u8];
        let kt = [116u8];
        let ky = [121u8];
        proof {
            assert(ke@ =~= w_e());
            assert(kt@ =~= w_t());
            assert(ky@ =~= w_y());
        }
        let mut items: Vec<Value> = Vec::new();
        items.push(Value::Integer(code));
        items.push(str_value(msg));
        proof {
            lemma_list_view(items@);
            assert(list_view(items@) =~= seq![BValue::Int(code as int), BValue::Str(msg@)]);
        }
        let mut d: Vec<(Vec<u8>, Value)> = Vec::new();
        d.push((copy_bytes(&ke), Value::List(items)));
        d.push((copy_bytes(&kt), str_value(t)));
        d.push((copy_bytes(&ky), str_value(&ke)));
        proof {
            lemma_dict_view(d@);
            assert(dict_view(d@) =~= msg_value(MsgV::Error(t@, code as int, msg@))->Dict_0);
        }
        Value::Dict(d)
    }

    /// Encodes the message as a canonical bencoded dictionary. A message that
    /// `decode` would not give back (an empty transaction id, or an
    /// `implied_port` other than 0 or 1) is `InvalidValue`.
    pub fn encode(&self) -> (r: Result<Vec<u8>, Error>)
        ensures
            msg_valid(self@) ==> (r matches Ok(b) && b@ == enc(msg_value(self@))),
            !msg_valid(self@) ==> r == Err::<Vec<u8>, Error>(Error::InvalidValue),
            r is Ok ==> msg_fits(self@),
    {
        let (v, tid_len) = match self {
            KRPC::Query(t, q) => {
                if let DHTQuery::AnnouncePeer { impiled_port, .. } = q {
                    if *impiled_port > 1 {
                        return Err(Error::InvalidValue);
                    }
                }
                (Self::encode_query(t.as_slice(), q), t.len())
            },
            KRPC::Response(t, r) => (Self::encode_response(t.as_slice(), r), t.len()),
            KRPC::Error(t, code, msg) => (
                Self::encode_error(t.as_slice(), *code, msg.as_slice()),
                t.len(),
            ),
        };
        if tid_len == 0 {
            return Err(Error::InvalidValue);
        }
        proof {
            lemma_msg_value_wf(self@);
            lemma_canon_id(msg_value(self@));
        }
        v.encode()
    }
}

impl DHTQuery {
    /// The querying node's id, which every query carries.
    pub fn id(&self) -> (r: &[u8])
        ensures
            r@ == query_id(self@),
    {
        match self {
            DHTQuery::Ping { id } => id.as_slice(),
            DHTQuery::FindNode { id, .. } => id.as_slice(),
            DHTQuery::GetPeers { id, .. } => id.as_slice(),
            DHTQuery::AnnouncePeer { id, .. } => id.as_slice(),
        }
    }
}

pub open spec fn query_id(q: QueryV) -> Seq<u8> {
    match q {
        QueryV::Ping(id) => id,
        QueryV::FindNode(id, _) => id,
        QueryV::GetPeers(id, _) => id,
        QueryV::AnnouncePeer(id, _, _, _, _) => id,
    }
}

// ---------------------------------------------------------------------------
// Encoding, then decoding, gives the message back

/// In entries with ascending keys, each key finds its own entry.
pub proof fn lemma_lookup_sorted(d: Seq<(Seq<u8>, BValue)>, i: int)
    requires
        keys_sorted(d),
        0 <= i < d.len(),
    ensures
        lookup(d, d[i].0) == Some(d[i].1),
    decreases i,
{
    if i > 0 {
        let t = d.drop_first();
        assert(key_lt(d[0].0, d[i].0));
        lemma_key_lt_irreflexive(d[i].0);
        assert forall|a: int, b: int| 0 <= a < b < t.len() implies key_lt(
            #[trigger] t[a].0,
            #[trigger] t[b].0,
        ) by {
            assert(key_lt(d[a + 1].0, d[b + 1].0));
        }
        assert(t[i - 1] == d[i]);
        lemma_lookup_sorted(t, i - 1);
    }
}

/// A key that no entry has finds nothing.
pub proof fn lemma_lookup_absent(d: Seq<(Seq<u8>, BValue)>, k: Seq<u8>)
    requires
        forall|j: int| 0 <= j < d.len() ==> (#[trigger] d[j]).0 != k,
    ensures
        lookup(d, k) is None,
    decreases d.len(),
{
    if d.len() > 0 {
        let t = d.drop_first();
        assert forall|j: int| 0 <= j < t.len() implies (#[trigger] t[j]).0 != k by {
            assert(t[j] == d[j + 1]);
        }
        lemma_lookup_absent(t, k);
    }
}

/// A message the layer can send: a non-empty transaction id, and an
/// `implied_port` of 0 or 1.
pub open spec fn msg_valid(m: MsgV) -> bool {
    match m {
        MsgV::Query(t, q) => t.len() > 0 && (q matches QueryV::AnnouncePeer(_, implied, _, _, _)
            ==> implied <= 1),
        MsgV::Response(t, _) => t.len() > 0,
        MsgV::Error(t, _, _) => t.len() > 0,
    }
}

/// The words of the protocol are told apart.
proof fn lemma_words_differ()
    ensures
        w_q() != w_r(),
        w_q() != w_e(),
        w_r() != w_e(),
        w_get_peers() != w_find_node(),
{
    assert(w_q()[0] != w_r()[0]);
    assert(w_q()[0] != w_e()[0]);
    assert(w_r()[0] != w_e()[0]);
    assert(w_get_peers()[0] != w_find_node()[0]);
}

/// Every message that `encode` accepts (see `msg_valid`) decodes, from its
/// encoding, to itself.
pub proof fn lemma_krpc_round_trip(m: MsgV)
    requires
        msg_fits(m),
        msg_valid(m),
    ensures
        spec_krpc_decode(enc(msg_value(m))) == Ok::<MsgV, Error>(m),
{
    lemma_msg_value_wf(m);
    lemma_decode_encode(msg_value(m));
    lemma_word_order();
    lemma_words_differ();
    let d = msg_value(m)->Dict_0;
    lemma_keys_sorted_by_neighbours(d);
    lemma_lookup_sorted(d, d.len() - 2);
    lemma_lookup_sorted(d, d.len() - 1);
    lemma_lookup_sorted(d, 0);
    match m {
        MsgV::Query(t, q) => {
            lemma_lookup_sorted(d, 1);
            let a = args_value(q);
            lemma_keys_sorted_by_neighbours(a);
            lemma_lookup_sorted(a, 0);
            match q {
                QueryV::Ping(_) => {},
                QueryV::FindNode(_, _) => {
                    lemma_lookup_sorted(a, 1);
                },
                QueryV::GetPeers(_, _) => {
                    lemma_lookup_sorted(a, 1);
                },
                QueryV::AnnouncePeer(_, _, _, _, _) => {
                    lemma_lookup_sorted(a, 1);
                    lemma_lookup_sorted(a, 2);
                    lemma_lookup_sorted(a, 3);
                    lemma_lookup_sorted(a, 4);
                },
            }
            assert(query_args(method_name(q), a) == Some(q));
        },
        MsgV::Response(t, r) => {
            let b = body_value(r);
            lemma_keys_sorted_by_neighbours(b);
            lemma_lookup_sorted(b, 0);
            match r {
                ResponseV::Id(_) => {
                    lemma_lookup_absent(b, w_values());
                    lemma_lookup_absent(b, w_nodes());
                },
                ResponseV::FindNode(_, _) => {
                    lemma_lookup_sorted(b, 1);
                    lemma_lookup_absent(b, w_values());
                },
                ResponseV::GetPeers(_, _, values) => {
                    lemma_lookup_sorted(b, 1);
                    lemma_lookup_sorted(b, 2);
                    let items = str_items(values);
                    assert(items.map_values(|x: BValue| x->Str_0) =~= values);
                },
            }
            assert(response_body(b) == Some(r));
        },
        MsgV::Error(t, c, msg) => {},
    }
}

/// A query whose method is none of the four is not a message.
pub proof fn lemma_unknown_method(d: Seq<(Seq<u8>, BValue)>, q: Seq<u8>)
    requires
        str_field(d, w_y()) == Some(w_q()),
        str_field(d, w_q()) == Some(q),
        q != w_ping() && q != w_find_node() && q != w_get_peers() && q != w_announce_peer(),
    ensures
        krpc_of(BValue::Dict(d)) is None,
{
}

/// A response whose body has no `id` is not a message.
pub proof fn lemma_response_without_id(d: Seq<(Seq<u8>, BValue)>, body: Seq<(Seq<u8>, BValue)>)
    requires
        str_field(d, w_y()) == Some(w_r()),
        as_dict(lookup(d, w_r())) == Some(body),
        lookup(body, w_id()) is None,
    ensures
        krpc_of(BValue::Dict(d)) is None,
{
    lemma_words_differ();
}

} // verus!
