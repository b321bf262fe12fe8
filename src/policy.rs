use vstd::prelude::*;

use crate::codec::{deserialize, encode, serialize};
use crate::error::PolicyError;
use crate::expr::{fits, Expr, ExprV};
use crate::ident::{policy_path, Action, Resource, path_for};

verus! {

/// A policy body: one expression. The resource and action it governs are
/// given by the route of the request that carries it.
#[derive(Debug, PartialEq, Eq)]
pub struct Policy {
    expression: Expr,
}

impl View for Policy {
    type V = ExprV;

    closed spec fn view(&self) -> ExprV {
        self.expression@
    }
}

impl Policy {
    pub fn new(expression: Expr) -> (r: Policy)
        ensures
            r@ == expression@,
    {
        Policy { expression }
    }

    pub fn expression(&self) -> (r: &Expr)
        ensures
            r@ == self@,
    {
        &self.expression
    }
}

/// The request methods of the policy protocol.
#[derive(Clone, Copy, Debug, PartialEq, Eq, Structural)]
pub enum Method {
    Post,
}

/// A request to a node: method, route, and serialized body.
#[derive(Debug, PartialEq, Eq)]
pub struct Request {
    pub method: Method,
    pub path: String,
    pub body: Vec<u8>,
}

/// Builds the request that installs `policy` for `resource` and `action`.
pub fn create_request(resource: &Resource, action: &Action, policy: &Policy) -> (r: Request)
    ensures
        r.method == Method::Post,
        r.path@ == policy_path(resource@, action@),
        r.body@ == encode(policy@),
        fits(policy@),
{
    let path = path_for(resource, action);
    let body = serialize(policy.expression());
    Request { method: Method::Post, path, body }
}

/// The status code of a successful answer.
pub const STATUS_OK: u16 = 200;

/// The status code of a request whose body the node could not read.
pub const STATUS_BAD_REQUEST: u16 = 400;

/// A node's answer: a status code and a message.
#[derive(Debug, PartialEq, Eq)]
pub struct Response {
    pub status: u16,
    pub message: String,
}

/// One stored policy and its key.
#[derive(Debug)]
struct StoreEntry {
    path: String,
    policy: Policy,
}

/// The policies of a node, keyed by policy path.
spec fn entries_map(s: Seq<StoreEntry>) -> Map<Seq<char>, ExprV>
    decreases s.len(),
{
    if s.len() == 0 {
        Map::empty()
    } else {
        entries_map(s.drop_last()).insert(s.last().path@, s.last().policy@)
    }
}

/// `m2` is what a store holding `m` holds after it accepted a request with
/// route `path` and body `body`: the policy read from the body replaces
/// whatever stood under that path.
pub open spec fn stored(
    m: Map<Seq<char>, ExprV>,
    path: Seq<char>,
    body: Seq<u8>,
    m2: Map<Seq<char>, ExprV>,
) -> bool {
    exists|e: ExprV| fits(e) && #[trigger] encode(e) == body && m2 == m.insert(path, e)
}

/// A node's policy store: at most one policy per path; a new one replaces
/// the old one.
#[derive(Debug)]
pub struct PolicyStore {
    entries: Vec<StoreEntry>,
}

proof fn lemma_map_absent(s: Seq<StoreEntry>, k: Seq<char>)
    requires
        forall|j: int| 0 <= j < s.len() ==> (#[trigger] s[j]).path@ != k,
    ensures
        !entries_map(s).contains_key(k),
    decreases s.len(),
{
    if s.len() > 0 {
        lemma_map_absent(s.drop_last(), k);
        assert(s.last() == s[s.len() - 1]);
    }
}

proof fn lemma_map_at(s: Seq<StoreEntry>, idx: int)
    requires
        0 <= idx < s.len(),
        forall|j: int| 0 <= j < s.len() && j != idx ==> (#[trigger] s[j]).path@ != s[idx].path@,
    ensures
        entries_map(s).contains_key(s[idx].path@),
        entries_map(s)[s[idx].path@] == s[idx].policy@,
    decreases s.len(),
{
    if idx < s.len() - 1 {
        let p = s.drop_last();
        assert(p[idx] == s[idx]);
        assert forall|j: int| 0 <= j < p.len() && j != idx implies (#[trigger] p[j]).path@
            != p[idx].path@ by {
            assert(p[j] == s[j]);
        }
        lemma_map_at(p, idx);
        assert(s[s.len() - 1].path@ != s[idx].path@);
    }
}

proof fn lemma_map_update(s: Seq<StoreEntry>, idx: int, x: StoreEntry)
    requires
        0 <= idx < s.len(),
        x.path@ == s[idx].path@,
        forall|j: int| 0 <= j < s.len() && j != idx ==> (#[trigger] s[j]).path@ != s[idx].path@,
    ensures
        entries_map(s.update(idx, x)) == entries_map(s).insert(x.path@, x.policy@),
    decreases s.len(),
{
    let t = s.update(idx, x);
    if idx == s.len() - 1 {
        assert(t.drop_last() =~= s.drop_last());
        assert(entries_map(t) =~= entries_map(s).insert(x.path@, x.policy@));
    } else {
        let p = s.drop_last();
        assert(t.drop_last() =~= p.update(idx, x));
        assert forall|j: int| 0 <= j < p.len() && j != idx implies (#[trigger] p[j]).path@
            != p[idx].path@ by {
            assert(p[j] == s[j]);
        }
        lemma_map_update(p, idx, x);
        assert(s[s.len() - 1].path@ != s[idx].path@);
        assert(entries_map(t) =~= entries_map(s).insert(x.path@, x.policy@));
    }
}

impl View for PolicyStore {
    type V = Map<Seq<char>, ExprV>;

    closed spec fn view(&self) -> Map<Seq<char>, ExprV> {
        entries_map(self.entries@)
    }
}

impl PolicyStore {
    /// No two entries share a path.
    pub closed spec fn wf(&self) -> bool {
        forall|i: int, j: int|
            0 <= i < self.entries@.len() && 0 <= j < self.entries@.len() && i != j ==> (
            #[trigger] self.entries@[i]).path@ != (#[trigger] self.entries@[j]).path@
    }

    pub fn new() -> (r: PolicyStore)
        ensures
            r.wf(),
            r@ == Map::<Seq<char>, ExprV>::empty(),
    {
        PolicyStore { entries: Vec::new() }
    }

    fn find(&self, path: &str) -> (r: Option<usize>)
        ensures
            match r {
                Some(i) => i < self.entries@.len() && self.entries@[i as int].path@ == path@,
                None => forall|j: int|
                    0 <= j < self.entries@.len() ==> (#[trigger] self.entries@[j]).path@ != path@,
            },
    {
        let key = path.to_owned();
        let mut i: usize = 0;
        while i < self.entries.len()
            invariant
                i <= self.entries@.len(),
                key@ == path@,
                forall|j: int| 0 <= j < i ==> (#[trigger] self.entries@[j]).path@ != path@,
            decreases self.entries@.len() - i,
        {
            if self.entries[i].path == key {
                return Some(i);
            }
            i = i + 1;
        }
        None
    }

    /// The policy stored under `path`, if any.
    pub fn get(&self, path: &str) -> (r: Option<&Policy>)
        requires
            self.wf(),
        ensures
            match r {
                Some(p) => self@.contains_key(path@) && self@[path@] == p@,
                None => !self@.contains_key(path@),
            },
    {
        match self.find(path) {
            Some(i) => {
                proof {
                    lemma_map_at(self.entries@, i as int);
                }
                Some(&self.entries[i].policy)
            },
            None => {
                proof {
                    lemma_map_absent(self.entries@, path@);
                }
                None
            },
        }
    }

    /// Stores `policy` under `path`, replacing what stood there.
    pub fn put(&mut self, path: String, policy: Policy)
        requires
            old(self).wf(),
        ensures
            final(self).wf(),
            final(self)@ == old(self)@.insert(path@, policy@),
    {
        match self.find(path.as_str()) {
            Some(i) => {
                let entry = StoreEntry { path, policy };
                proof {
                    lemma_map_update(self.entries@, i as int, entry);
                }
                self.entries.set(i, entry);
            },
            None => {
                let entry = StoreEntry { path, policy };
                let ghost before = self.entries@;
                self.entries.push(entry);
                proof {
                    assert(self.entries@.drop_last() =~= before);
                }
            },
        }
    }

    /// Serves a create-policy request: a body that reads as an expression is
    /// stored under the request's route and answered with `STATUS_OK`; any
    /// other body leaves the store as it was and is answered with
    /// `STATUS_BAD_REQUEST`.
    pub fn handle_request(&mut self, request: Request) -> (r: Response)
        requires
            old(self).wf(),
        ensures
            final(self).wf(),
            r.status == STATUS_OK <==> (exists|e: ExprV| fits(e) && #[trigger] encode(e)
                == request.body@),
            r.status == STATUS_OK ==> stored(old(self)@, request.path@, request.body@, final(self)@),
            r.status != STATUS_OK ==> r.status == STATUS_BAD_REQUEST && final(self)@ == old(self)@,
    {
        match deserialize(&request.body) {
            Ok(e) => {
                self.put(request.path, Policy::new(e));
                Response { status: STATUS_OK, message: String::new() }
            },
            Err(_) => Response {
                status: STATUS_BAD_REQUEST,
                message: String::from_str("malformed policy expression"),
            },
        }
    }
}

/// Reading back the policy that a create request installed gives the
/// expression that was sent.
pub proof fn lemma_create_then_read(
    m: Map<Seq<char>, ExprV>,
    path: Seq<char>,
    e: ExprV,
    m2: Map<Seq<char>, ExprV>,
)
    requires
        fits(e),
        stored(m, path, encode(e), m2),
    ensures
        m2.contains_key(path),
        m2[path] == e,
{
    let e1 = choose|e1: ExprV| fits(e1) && #[trigger] encode(e1) == encode(e) && m2 == m.insert(
        path,
        e1,
    );
    crate::codec::lemma_round_trip(e);
}

/// Two create requests for one path in sequence leave the second expression
/// alone under that path, with nothing of the first merged in, and every
/// other path as it was.
pub proof fn lemma_last_writer_wins(
    m: Map<Seq<char>, ExprV>,
    path: Seq<char>,
    e1: ExprV,
    e2: ExprV,
    m2: Map<Seq<char>, ExprV>,
    m3: Map<Seq<char>, ExprV>,
)
    requires
        fits(e1),
        fits(e2),
        stored(m, path, encode(e1), m2),
        stored(m2, path, encode(e2), m3),
    ensures
        m3 == m.insert(path, e2),
{
    let x1 = choose|x: ExprV| fits(x) && #[trigger] encode(x) == encode(e1) && m2 == m.insert(
        path,
        x,
    );
    let x2 = choose|x: ExprV| fits(x) && #[trigger] encode(x) == encode(e2) && m3 == m2.insert(
        path,
        x,
    );
    crate::codec::lemma_round_trip(e1);
    crate::codec::lemma_round_trip(e2);
    assert(m3 =~= m.insert(path, e2));
}

} // verus!
