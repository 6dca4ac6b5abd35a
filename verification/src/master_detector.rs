//! Leader detection over a coordination-service namespace: election nodes
//! are filtered by a fixed label prefix and the lexicographically smallest
//! name is the current leader; its payload decodes to the master descriptor.
use vstd::prelude::*;
use vstd::string::*;

verus! {

/// A failure of the leader detector.
#[derive(Clone, Copy, Debug, PartialEq, Eq, Structural)]
pub enum DetectorError {
    /// No session with the coordination service could be established.
    ConnectFailed,
    /// Listing the namespace's children failed.
    ListFailed,
    /// Fetching the elected node's payload failed.
    FetchFailed,
    /// The payload is not UTF-8 JSON text with a string `pid` field.
    Marshalling,
    /// No node name carries the label prefix.
    NoLeader,
}

/// The label prefix that marks an election node.
pub open spec fn json_label() -> Seq<char> {
    "json.info"@
}

/// Whether `name` is an election-node name: it starts with the label prefix.
pub open spec fn is_contender(name: Seq<char>) -> bool {
    json_label().len() <= name.len() && name.subrange(0, json_label().len() as int)
        == json_label()
}

/// Lexicographic order on names, by scalar value of each character; a proper
/// prefix comes first.
pub open spec fn lex_le(a: Seq<char>, b: Seq<char>) -> bool
    decreases a.len(),
{
    if a.len() == 0 {
        true
    } else if b.len() == 0 {
        false
    } else if a[0] == b[0] {
        lex_le(a.drop_first(), b.drop_first())
    } else {
        (a[0] as int) < (b[0] as int)
    }
}

/// The order is reflexive.
pub proof fn lemma_lex_le_reflexive(a: Seq<char>)
    ensures
        lex_le(a, a),
    decreases a.len(),
{
    if a.len() > 0 {
        lemma_lex_le_reflexive(a.drop_first());
    }
}

/// The order is total: of two names one comes first.
pub proof fn lemma_lex_le_total(a: Seq<char>, b: Seq<char>)
    ensures
        lex_le(a, b) || lex_le(b, a),
    decreases a.len(),
{
    if a.len() > 0 && b.len() > 0 {
        if a[0] == b[0] {
            lemma_lex_le_total(a.drop_first(), b.drop_first());
        } else {
            assert((a[0] as int) < (b[0] as int) || (b[0] as int) < (a[0] as int));
        }
    }
}

/// The order is antisymmetric: names that come before each other are equal.
pub proof fn lemma_lex_le_antisymmetric(a: Seq<char>, b: Seq<char>)
    requires
        lex_le(a, b),
        lex_le(b, a),
    ensures
        a == b,
    decreases a.len(),
{
    if a.len() == 0 {
        assert(b.len() == 0);
        assert(a =~= b);
    } else {
        assert(b.len() > 0);
        assert(a[0] == b[0]);
        lemma_lex_le_antisymmetric(a.drop_first(), b.drop_first());
        assert(a.drop_first() == b.drop_first());
        assert(a.len() == b.len());
        assert forall|i: int| 0 <= i < a.len() implies a[i] == b[i] by {
            if i > 0 {
                assert(a[i] == a.drop_first()[i - 1]);
                assert(b[i] == b.drop_first()[i - 1]);
            }
        }
        assert(a =~= b);
    }
}

/// The order is transitive.
pub proof fn lemma_lex_le_transitive(a: Seq<char>, b: Seq<char>, c: Seq<char>)
    requires
        lex_le(a, b),
        lex_le(b, c),
    ensures
        lex_le(a, c),
    decreases a.len(),
{
    if a.len() > 0 {
        assert(b.len() > 0);
        assert(c.len() > 0);
        if a[0] == b[0] && b[0] == c[0] {
            lemma_lex_le_transitive(a.drop_first(), b.drop_first(), c.drop_first());
        }
    }
}

/// The elected leader among `names`: the lexicographically smallest name
/// that carries the label prefix, or nothing when no name does. Listing
/// order never matters - see `lemma_election_order_independent`.
pub open spec fn elected(names: Seq<Seq<char>>) -> Option<Seq<char>>
    decreases names.len(),
{
    if names.len() == 0 {
        None
    } else {
        let prev = elected(names.drop_last());
        let x = names.last();
        if !is_contender(x) {
            prev
        } else {
            match prev {
                None => Some(x),
                Some(m) => if lex_le(m, x) {
                    Some(m)
                } else {
                    Some(x)
                },
            }
        }
    }
}

/// What election means: nobody is elected exactly when no name carries the
/// label prefix; an elected name is one of the names, carries the prefix,
/// and comes lexicographically before every name that carries it.
pub proof fn lemma_elected_characterization(names: Seq<Seq<char>>)
    ensures
        elected(names) is None <==> (forall|i: int|
            0 <= i < names.len() ==> !is_contender(#[trigger] names[i])),
        elected(names) matches Some(m) ==> names.contains(m) && is_contender(m) && (forall|i: int|
            0 <= i < names.len() && is_contender(#[trigger] names[i]) ==> lex_le(m, names[i])),
    decreases names.len(),
{
    if names.len() > 0 {
        let rest = names.drop_last();
        let x = names.last();
        lemma_elected_characterization(rest);
        assert(forall|i: int| 0 <= i < rest.len() ==> #[trigger] names[i] == rest[i]);
        assert(names[names.len() - 1] == x);
        match elected(rest) {
            Some(m) => {
                let wi = choose|wi: int| 0 <= wi < rest.len() && rest[wi] == m;
                assert(names[wi] == m);
                assert(names.contains(m));
                if is_contender(x) {
                    lemma_lex_le_reflexive(x);
                    lemma_lex_le_total(m, x);
                    if lex_le(m, x) {
                        assert forall|i: int|
                            0 <= i < names.len() && is_contender(
                                #[trigger] names[i],
                            ) implies lex_le(m, names[i]) by {
                            if i < rest.len() {
                                assert(names[i] == rest[i]);
                                assert(lex_le(m, rest[i]));
                            } else {
                                assert(names[i] == x);
                            }
                        }
                    } else {
                        assert(lex_le(x, m));
                        assert(names.contains(x));
                        assert forall|i: int|
                            0 <= i < names.len() && is_contender(
                                #[trigger] names[i],
                            ) implies lex_le(x, names[i]) by {
                            if i < rest.len() {
                                assert(names[i] == rest[i]);
                                assert(lex_le(m, rest[i]));
                                lemma_lex_le_transitive(x, m, names[i]);
                            } else {
                                assert(names[i] == x);
                            }
                        }
                    }
                } else {
                    assert forall|i: int|
                        0 <= i < names.len() && is_contender(#[trigger] names[i]) implies lex_le(
                        m,
                        names[i],
                    ) by {
                        if i < rest.len() {
                            assert(names[i] == rest[i]);
                            assert(lex_le(m, rest[i]));
                        } else {
                            assert(names[i] == x);
                        }
                    }
                }
            },
            None => {
                if is_contender(x) {
                    lemma_lex_le_reflexive(x);
                    assert(names.contains(x));
                    assert forall|i: int|
                        0 <= i < names.len() && is_contender(#[trigger] names[i]) implies lex_le(
                        x,
                        names[i],
                    ) by {
                        if i < rest.len() {
                            assert(names[i] == rest[i]);
                            assert(!is_contender(rest[i]));
                        } else {
                            assert(names[i] == x);
                        }
                    }
                } else {
                    assert forall|i: int| 0 <= i < names.len() implies !is_contender(
                        #[trigger] names[i],
                    ) by {
                        if i < rest.len() {
                            assert(names[i] == rest[i]);
                            assert(!is_contender(rest[i]));
                        } else {
                            assert(names[i] == x);
                        }
                    }
                }
            },
        }
        if forall|i: int| 0 <= i < names.len() ==> !is_contender(#[trigger] names[i]) {
            assert(!is_contender(names[names.len() - 1]));
            assert forall|i: int| 0 <= i < rest.len() implies !is_contender(
                #[trigger] rest[i],
            ) by {
                assert(rest[i] == names[i]);
            }
        }
    }
}

/// Leader election is deterministic: listings that hold the same set of
/// names elect the same leader, whatever the listing order and however often
/// a name repeats.
pub proof fn lemma_election_order_independent(a: Seq<Seq<char>>, b: Seq<Seq<char>>)
    requires
        forall|x: Seq<char>| a.contains(x) <==> b.contains(x),
    ensures
        elected(a) == elected(b),
{
    lemma_elected_characterization(a);
    lemma_elected_characterization(b);
    match (elected(a), elected(b)) {
        (Some(ma), Some(mb)) => {
            let ia = choose|i: int| 0 <= i < a.len() && a[i] == mb;
            assert(lex_le(ma, a[ia]));
            let ib = choose|i: int| 0 <= i < b.len() && b[i] == ma;
            assert(lex_le(mb, b[ib]));
            lemma_lex_le_antisymmetric(ma, mb);
        },
        (Some(ma), None) => {
            let ib = choose|i: int| 0 <= i < b.len() && b[i] == ma;
            assert(is_contender(b[ib]));
            assert(false);
        },
        (None, Some(mb)) => {
            let ia = choose|i: int| 0 <= i < a.len() && a[i] == mb;
            assert(is_contender(a[ia]));
            assert(false);
        },
        (None, None) => {},
    }
}

/// Whether `name` starts with the label prefix that marks an election node.
pub fn has_json_label(name: &str) -> (r: bool)
    ensures
        r == is_contender(name@),
{
    proof {
        reveal_strlit("json.info");
    }
    let label = "json.info";
    let llen = label.unicode_len();
    let nlen = name.unicode_len();
    if nlen < llen {
        return false;
    }
    let mut i: usize = 0;
    while i < llen
        invariant
            i <= llen,
            llen == json_label().len(),
            llen <= nlen == name@.len(),
            label@ == json_label(),
            forall|j: int| 0 <= j < i ==> name@[j] == json_label()[j],
        decreases llen - i,
    {
        if name.get_char(i) != label.get_char(i) {
            proof {
                assert(name@.subrange(0, json_label().len() as int)[i as int] == name@[i as int]);
            }
            return false;
        }
        i = i + 1;
    }
    proof {
        assert(name@.subrange(0, json_label().len() as int) =~= json_label());
    }
    true
}

/// Whether `a` comes lexicographically before `b` or equals it.
pub fn str_lex_le(a: &str, b: &str) -> (r: bool)
    ensures
        r == lex_le(a@, b@),
{
    let alen = a.unicode_len();
    let blen = b.unicode_len();
    proof {
        assert(a@.skip(0) =~= a@);
        assert(b@.skip(0) =~= b@);
    }
    let mut i: usize = 0;
    loop
        invariant
            i <= alen == a@.len(),
            i <= blen == b@.len(),
            lex_le(a@, b@) == lex_le(a@.skip(i as int), b@.skip(i as int)),
        decreases alen - i,
    {
        if i == alen {
            return true;
        }
        if i == blen {
            return false;
        }
        let ca = a.get_char(i);
        let cb = b.get_char(i);
        proof {
            assert(a@.skip(i as int)[0] == a@[i as int]);
            assert(b@.skip(i as int)[0] == b@[i as int]);
        }
        if ca != cb {
            let r = (ca as u32) < (cb as u32);
            proof {
                assert(r == ((a@[i as int] as int) < (b@[i as int] as int)));
            }
            return r;
        }
        proof {
            assert(a@.skip(i as int).drop_first() =~= a@.skip(i + 1));
            assert(b@.skip(i as int).drop_first() =~= b@.skip(i + 1));
        }
        i = i + 1;
    }
}

/// Elect the leader among the listed child names: the lexicographically
/// smallest name carrying the label prefix. Exactly when no name carries it,
/// the election fails with the no-leader condition - and nothing further
/// (no payload fetch) is owed.
pub fn elect_leader(children: &Vec<String>) -> (r: Result<String, DetectorError>)
    ensures
        r matches Ok(l) ==> elected(children.deep_view()) == Some(l@),
        r is Ok <==> elected(children.deep_view()) is Some,
        r matches Err(e) ==> e == DetectorError::NoLeader,
        r is Err <==> (forall|i: int|
            0 <= i < children.deep_view().len() ==> !is_contender(
                #[trigger] children.deep_view()[i],
            )),
{
    let mut best: Option<String> = None;
    let mut i: usize = 0;
    while i < children.len()
        invariant
            i <= children@.len(),
            match best {
                Some(m) => elected(children.deep_view().take(i as int)) == Some(m@),
                None => elected(children.deep_view().take(i as int)) is None,
            },
        decreases children@.len() - i,
    {
        let name = &children[i];
        proof {
            assert(children.deep_view().take(i + 1).drop_last() =~= children.deep_view().take(
                i as int,
            ));
            assert(children.deep_view().take(i + 1).last() == children.deep_view()[i as int]);
            assert(children.deep_view()[i as int] == children@[i as int]@);
        }
        if has_json_label(name.as_str()) {
            let replace = match &best {
                None => true,
                Some(m) => !str_lex_le(m.as_str(), name.as_str()),
            };
            if replace {
                best = Some(name.clone());
            }
        }
        i = i + 1;
    }
    proof {
        assert(children.deep_view().take(children.deep_view().len() as int)
            =~= children.deep_view());
        lemma_elected_characterization(children.deep_view());
    }
    match best {
        Some(m) => Ok(m),
        None => Err(DetectorError::NoLeader),
    }
}

/// The path of an election node directly under the namespace root.
pub fn leader_path(name: &str) -> (r: String)
    ensures
        r@ == "/"@ + name@,
{
    let mut path = String::from_str("/");
    path.append(name);
    path
}

/// Index just past the last separator in `pid`, or the start when `pid`
/// holds none.
pub open spec fn address_start(pid: Seq<char>) -> int
    decreases pid.len(),
{
    if pid.len() == 0 {
        0
    } else if pid.last() == '@' {
        pid.len() as int
    } else {
        address_start(pid.drop_last())
    }
}

/// The address within a process identifier: everything after the last `@`,
/// or the whole identifier when it holds none.
pub open spec fn address_of(pid: Seq<char>) -> Seq<char> {
    pid.subrange(address_start(pid), pid.len() as int)
}

/// The elected master's descriptor, decoded from its election node's
/// payload.
pub struct MasterInfo {
    pid: String,
}

impl View for MasterInfo {
    type V = Seq<char>;

    /// The process identifier, of the shape `<id>@<host>:<port>`.
    closed spec fn view(&self) -> Seq<char> {
        self.pid@
    }
}

impl MasterInfo {
    /// A descriptor holding this process identifier.
    pub fn new(pid: String) -> (r: MasterInfo)
        ensures
            r@ == pid@,
    {
        MasterInfo { pid }
    }

    /// The master's address: everything after the last `@` of the process
    /// identifier, or the whole identifier when it holds none.
    pub fn address(&self) -> (r: &str)
        ensures
            r@ == address_of(self@),
    {
        let pid = self.pid.as_str();
        let len = pid.unicode_len();
        proof {
            assert(self@.take(len as int) =~= self@);
        }
        let mut i: usize = len;
        while i > 0
            invariant
                i <= len == pid@.len(),
                pid@ == self@,
                address_start(self@) == address_start(self@.take(i as int)),
            decreases i,
        {
            proof {
                assert(self@.take(i as int).last() == self@[i - 1]);
                assert(self@.take(i as int).drop_last() =~= self@.take(i - 1));
            }
            if pid.get_char(i - 1) == '@' {
                let r = pid.substring_char(i, len);
                return r;
            }
            i = i - 1;
        }
        proof {
            assert(self@.take(0) =~= Seq::<char>::empty());
            assert(address_of(self@) =~= self@);
        }
        pid
    }
}

/// A source of the current master's descriptor.
pub trait MasterDetector {
    /// The current master, or the distinct condition that stood in the way.
    fn get_master(&self) -> Result<MasterInfo, DetectorError>;
}

/// The string value of the `pid` field of the payload's JSON text, when the
/// payload is UTF-8 JSON holding one; a function of the payload bytes alone.
pub uninterp spec fn master_pid_of(payload: Seq<u8>) -> Option<Seq<char>>;

/// Relies on rustc_serialize::json::Json::from_str, Json::find and
/// Json::as_string: the payload's UTF-8 text is parsed as JSON and the
/// string value of its `pid` field is handed back; the result depends on the
/// payload bytes alone.
#[verifier::external_body]
fn decode_master_pid(payload: &[u8]) -> (r: Option<String>)
    ensures
        r is Some <==> master_pid_of(payload@) is Some,
        r matches Some(p) ==> master_pid_of(payload@) == Some(p@),
{
    let text = match core::str::from_utf8(payload) {
        Ok(t) => t,
        Err(_) => return None,
    };
    let json = match rustc_serialize::json::Json::from_str(text) {
        Ok(j) => j,
        Err(_) => return None,
    };
    match json.find("pid") {
        Some(value) => match value.as_string() {
            Some(s) => Some(s.to_string()),
            None => None,
        },
        None => None,
    }
}

/// Decode an election node's payload into the master's descriptor. The
/// payload must be UTF-8 JSON text with a string `pid` field; anything else
/// is the marshalling condition.
pub fn parse_master_info(payload: &Vec<u8>) -> (r: Result<MasterInfo, DetectorError>)
    ensures
        r is Ok <==> master_pid_of(payload@) is Some,
        r matches Ok(m) ==> master_pid_of(payload@) == Some(m@),
        r matches Err(e) ==> e == DetectorError::Marshalling,
{
    match decode_master_pid(payload.as_slice()) {
        Some(pid) => Ok(MasterInfo::new(pid)),
        None => Err(DetectorError::Marshalling),
    }
}

} // verus!
