//! The protocol spoken between clients, workers and the broker.
use crate::json::{JsonValue, JsonView};
use vstd::prelude::*;

verus! {

/// Size of the buffer a client reads the broker's replies into.
pub const BUF_SIZE: usize = 65536;

/// The address the broker's TCP listener binds.
pub const TCP_ADDR: &'static str = "0.0.0.0:5123";

/// The path of the broker's Unix socket.
pub const UNIX_PATH: &'static str = "/tmp/ipc_broker.sock";

/// The name of the broker's Windows named pipe.
pub const PIPE_PATH: &'static str = "\\\\.\\pipe\\ipc_broker";

/// A lowercase hexadecimal digit.
pub open spec fn is_lower_hex(c: char) -> bool {
    ('0' <= c && c <= '9') || ('a' <= c && c <= 'f')
}

/// The hyphenated form of a UUID: 32 lowercase hexadecimal digits in groups
/// of 8, 4, 4, 4 and 12, separated by hyphens.
pub open spec fn is_uuid_text(s: Seq<char>) -> bool {
    &&& s.len() == 36
    &&& forall|i: int|
        0 <= i < 36 ==> if i == 8 || i == 13 || i == 18 || i == 23 {
            #[trigger] s[i] == '-'
        } else {
            is_lower_hex(s[i])
        }
}

/// The lowercase hexadecimal digit for `d`.
pub open spec fn hex_char(d: int) -> char {
    if d < 10 {
        ('0' as int + d) as char
    } else {
        ('a' as int + d - 10) as char
    }
}

/// Hexadecimal digit `k` of `n`, counting from the most significant.
pub open spec fn nibble(n: u128, k: int) -> int {
    ((n >> ((124 - 4 * k) as u128)) & 0xfu128) as int
}

/// The number of hyphens before position `i` of a hyphenated UUID.
pub open spec fn hyphens_before(i: int) -> int {
    if i < 9 {
        0
    } else if i < 14 {
        1
    } else if i < 19 {
        2
    } else if i < 24 {
        3
    } else {
        4
    }
}

/// The hyphenated lowercase text of the UUID whose value is `n`, as
/// `Uuid`'s `Display` writes it.
pub open spec fn uuid_text(n: u128) -> Seq<char> {
    Seq::new(
        36,
        |i: int|
            if i == 8 || i == 13 || i == 18 || i == 23 {
                '-'
            } else {
                hex_char(nibble(n, i - hyphens_before(i)))
            },
    )
}

/// The text of every UUID is in the hyphenated form.
pub proof fn lemma_uuid_text_shape(n: u128)
    ensures
        is_uuid_text(uuid_text(n)),
{
    assert forall|i: int| 0 <= i < 36 implies if i == 8 || i == 13 || i == 18 || i == 23 {
        #[trigger] uuid_text(n)[i] == '-'
    } else {
        is_lower_hex(uuid_text(n)[i])
    } by {
        if !(i == 8 || i == 13 || i == 18 || i == 23) {
            let k = i - hyphens_before(i);
            let shift = (124 - 4 * k) as u128;
            let d = (n >> shift) & 0xfu128;
            assert(d < 16) by (bit_vector)
                requires
                    d == (n >> shift) & 0xfu128,
            ;
        }
    }
}

/// Whether `n` is a version 4 UUID of the RFC 4122 variant: its version
/// digit is 4 and its two variant bits are `10`.
pub open spec fn is_v4_uuid(n: u128) -> bool {
    &&& (n >> 76u128) & 0xfu128 == 4
    &&& (n >> 62u128) & 0x3u128 == 2
}

/// Draws a random version 4 UUID with `uuid::Uuid::new_v4` and gives its
/// value (`Uuid::as_u128`). Its version digit is 4 and its two variant bits
/// are `10`; nothing is promised of the other bits, which are random.
#[verifier::external_body]
pub(crate) fn random_uuid() -> (n: u128)
    ensures
        (n >> 76u128) & 0xfu128 == 4,
        (n >> 62u128) & 0x3u128 == 2,
{
    uuid::Uuid::new_v4().as_u128()
}

fn hex_str(d: u128) -> (s: &'static str)
    requires
        d < 16,
    ensures
        s@ == seq![hex_char(d as int)],
{
    proof {
        reveal_strlit("0");
        reveal_strlit("1");
        reveal_strlit("2");
        reveal_strlit("3");
        reveal_strlit("4");
        reveal_strlit("5");
        reveal_strlit("6");
        reveal_strlit("7");
        reveal_strlit("8");
        reveal_strlit("9");
        reveal_strlit("a");
        reveal_strlit("b");
        reveal_strlit("c");
        reveal_strlit("d");
        reveal_strlit("e");
        reveal_strlit("f");
    }
    let s = if d == 0 {
        "0"
    } else if d == 1 {
        "1"
    } else if d == 2 {
        "2"
    } else if d == 3 {
        "3"
    } else if d == 4 {
        "4"
    } else if d == 5 {
        "5"
    } else if d == 6 {
        "6"
    } else if d == 7 {
        "7"
    } else if d == 8 {
        "8"
    } else if d == 9 {
        "9"
    } else if d == 10 {
        "a"
    } else if d == 11 {
        "b"
    } else if d == 12 {
        "c"
    } else if d == 13 {
        "d"
    } else if d == 14 {
        "e"
    } else {
        "f"
    };
    assert(s@ =~= seq![hex_char(d as int)]);
    s
}

/// The hyphenated lowercase text of the UUID whose value is `n`.
pub fn format_uuid(n: u128) -> (s: String)
    ensures
        s@ == uuid_text(n),
{
    let mut s = String::new();
    let mut i: usize = 0;
    let mut k: usize = 0;
    while i < 36
        invariant
            i <= 36,
            k == i - hyphens_before(i as int),
            k <= 32,
            s@ == uuid_text(n).take(i as int),
        decreases 36 - i,
    {
        if i == 8 || i == 13 || i == 18 || i == 23 {
            s = s.concat("-");
            proof {
                reveal_strlit("-");
            }
        } else {
            let shift: u128 = (124 - 4 * k) as u128;
            let d = (n >> shift) & 0xfu128;
            assert(d < 16) by (bit_vector)
                requires
                    d == (n >> shift) & 0xfu128,
            ;
            s = s.concat(hex_str(d));
            k = k + 1;
        }
        proof {
            assert(s@ =~= uuid_text(n).take(i + 1));
        }
        i = i + 1;
    }
    proof {
        assert(uuid_text(n).take(36) =~= uuid_text(n));
    }
    s
}

/// A string with the same characters as `s`.
pub fn owned(s: &str) -> (r: String)
    ensures
        r@ == s@,
{
    s.to_owned()
}

/// The identity the broker gives a connection.
#[derive(Debug)]
pub struct ClientId(pub String);

impl View for ClientId {
    type V = Seq<char>;

    open spec fn view(&self) -> Seq<char> {
        self.0@
    }
}

impl Clone for ClientId {
    fn clone(&self) -> (r: Self)
        ensures
            r == *self,
    {
        ClientId(self.0.clone())
    }
}

impl PartialEq for ClientId {
    fn eq(&self, other: &Self) -> (r: bool) {
        self.0 == other.0
    }
}

impl vstd::std_specs::cmp::PartialEqSpecImpl for ClientId {
    open spec fn obeys_eq_spec() -> bool {
        true
    }

    open spec fn eq_spec(&self, other: &Self) -> bool {
        self@ == other@
    }
}

impl Eq for ClientId {}

impl ClientId {
    /// The identity named by the UUID whose value is `n`, in its
    /// hyphenated form.
    pub fn from_uuid(n: u128) -> (id: ClientId)
        ensures
            id@ == uuid_text(n),
    {
        ClientId(format_uuid(n))
    }

    /// A fresh random identity: the text of a random version 4 UUID.
    pub fn random() -> (id: ClientId)
        ensures
            exists|n: u128| id@ == uuid_text(n) && is_v4_uuid(n),
            is_uuid_text(id@),
    {
        let n = random_uuid();
        proof {
            lemma_uuid_text_shape(n);
        }
        ClientId::from_uuid(n)
    }
}

/// The identity of one remote call, used to route its reply.
#[derive(Debug)]
pub struct CallId(pub String);

impl View for CallId {
    type V = Seq<char>;

    open spec fn view(&self) -> Seq<char> {
        self.0@
    }
}

impl Clone for CallId {
    fn clone(&self) -> (r: Self)
        ensures
            r == *self,
    {
        CallId(self.0.clone())
    }
}

impl PartialEq for CallId {
    fn eq(&self, other: &Self) -> (r: bool) {
        self.0 == other.0
    }
}

impl vstd::std_specs::cmp::PartialEqSpecImpl for CallId {
    open spec fn obeys_eq_spec() -> bool {
        true
    }

    open spec fn eq_spec(&self, other: &Self) -> bool {
        self@ == other@
    }
}

impl Eq for CallId {}

impl CallId {
    /// The call identity named by the UUID whose value is `n`, in its
    /// hyphenated form.
    pub fn from_uuid(n: u128) -> (id: CallId)
        ensures
            id@ == uuid_text(n),
    {
        CallId(format_uuid(n))
    }

    /// A fresh random call identity: the text of a random version 4 UUID.
    pub fn random() -> (id: CallId)
        ensures
            exists|n: u128| id@ == uuid_text(n) && is_v4_uuid(n),
            is_uuid_text(id@),
    {
        let n = random_uuid();
        proof {
            lemma_uuid_text_shape(n);
        }
        CallId::from_uuid(n)
    }
}

/// A request sent to the broker (and forwarded by it to workers).
#[derive(Debug, PartialEq)]
pub enum RpcRequest {
    RegisterObject { object_name: String },
    RegisterService { object_name: String, service_name: String },
    Call { call_id: CallId, object_name: String, method: String, args: JsonValue },
    Subscribe { object_name: String, topic: String },
    Publish { object_name: String, topic: String, args: JsonValue },
    HasObject { object_name: String },
}

/// A reply or notification sent by the broker or by a worker.
#[derive(Debug, PartialEq)]
#[allow(inconsistent_fields)]
pub enum RpcResponse {
    Registered { object_name: String },
    Result { call_id: CallId, object_name: String, value: JsonValue },
    Error { call_id: Option<CallId>, object_name: String, message: String },
    Event { object_name: String, topic: String, args: JsonValue },
    Subscribed { object_name: String, topic: String },
    HasObjectResult { object_name: String, exists: bool },
}

/// The model of a request.
pub enum RequestView {
    RegisterObject { object_name: Seq<char> },
    RegisterService { object_name: Seq<char>, service_name: Seq<char> },
    Call { call_id: Seq<char>, object_name: Seq<char>, method: Seq<char>, args: JsonView },
    Subscribe { object_name: Seq<char>, topic: Seq<char> },
    Publish { object_name: Seq<char>, topic: Seq<char>, args: JsonView },
    HasObject { object_name: Seq<char> },
}

/// The model of a response.
#[allow(inconsistent_fields)]
pub enum ResponseView {
    Registered { object_name: Seq<char> },
    Result { call_id: Seq<char>, object_name: Seq<char>, value: JsonView },
    Error { call_id: Option<Seq<char>>, object_name: Seq<char>, message: Seq<char> },
    Event { object_name: Seq<char>, topic: Seq<char>, args: JsonView },
    Subscribed { object_name: Seq<char>, topic: Seq<char> },
    HasObjectResult { object_name: Seq<char>, exists: bool },
}

impl View for RpcRequest {
    type V = RequestView;

    open spec fn view(&self) -> RequestView {
        match self {
            RpcRequest::RegisterObject { object_name } => RequestView::RegisterObject {
                object_name: object_name@,
            },
            RpcRequest::RegisterService { object_name, service_name } => RequestView::RegisterService {
                object_name: object_name@,
                service_name: service_name@,
            },
            RpcRequest::Call { call_id, object_name, method, args } => RequestView::Call {
                call_id: call_id@,
                object_name: object_name@,
                method: method@,
                args: args@,
            },
            RpcRequest::Subscribe { object_name, topic } => RequestView::Subscribe {
                object_name: object_name@,
                topic: topic@,
            },
            RpcRequest::Publish { object_name, topic, args } => RequestView::Publish {
                object_name: object_name@,
                topic: topic@,
                args: args@,
            },
            RpcRequest::HasObject { object_name } => RequestView::HasObject {
                object_name: object_name@,
            },
        }
    }
}

impl View for RpcResponse {
    type V = ResponseView;

    open spec fn view(&self) -> ResponseView {
        match self {
            RpcResponse::Registered { object_name } => ResponseView::Registered {
                object_name: object_name@,
            },
            RpcResponse::Result { call_id, object_name, value } => ResponseView::Result {
                call_id: call_id@,
                object_name: object_name@,
                value: value@,
            },
            RpcResponse::Error { call_id, object_name, message } => ResponseView::Error {
                call_id: match call_id {
                    Some(c) => Some(c@),
                    None => None,
                },
                object_name: object_name@,
                message: message@,
            },
            RpcResponse::Event { object_name, topic, args } => ResponseView::Event {
                object_name: object_name@,
                topic: topic@,
                args: args@,
            },
            RpcResponse::Subscribed { object_name, topic } => ResponseView::Subscribed {
                object_name: object_name@,
                topic: topic@,
            },
            RpcResponse::HasObjectResult { object_name, exists } => ResponseView::HasObjectResult {
                object_name: object_name@,
                exists: *exists,
            },
        }
    }
}

} // verus!
