//! The message envelopes of the protocol: the decoded client request, the
//! task envelope handed to a subsystem worker, the result envelope sent back
//! to the client, and the events of the shared outbound queue.

use crate::json::{member_views_of, parse_json, ser_val, sp_json, to_bytes, JVal, JsonVal};
use vstd::prelude::*;
use vstd::string::*;

verus! {

/// Identifier of a registered subsystem. The decoder accepts exactly these,
/// so every request that reaches a worker names a registered subsystem.
#[derive(Clone, Copy, PartialEq, Eq, Structural, Debug)]
pub enum WebsocketSystem {
    PythonRepo,
    PcUsage,
}

/// The wire name of a subsystem.
pub open spec fn sys_name(s: WebsocketSystem) -> Seq<u8> {
    match s {
        WebsocketSystem::PythonRepo => ("python_repo").spec_bytes(),
        WebsocketSystem::PcUsage => ("pc_usage").spec_bytes(),
    }
}

/// Model of a decoded client request.
pub struct CMView {
    pub system: WebsocketSystem,
    pub task: Seq<u8>,
    pub payload: JVal,
}

/// Decoded client request: target subsystem, opaque task name, payload.
#[derive(Debug)]
pub struct ClientMessage {
    pub system: WebsocketSystem,
    pub task: Vec<u8>,
    pub payload: JsonVal,
}

impl View for ClientMessage {
    type V = CMView;

    open spec fn view(&self) -> CMView {
        CMView { system: self.system, task: self.task@, payload: self.payload@ }
    }
}

/// Model of a task envelope.
pub struct TMView {
    pub name: Seq<u8>,
    pub payload: JVal,
}

/// Task envelope: consumed exactly once by one subsystem worker.
#[derive(Debug, PartialEq, Eq)]
pub struct TaskMessage {
    pub name: Vec<u8>,
    pub payload: JsonVal,
}

impl View for TaskMessage {
    type V = TMView;

    open spec fn view(&self) -> TMView {
        TMView { name: self.name@, payload: self.payload@ }
    }
}

/// Model of a result envelope.
pub struct RMView {
    pub system: Option<WebsocketSystem>,
    pub success: bool,
    pub payload: JVal,
}

/// Result envelope sent to the client; `system` is `None` only for
/// protocol-level errors not attributable to a subsystem.
#[derive(Debug, PartialEq, Eq)]
pub struct ResultMessage {
    pub system: Option<WebsocketSystem>,
    pub success: bool,
    pub payload: JsonVal,
}

impl View for ResultMessage {
    type V = RMView;

    open spec fn view(&self) -> RMView {
        RMView { system: self.system, success: self.success, payload: self.payload@ }
    }
}

/// Event on the shared outbound queue: a task result, a liveness probe, a
/// pong answering a client ping with its payload, or the closing of the
/// session.
#[derive(Debug, PartialEq, Eq)]
pub enum WebsocketMessage {
    TaskResult(ResultMessage),
    Ping(Vec<u8>),
    Pong(Vec<u8>),
    Close,
}

impl ResultMessage {
    /// Successful result envelope around a payload value.
    pub fn from_json(payload: JsonVal, system: Option<WebsocketSystem>) -> (r: ResultMessage)
        ensures
            r.system == system,
            r.success == true,
            r.payload@ == payload@,
    {
        ResultMessage { system, success: true, payload }
    }

    /// Failed result envelope around an error description.
    pub fn from_error(e: Vec<u8>, system: Option<WebsocketSystem>) -> (r: ResultMessage)
        ensures
            r.system == system,
            r.success == false,
            r.payload@ == JVal::Str(e@),
    {
        ResultMessage { system, success: false, payload: JsonVal::Str(e) }
    }
}

impl From<ClientMessage> for TaskMessage {
    /// The envelope a routed request becomes: the task name and exactly the
    /// payload the client sent.
    fn from(msg: ClientMessage) -> (r: TaskMessage) {
        TaskMessage { name: msg.task, payload: msg.payload }
    }
}

impl vstd::std_specs::convert::FromSpecImpl<ClientMessage> for TaskMessage {
    open spec fn obeys_from_spec() -> bool {
        true
    }

    open spec fn from_spec(msg: ClientMessage) -> TaskMessage {
        TaskMessage { name: msg.task, payload: msg.payload }
    }
}

/// Why a frame failed to decode into a client request.
#[derive(Clone, Copy, PartialEq, Eq, Structural, Debug)]
pub enum DecodeError {
    Syntax,
    NotObject,
    DuplicateField,
    MissingSystem,
    MissingTask,
    BadSystem,
    BadTask,
}

/// The description of a decode failure, as it appears in the error envelope.
pub open spec fn decode_error_text(e: DecodeError) -> Seq<u8> {
    match e {
        DecodeError::Syntax => ("Failed to deserialize message: invalid syntax.").spec_bytes(),
        DecodeError::NotObject => ("Failed to deserialize message: expected an object.").spec_bytes(),
        DecodeError::DuplicateField => (
        "Failed to deserialize message: duplicate field."
        ).spec_bytes(),
        DecodeError::MissingSystem => (
        "Failed to deserialize message: missing field `system`."
        ).spec_bytes(),
        DecodeError::MissingTask => (
        "Failed to deserialize message: missing field `task`."
        ).spec_bytes(),
        DecodeError::BadSystem => ("Failed to deserialize message: unknown system.").spec_bytes(),
        DecodeError::BadTask => ("Failed to deserialize message: invalid task name.").spec_bytes(),
    }
}

impl DecodeError {
    /// The description of this failure.
    pub fn message(&self) -> (r: Vec<u8>)
        ensures
            r@ == decode_error_text(*self),
    {
        match self {
            DecodeError::Syntax => str_to_bytes("Failed to deserialize message: invalid syntax."),
            DecodeError::NotObject => str_to_bytes(
                "Failed to deserialize message: expected an object.",
            ),
            DecodeError::DuplicateField => str_to_bytes(
                "Failed to deserialize message: duplicate field.",
            ),
            DecodeError::MissingSystem => str_to_bytes(
                "Failed to deserialize message: missing field `system`.",
            ),
            DecodeError::MissingTask => str_to_bytes(
                "Failed to deserialize message: missing field `task`.",
            ),
            DecodeError::BadSystem => str_to_bytes("Failed to deserialize message: unknown system."),
            DecodeError::BadTask => str_to_bytes(
                "Failed to deserialize message: invalid task name.",
            ),
        }
    }
}

/// The bytes of a string slice.
pub fn str_to_bytes(s: &str) -> (r: Vec<u8>)
    ensures
        r@ == s.spec_bytes(),
{
    s.as_bytes_vec()
}

/// Do two byte vectors hold the same bytes?
pub fn bytes_eq(a: &Vec<u8>, b: &Vec<u8>) -> (r: bool)
    ensures
        r == (a@ == b@),
{
    if a.len() != b.len() {
        return false;
    }
    let mut x: usize = 0;
    while x < a.len()
        invariant
            x <= a.len(),
            a@.len() == b@.len(),
            forall|k: int| 0 <= k < x ==> a@[k] == b@[k],
        decreases a@.len() - x,
    {
        if a[x] != b[x] {
            return false;
        }
        x = x + 1;
    }
    proof {
        assert(a@ =~= b@);
    }
    true
}

/// A deep copy of a JSON value.
pub fn clone_val(v: &JsonVal) -> (r: JsonVal)
    ensures
        r@ == v@,
    decreases v,
{
    match v {
        JsonVal::Null => JsonVal::Null,
        JsonVal::Bool(b) => JsonVal::Bool(*b),
        JsonVal::Num(t) => JsonVal::Num(clone_bytes(t)),
        JsonVal::Str(c) => JsonVal::Str(clone_bytes(c)),
        JsonVal::Arr(a) => {
            let mut out: Vec<JsonVal> = Vec::new();
            let mut x: usize = 0;
            #[verifier::loop_isolation(false)]
            while x < a.len()
                invariant
                    x <= a.len(),
                    out@.len() == x,
                    forall|k: int| 0 <= k < x ==> out@[k]@ == a@[k]@,
                decreases a@.len() - x,
            {
                let c = clone_elem(a, x);
                out.push(c);
                x = x + 1;
            }
            let r = JsonVal::Arr(out);
            proof {
                crate::json::lemma_elem_views(out, 0);
                crate::json::lemma_elem_views(*a, 0);
                assert(crate::json::elem_views(out, 0) =~= crate::json::elem_views(*a, 0));
            }
            r
        },
        JsonVal::Obj(m) => {
            let mut out: Vec<(Vec<u8>, JsonVal)> = Vec::new();
            let mut x: usize = 0;
            #[verifier::loop_isolation(false)]
            while x < m.len()
                invariant
                    x <= m.len(),
                    out@.len() == x,
                    forall|k: int|
                        0 <= k < x ==> out@[k].0@ == m@[k].0@ && out@[k].1@ == m@[k].1@,
                decreases m@.len() - x,
            {
                let c = clone_member(m, x);
                out.push(c);
                x = x + 1;
            }
            let r = JsonVal::Obj(out);
            proof {
                crate::json::lemma_mem_views(out, 0);
                crate::json::lemma_mem_views(*m, 0);
                assert(crate::json::mem_views(out, 0) =~= crate::json::mem_views(*m, 0));
            }
            r
        },
    }
}

/// A copy of a byte vector.
pub fn clone_bytes(b: &Vec<u8>) -> (r: Vec<u8>)
    ensures
        r@ == b@,
{
    let mut out: Vec<u8> = Vec::new();
    let mut x: usize = 0;
    while x < b.len()
        invariant
            x <= b.len(),
            out@ =~= b@.subrange(0, x as int),
        decreases b@.len() - x,
    {
        out.push(b[x]);
        x = x + 1;
        proof {
            assert(out@ =~= b@.subrange(0, x as int));
        }
    }
    proof {
        assert(b@.subrange(0, b@.len() as int) =~= b@);
    }
    out
}

/// A deep copy of the element at `x`.
fn clone_elem(a: &Vec<JsonVal>, x: usize) -> (r: JsonVal)
    requires
        x < a.len(),
    ensures
        r@ == a@[x as int]@,
    decreases a, 0nat,
{
    clone_val(&a[x])
}

/// A deep copy of the member at `x`.
fn clone_member(m: &Vec<(Vec<u8>, JsonVal)>, x: usize) -> (r: (Vec<u8>, JsonVal))
    requires
        x < m.len(),
    ensures
        r.0@ == m@[x as int].0@,
        r.1@ == m@[x as int].1@,
    decreases m, 0nat,
{
    let p = &m[x];
    (clone_bytes(&p.0), clone_pair_val(p))
}

/// A deep copy of the value of one member pair.
fn clone_pair_val(p: &(Vec<u8>, JsonVal)) -> (r: JsonVal)
    ensures
        r@ == p.1@,
    decreases p, 0nat,
{
    clone_val(&p.1)
}

/// How many members of `ms` hold the key `key`.
pub open spec fn count_key(ms: Seq<(Seq<u8>, JVal)>, key: Seq<u8>) -> nat
    decreases ms.len(),
{
    if ms.len() == 0 {
        0
    } else {
        (if ms[0].0 == key {
            1nat
        } else {
            0nat
        }) + count_key(ms.subrange(1, ms.len() as int), key)
    }
}

/// The value of the first member of `ms` holding the key `key`.
pub open spec fn get_key(ms: Seq<(Seq<u8>, JVal)>, key: Seq<u8>) -> JVal
    decreases ms.len(),
{
    if ms.len() == 0 {
        JVal::Null
    } else if ms[0].0 == key {
        ms[0].1
    } else {
        get_key(ms.subrange(1, ms.len() as int), key)
    }
}

/// Appending a member raises the count of its key by one and leaves the
/// other counts alone.
pub proof fn lemma_count_key_push(ms: Seq<(Seq<u8>, JVal)>, m: (Seq<u8>, JVal), key: Seq<u8>)
    ensures
        count_key(ms.push(m), key) == count_key(ms, key) + (if m.0 == key {
            1nat
        } else {
            0nat
        }),
    decreases ms.len(),
{
    if ms.len() == 0 {
        assert((ms.push(m))[0] == m);
        assert(ms.push(m).subrange(1, ms.push(m).len() as int) =~= Seq::<(Seq<u8>, JVal)>::empty());
        assert(count_key(ms.push(m).subrange(1, ms.push(m).len() as int), key) == 0);
    } else {
        assert((ms.push(m))[0] == ms[0]);
        assert(ms.push(m).subrange(1, ms.push(m).len() as int) =~= ms.subrange(
            1,
            ms.len() as int,
        ).push(m));
        lemma_count_key_push(ms.subrange(1, ms.len() as int), m, key);
        assert(count_key(ms.push(m), key) == (if ms[0].0 == key {
            1nat
        } else {
            0nat
        }) + count_key(ms.subrange(1, ms.len() as int).push(m), key));
    }
}

/// Appending a member does not change which value stands first for a key
/// already present; for an absent key the new member's value stands.
pub proof fn lemma_get_key_push(ms: Seq<(Seq<u8>, JVal)>, m: (Seq<u8>, JVal), key: Seq<u8>)
    ensures
        count_key(ms, key) > 0 ==> get_key(ms.push(m), key) == get_key(ms, key),
        count_key(ms, key) == 0 && m.0 == key ==> get_key(ms.push(m), key) == m.1,
    decreases ms.len(),
{
    if ms.len() == 0 {
    } else {
        assert(ms.push(m).subrange(1, ms.push(m).len() as int) =~= ms.subrange(
            1,
            ms.len() as int,
        ).push(m));
        lemma_get_key_push(ms.subrange(1, ms.len() as int), m, key);
    }
}

/// What a decoded frame means as a client request: the request, or the
/// reason it is rejected. An object is required, each of the fields
/// `system`, `task` and `payload` may stand at most once, `system` must name
/// a registered subsystem, `task` must be a string, and a missing `payload`
/// means a null payload. Other members are ignored.
pub open spec fn decode_spec(v: JVal) -> Result<CMView, DecodeError> {
    match v {
        JVal::Obj(ms) => {
            if count_key(ms, ("system").spec_bytes()) > 1 || count_key(ms, ("task").spec_bytes())
                > 1 || count_key(ms, ("payload").spec_bytes()) > 1 {
                Err(DecodeError::DuplicateField)
            } else if count_key(ms, ("system").spec_bytes()) == 0 {
                Err(DecodeError::MissingSystem)
            } else if count_key(ms, ("task").spec_bytes()) == 0 {
                Err(DecodeError::MissingTask)
            } else {
                match get_key(ms, ("system").spec_bytes()) {
                    JVal::Str(sb) => {
                        if sb == sys_name(WebsocketSystem::PythonRepo) || sb == sys_name(
                            WebsocketSystem::PcUsage,
                        ) {
                            let system = if sb == sys_name(WebsocketSystem::PythonRepo) {
                                WebsocketSystem::PythonRepo
                            } else {
                                WebsocketSystem::PcUsage
                            };
                            match get_key(ms, ("task").spec_bytes()) {
                                JVal::Str(tb) => Ok(
                                    CMView {
                                        system,
                                        task: tb,
                                        payload: if count_key(ms, ("payload").spec_bytes()) == 0 {
                                            JVal::Null
                                        } else {
                                            get_key(ms, ("payload").spec_bytes())
                                        },
                                    },
                                ),
                                _ => Err(DecodeError::BadTask),
                            }
                        } else {
                            Err(DecodeError::BadSystem)
                        }
                    },
                    _ => Err(DecodeError::BadSystem),
                }
            }
        },
        _ => Err(DecodeError::NotObject),
    }
}

/// Decodes one text frame into a client request: the frame must parse as
/// JSON (else `Syntax`) and mean a request under `decode_spec`.
pub fn decode_client_message(text: &Vec<u8>) -> (r: Result<ClientMessage, DecodeError>)
    ensures
        match sp_json(text@) {
            None => r == Err::<ClientMessage, DecodeError>(DecodeError::Syntax),
            Some(v) => match (r, decode_spec(v)) {
                (Ok(m), Ok(mv)) => m@ == mv,
                (Err(e1), Err(e2)) => e1 == e2,
                _ => false,
            },
        },
{
    let parsed = match parse_json(text) {
        Some(v) => v,
        None => {
            return Err(DecodeError::Syntax);
        },
    };
    let ms = match parsed {
        JsonVal::Obj(ms) => ms,
        _ => {
            return Err(DecodeError::NotObject);
        },
    };
    let key_system = str_to_bytes("system");
    let key_task = str_to_bytes("task");
    let key_payload = str_to_bytes("payload");
    let ghost msv = member_views_of(ms@);
    let mut n_system: usize = 0;
    let mut n_task: usize = 0;
    let mut n_payload: usize = 0;
    let mut v_system: Option<JsonVal> = None;
    let mut v_task: Option<JsonVal> = None;
    let mut v_payload: Option<JsonVal> = None;
    let mut x: usize = 0;
    proof {
        assert(msv.subrange(0, 0) =~= Seq::<(Seq<u8>, JVal)>::empty());
    }
    while x < ms.len()
        invariant
            x <= ms.len(),
            msv == member_views_of(ms@),
            msv.len() == ms@.len(),
            key_system@ == ("system").spec_bytes(),
            key_task@ == ("task").spec_bytes(),
            key_payload@ == ("payload").spec_bytes(),
            n_system <= x && n_task <= x && n_payload <= x,
            n_system as nat == count_key(msv.subrange(0, x as int), ("system").spec_bytes()),
            n_task as nat == count_key(msv.subrange(0, x as int), ("task").spec_bytes()),
            n_payload as nat == count_key(msv.subrange(0, x as int), ("payload").spec_bytes()),
            n_system > 0 ==> v_system is Some && v_system->Some_0@ == get_key(
                msv.subrange(0, x as int),
                ("system").spec_bytes(),
            ),
            n_task > 0 ==> v_task is Some && v_task->Some_0@ == get_key(
                msv.subrange(0, x as int),
                ("task").spec_bytes(),
            ),
            n_payload > 0 ==> v_payload is Some && v_payload->Some_0@ == get_key(
                msv.subrange(0, x as int),
                ("payload").spec_bytes(),
            ),
            n_system == 0 ==> v_system is None,
            n_task == 0 ==> v_task is None,
            n_payload == 0 ==> v_payload is None,
        decreases ms@.len() - x,
    {
        let ghost pre = msv.subrange(0, x as int);
        proof {
            assert(msv[x as int] == (ms@[x as int].0@, ms@[x as int].1@));
            assert(msv.subrange(0, x as int + 1) =~= pre.push(msv[x as int]));
            lemma_count_key_push(pre, msv[x as int], ("system").spec_bytes());
            lemma_count_key_push(pre, msv[x as int], ("task").spec_bytes());
            lemma_count_key_push(pre, msv[x as int], ("payload").spec_bytes());
            lemma_get_key_push(pre, msv[x as int], ("system").spec_bytes());
            lemma_get_key_push(pre, msv[x as int], ("task").spec_bytes());
            lemma_get_key_push(pre, msv[x as int], ("payload").spec_bytes());
        }
        if bytes_eq(&ms[x].0, &key_system) {
            if n_system == 0 {
                v_system = Some(clone_pair_val(&ms[x]));
            }
            n_system = n_system + 1;
        }
        if bytes_eq(&ms[x].0, &key_task) {
            if n_task == 0 {
                v_task = Some(clone_pair_val(&ms[x]));
            }
            n_task = n_task + 1;
        }
        if bytes_eq(&ms[x].0, &key_payload) {
            if n_payload == 0 {
                v_payload = Some(clone_pair_val(&ms[x]));
            }
            n_payload = n_payload + 1;
        }
        x = x + 1;
    }
    proof {
        assert(msv.subrange(0, msv.len() as int) =~= msv);
        crate::json::lemma_mem_views(ms, 0);
        assert(crate::json::mem_views(ms, 0) =~= msv);
    }
    if n_system > 1 || n_task > 1 || n_payload > 1 {
        return Err(DecodeError::DuplicateField);
    }
    if n_system == 0 {
        return Err(DecodeError::MissingSystem);
    }
    if n_task == 0 {
        return Err(DecodeError::MissingTask);
    }
    let sys_val = match v_system {
        Some(v) => v,
        None => {
            return Err(DecodeError::BadSystem);
        },
    };
    let sb = match sys_val {
        JsonVal::Str(sb) => sb,
        _ => {
            return Err(DecodeError::BadSystem);
        },
    };
    let pr_name = str_to_bytes("python_repo");
    let pc_name = str_to_bytes("pc_usage");
    let system: WebsocketSystem = if bytes_eq(&sb, &pr_name) {
        WebsocketSystem::PythonRepo
    } else if bytes_eq(&sb, &pc_name) {
        WebsocketSystem::PcUsage
    } else {
        return Err(DecodeError::BadSystem);
    };
    let task = match v_task {
        Some(JsonVal::Str(tb)) => tb,
        Some(_) => {
            return Err(DecodeError::BadTask);
        },
        None => {
            return Err(DecodeError::BadTask);
        },
    };
    let payload = match v_payload {
        Some(p) => p,
        None => JsonVal::Null,
    };
    Ok(ClientMessage { system, task, payload })
}

/// Routing correctness: a well-formed request decodes to the very
/// subsystem its `system` field names — the wire name of the decoded
/// target reads back as exactly that field. Together with the workers'
/// own contracts, which put their subsystem's identifier on every answer,
/// the result envelope of a well-formed request carries the `system` the
/// request named.
pub proof fn lemma_routing_correctness(v: JVal)
    ensures
        match decode_spec(v) {
            Ok(m) => v matches JVal::Obj(ms) && get_key(ms, ("system").spec_bytes()) == JVal::Str(
                sys_name(m.system),
            ),
            Err(_) => true,
        },
{
    match v {
        JVal::Obj(ms) => {
            match decode_spec(v) {
                Ok(m) => {
                    assert(get_key(ms, ("system").spec_bytes()) matches JVal::Str(sb) && (sb
                        == sys_name(WebsocketSystem::PythonRepo) || sb == sys_name(
                        WebsocketSystem::PcUsage,
                    )));
                },
                Err(_) => {},
            }
        },
        _ => {},
    }
}

/// The JSON value a result envelope prints as: the fields `system` (the
/// subsystem's wire name, or null), `success` and `payload`, in this order.
pub open spec fn result_json(m: RMView) -> JVal {
    JVal::Obj(
        seq![
            (
                ("system").spec_bytes(),
                match m.system {
                    Some(s) => JVal::Str(sys_name(s)),
                    None => JVal::Null,
                },
            ),
            (("success").spec_bytes(), JVal::Bool(m.success)),
            (("payload").spec_bytes(), m.payload),
        ],
    )
}

/// What clients see is always a well-formed frame: the text a result
/// envelope prints as parses back as exactly the envelope's value,
/// whenever the payload's own number tokens are well formed and its
/// nesting leaves room for the envelope — never an unstructured failure.
pub proof fn lemma_result_frames_well_formed(m: RMView)
    requires
        crate::json::wf_val(m.payload),
        crate::json::jval_depth(m.payload) < crate::json::MAX_DEPTH,
    ensures
        sp_json(ser_val(result_json(m))) == Some(result_json(m)),
{
    let ms = result_json(m)->Obj_0;
    assert(crate::json::wf_mems(ms)) by {
        let tail = ms.subrange(1, 3);
        let last = tail.subrange(1, 2);
        assert(ms[1].1 == JVal::Bool(m.success));
        assert(ms[2].1 == m.payload);
        assert(tail[0] == ms[1] && tail[1] == ms[2]);
        assert(last[0] == ms[2]);
        assert(crate::json::wf_val(ms[0].1)) by {
            match m.system {
                Some(s) => {
                    assert(ms[0].1 == JVal::Str(sys_name(s)));
                },
                None => {
                    assert(ms[0].1 == JVal::Null);
                },
            }
        }
        assert(last.subrange(1, 1) =~= Seq::<(Seq<u8>, JVal)>::empty());
        assert(crate::json::wf_mems(last.subrange(1, 1)));
        assert(crate::json::wf_mems(last));
        assert(crate::json::wf_val(JVal::Bool(m.success)));
        assert(crate::json::wf_val(tail[0].1));
        assert(tail.subrange(1, tail.len() as int) == last);
        assert(crate::json::wf_mems(tail));
    }
    assert(crate::json::jval_depth(result_json(m)) <= crate::json::MAX_DEPTH) by {
        let tail = ms.subrange(1, 3);
        let last = tail.subrange(1, 2);
        assert(ms[1].1 == JVal::Bool(m.success));
        assert(ms[2].1 == m.payload);
        assert(tail[0] == ms[1] && tail[1] == ms[2]);
        assert(last[0] == ms[2]);
        assert(crate::json::jval_depth(ms[0].1) == 0) by {
            match m.system {
                Some(s) => {
                    assert(ms[0].1 == JVal::Str(sys_name(s)));
                },
                None => {
                    assert(ms[0].1 == JVal::Null);
                },
            }
        }
        assert(last.subrange(1, 1) =~= Seq::<(Seq<u8>, JVal)>::empty());
        assert(crate::json::mems_depth(last.subrange(1, 1)) == 0);
        assert(crate::json::mems_depth(last) == crate::json::jval_depth(m.payload));
        assert(crate::json::jval_depth(tail[0].1) == 0);
        assert(tail.subrange(1, tail.len() as int) == last);
        assert(crate::json::mems_depth(tail) <= crate::json::jval_depth(m.payload));
        assert(crate::json::mems_depth(ms) <= crate::json::jval_depth(m.payload));
    }
    crate::json::lemma_print_parse(result_json(m));
}

/// The wire name of a subsystem.
pub fn sys_name_bytes(s: WebsocketSystem) -> (r: Vec<u8>)
    ensures
        r@ == sys_name(s),
{
    match s {
        WebsocketSystem::PythonRepo => str_to_bytes("python_repo"),
        WebsocketSystem::PcUsage => str_to_bytes("pc_usage"),
    }
}

/// Prints a result envelope as a text frame.
pub fn encode_result(m: &ResultMessage) -> (r: Vec<u8>)
    ensures
        r@ == ser_val(result_json(m@)),
{
    let ghost mv = m@;
    let sys_val: JsonVal = match m.system {
        Some(s) => JsonVal::Str(sys_name_bytes(s)),
        None => JsonVal::Null,
    };
    let mut fields: Vec<(Vec<u8>, JsonVal)> = Vec::new();
    fields.push((str_to_bytes("system"), sys_val));
    fields.push((str_to_bytes("success"), JsonVal::Bool(m.success)));
    fields.push((str_to_bytes("payload"), clone_val(&m.payload)));
    let v = JsonVal::Obj(fields);
    proof {
        crate::json::lemma_mem_views(fields, 0);
        assert(crate::json::mem_views(fields, 0) =~= result_json(mv)->Obj_0);
    }
    to_bytes(&v)
}

} // verus!
