//! Settings of the application and of one connection's heartbeat, and the
//! runtime environment selector. Reading settings from disk or from the
//! environment is the embedding application's work; the types and their
//! validity live here.

use vstd::prelude::*;
use vstd::string::*;
use vstd::utf8::encode_utf8;

verus! {

/// Heartbeat configuration of one session, in milliseconds.
#[derive(Clone, Copy, PartialEq, Eq, Structural, Debug)]
pub struct WebsocketSettings {
    /// How often a liveness probe goes out.
    pub heartbeat_interval: u64,
    /// How long the peer may stay silent before the session closes.
    pub client_timeout: u64,
}

impl WebsocketSettings {
    /// A session can be built only around a positive probe interval smaller
    /// than the timeout threshold, so at least one probe goes out before a
    /// silent client is given up.
    pub open spec fn wf(&self) -> bool {
        0 < self.heartbeat_interval < self.client_timeout
    }

    /// Whether these settings can drive a session.
    pub fn is_valid(&self) -> (r: bool)
        ensures
            r == self.wf(),
    {
        0 < self.heartbeat_interval && self.heartbeat_interval < self.client_timeout
    }
}

/// Settings of the application.
#[derive(Clone, Debug)]
pub struct Settings {
    pub host: String,
    pub port: u16,
    pub websocket: WebsocketSettings,
}

/// The possible runtime environments of the application.
#[derive(Clone, Copy, PartialEq, Eq, Structural, Debug)]
pub enum Environment {
    Local,
    Production,
}

/// The name of an environment.
pub open spec fn environment_name(e: Environment) -> Seq<char> {
    match e {
        Environment::Local => ("local")@,
        Environment::Production => ("production")@,
    }
}

/// An ASCII capital folded to its small form; any other byte unchanged.
pub open spec fn ascii_lower(b: u8) -> u8 {
    if 0x41 <= b && b <= 0x5A {
        (b + 0x20) as u8
    } else {
        b
    }
}

/// A byte string folded byte by byte.
pub open spec fn ascii_lower_bytes(s: Seq<u8>) -> Seq<u8> {
    Seq::new(s.len(), |i: int| ascii_lower(s[i]))
}

impl Environment {
    /// The name of this environment.
    pub fn as_str(&self) -> (r: &'static str)
        ensures
            r@ == environment_name(*self),
    {
        match self {
            Environment::Local => "local",
            Environment::Production => "production",
        }
    }

    /// Parses an environment name, ASCII case aside; any other name is
    /// rejected with a message naming its folded form.
    pub fn try_from(value: String) -> (r: Result<Environment, String>)
        ensures
            ascii_lower_bytes(encode_utf8(value@)) == ("local").spec_bytes() ==> r == Ok::<
                Environment,
                String,
            >(Environment::Local),
            (ascii_lower_bytes(encode_utf8(value@)) != ("local").spec_bytes()
                && ascii_lower_bytes(encode_utf8(value@)) == ("production").spec_bytes()) ==> r
                == Ok::<Environment, String>(Environment::Production),
            (ascii_lower_bytes(encode_utf8(value@)) != ("local").spec_bytes()
                && ascii_lower_bytes(encode_utf8(value@)) != ("production").spec_bytes()) ==> (
            match r {
                Ok(_) => false,
                Err(m) => encode_utf8(m@) == ascii_lower_bytes(encode_utf8(value@)) + (
                " is not a supported environment. Use either `local` or `production`."
                ).spec_bytes(),
            }),
    {
        let lowered = ascii_lower_string(&value);
        let folded = lowered.as_str().as_bytes_vec();
        let local_name = crate::message::str_to_bytes("local");
        let production_name = crate::message::str_to_bytes("production");
        if crate::message::bytes_eq(&folded, &local_name) {
            Ok(Environment::Local)
        } else if crate::message::bytes_eq(&folded, &production_name) {
            Ok(Environment::Production)
        } else {
            let ghost lowered_chars = lowered@;
            let m = lowered.concat(
                " is not a supported environment. Use either `local` or `production`.",
            );
            proof {
                lemma_encode_utf8_concat(
                    lowered_chars,
                    (" is not a supported environment. Use either `local` or `production`.")@,
                );
            }
            Err(m)
        }
    }
}

/// Relies on str::to_ascii_lowercase: ASCII capitals are mapped to their
/// small forms and every other character stands as it is; ASCII characters
/// encode as single bytes and no other byte lies in the ASCII range, so
/// the result's bytes are the input's bytes folded byte by byte.
#[verifier::external_body]
fn ascii_lower_string(s: &String) -> (r: String)
    ensures
        encode_utf8(r@) == ascii_lower_bytes(encode_utf8(s@)),
{
    s.to_ascii_lowercase()
}

/// Encoding distributes over concatenation of character strings.
proof fn lemma_encode_utf8_concat(a: Seq<char>, b: Seq<char>)
    ensures
        encode_utf8(a + b) == encode_utf8(a) + encode_utf8(b),
    decreases a.len(),
{
    if a.len() == 0 {
        assert(a + b =~= b);
        assert(Seq::<u8>::empty() + encode_utf8(b) =~= encode_utf8(b));
    } else {
        assert((a + b).drop_first() =~= a.drop_first() + b);
        assert((a + b)[0] == a[0]);
        lemma_encode_utf8_concat(a.drop_first(), b);
        assert(vstd::utf8::encode_scalar(a[0] as u32) + (encode_utf8(a.drop_first())
            + encode_utf8(b)) =~= (vstd::utf8::encode_scalar(a[0] as u32) + encode_utf8(
            a.drop_first(),
        )) + encode_utf8(b));
    }
}

} // verus!
