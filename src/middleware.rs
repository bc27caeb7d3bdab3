use vstd::prelude::*;

verus! {

/// The status of a request refused for its API key.
pub const STATUS_UNAUTHORIZED: u16 = 401;

/// Why a request's API key was refused.
#[derive(Clone, Copy, Debug, PartialEq, Eq, Structural)]
pub enum ApiKeyError {
    /// No key, or one that is not known.
    Invalid,
    /// The key header is not ASCII.
    InvalidEncoding,
}

impl ApiKeyError {
    /// The text shown to the caller.
    pub fn message(&self) -> (r: String)
        ensures
            *self == ApiKeyError::Invalid ==> r@ == "Invalid API key"@,
            *self == ApiKeyError::InvalidEncoding ==> r@ == "API keys are ASCII values"@,
    {
        match self {
            ApiKeyError::Invalid => String::from_str("Invalid API key"),
            ApiKeyError::InvalidEncoding => String::from_str("API keys are ASCII values"),
        }
    }

    pub fn status_code(&self) -> (r: u16)
        ensures
            r == STATUS_UNAUTHORIZED,
    {
        STATUS_UNAUTHORIZED
    }
}

/// Decides whether a request's API key is accepted.
pub struct ApiKeyValidator {
    api_keys: Vec<String>,
}

impl ApiKeyValidator {
    /// The keys that are accepted.
    pub closed spec fn keys(self) -> Seq<Seq<char>> {
        self.api_keys@.map_values(|k: String| k@)
    }

    /// Whether `key` is present and one of the accepted keys.
    pub fn validate(&self, key: Option<&str>) -> (r: bool)
        ensures
            r == (key is Some && self.keys().contains(key->Some_0@)),
    {
        if key.is_none() {
            return false;
        }
        let given: &str = key.unwrap();
        let k = String::from_str(given);
        let mut i: usize = 0;
        while i < self.api_keys.len()
            invariant
                i <= self.api_keys@.len(),
                key is Some,
                k@ == key->Some_0@,
                forall|j: int| 0 <= j < i ==> self.api_keys@[j]@ != k@,
            decreases self.api_keys@.len() - i,
        {
            if self.api_keys[i] == k {
                proof {
                    assert(self.keys().len() == self.api_keys@.len());
                    assert(self.keys()[i as int] == k@);
                    assert(self.keys().contains(k@));
                }
                return true;
            }
            i = i + 1;
        }
        proof {
            if self.keys().contains(k@) {
                let j = choose|j: int| 0 <= j < self.keys().len() && self.keys()[j] == k@;
                assert(self.api_keys@[j]@ == k@);
            }
        }
        false
    }
}

/// A validator that accepts exactly the keys in `api_keys`.
pub fn api_key_validatorer(api_keys: Vec<String>) -> (r: ApiKeyValidator)
    ensures
        r.keys() == api_keys@.map_values(|k: String| k@),
{
    ApiKeyValidator { api_keys }
}

/// Guards requests with a validator of their API key.
pub struct ApiKeyService<F> {
    pub validator: F,
}

impl<F> ApiKeyService<F> {
    pub fn from_validator(f: F) -> (r: ApiKeyService<F>)
        ensures
            r.validator == f,
    {
        ApiKeyService { validator: f }
    }
}

/// How one character of a message is written inside a JSON string: a
/// backslash or a double quote gets a backslash before it.
pub open spec fn escape_char(c: char) -> Seq<char> {
    if c == '\\' {
        seq!['\\', '\\']
    } else if c == '"' {
        seq!['\\', '"']
    } else {
        seq![c]
    }
}

pub open spec fn escaped(s: Seq<char>) -> Seq<char>
    decreases s.len(),
{
    if s.len() == 0 {
        Seq::empty()
    } else {
        escaped(s.drop_last()) + escape_char(s.last())
    }
}

/// The JSON body that reports a failed request with message `msg`.
pub open spec fn error_body_of(msg: Seq<char>) -> Seq<char> {
    "{\"success\":false,\"message\":\""@ + escaped(msg) + "\"}"@
}

/// The JSON body that reports a failed request with message `msg`.
pub fn error_body(msg: &str) -> (r: String)
    ensures
        r@ == error_body_of(msg@),
{
    let n = msg.unicode_len();
    let mut out = String::from_str("{\"success\":false,\"message\":\"");
    let mut i: usize = 0;
    proof {
        assert(msg@.take(0) =~= Seq::<char>::empty());
    }
    while i < n
        invariant
            n == msg@.len(),
            i <= n,
            out@ == "{\"success\":false,\"message\":\""@ + escaped(msg@.take(i as int)),
        decreases n - i,
    {
        let c = msg.get_char(i);
        proof {
            assert(msg@.take(i as int + 1).drop_last() =~= msg@.take(i as int));
            reveal_strlit("\\\\");
            reveal_strlit("\\\"");
        }
        if c == '\\' {
            out.append("\\\\");
        } else if c == '"' {
            out.append("\\\"");
        } else {
            out.append(msg.substring_char(i, i + 1));
            proof {
                assert(msg@.subrange(i as int, i as int + 1) =~= seq![c]);
            }
        }
        proof {
            assert(out@ =~= "{\"success\":false,\"message\":\""@ + escaped(msg@.take(i as int + 1)));
        }
        i = i + 1;
    }
    out.append("\"}");
    proof {
        assert(msg@.take(n as int) =~= msg@);
    }
    out
}

} // verus!
