//! Settings of the embedding service and the vector store, from the values
//! of their environment variables (read by the caller).
use vstd::prelude::*;
use crate::analysis::push_lit;
use crate::error::AppError;
use crate::text::{chars_of, spec_is_ascii_digit, string_from_chars, sub_chars};
use crate::textfmt::{trim, trim_chars};

verus! {

pub const DEFAULT_EMBED_MODEL_TYPE: &'static str = "dashscope";

pub const DEFAULT_EMBED_MODEL_NAME: &'static str = "text-embedding-v3";

pub const DEFAULT_EMBED_BASE_URL: &'static str = "https://dashscope.aliyuncs.com/compatible-mode/v1";

pub const DEFAULT_EMBED_DIMENSIONS: usize = 1024;

pub const DEFAULT_QDRANT_URL: &'static str = "http://localhost:6333";

pub const DEFAULT_QDRANT_COLLECTION: &'static str = "cheesebase_chunks";

/// The default least hybrid score, in hundredths.
pub const DEFAULT_HYBRID_SCORE_THRESHOLD_HUNDREDTHS: u32 = 45;

#[derive(Debug, Clone)]
pub struct EmbeddingConfig {
    pub model_type: String,
    pub model_name: String,
    pub api_key: String,
    pub base_url: String,
    pub dimensions: usize,
}

#[derive(Debug, Clone)]
pub struct QdrantConfig {
    pub url: String,
    pub collection: String,
}

/// The setting from a variable's value: the value trimmed, or the default
/// where it is missing or blank.
pub open spec fn setting(value: Option<Seq<char>>, default: Seq<char>) -> Seq<char> {
    match value {
        Some(v) => if trim(v).len() > 0 {
            trim(v)
        } else {
            default
        },
        None => default,
    }
}

pub open spec fn opt_view(v: Option<String>) -> Option<Seq<char>> {
    match v {
        Some(s) => Some(s@),
        None => None,
    }
}

pub fn env_or_default(value: Option<String>, default: &str) -> (r: String)
    ensures
        r@ == setting(opt_view(value), default@),
{
    match value {
        Some(v) => {
            let cs = chars_of(v.as_str());
            let t = trim_chars(cs.as_slice());
            if t.len() > 0 {
                string_from_chars(t.as_slice())
            } else {
                let d = chars_of(default);
                string_from_chars(d.as_slice())
            }
        },
        None => {
            let d = chars_of(default);
            string_from_chars(d.as_slice())
        },
    }
}

/// `s` without the `/` at its end.
pub open spec fn trim_end_slashes(s: Seq<char>) -> Seq<char>
    decreases s.len(),
{
    if s.len() > 0 && s.last() == '/' {
        trim_end_slashes(s.drop_last())
    } else {
        s
    }
}

pub fn trim_end_slashes_str(s: &str) -> (r: String)
    ensures
        r@ == trim_end_slashes(s@),
{
    let cs = chars_of(s);
    let mut j: usize = cs.len();
    assert(cs@.subrange(0, cs@.len() as int) == cs@);
    while j > 0 && cs[j - 1] == '/'
        invariant
            j <= cs@.len(),
            trim_end_slashes(cs@) == trim_end_slashes(cs@.subrange(0, j as int)),
        decreases j,
    {
        assert(cs@.subrange(0, j as int).drop_last() == cs@.subrange(0, j - 1));
        j = j - 1;
    }
    let out = sub_chars(cs.as_slice(), 0, j);
    string_from_chars(out.as_slice())
}

impl QdrantConfig {
    /// The vector store's settings from the values of the environment
    /// variables `QDRANT_URL` and `QDRANT_COLLECTION` (`None` where unset).
    pub fn from_env(url: Option<String>, collection: Option<String>) -> (c: Self)
        ensures
            c.url@ == trim_end_slashes(setting(opt_view(url), DEFAULT_QDRANT_URL@)),
            c.collection@ == setting(opt_view(collection), DEFAULT_QDRANT_COLLECTION@),
    {
        let u = env_or_default(url, DEFAULT_QDRANT_URL);
        QdrantConfig {
            url: trim_end_slashes_str(u.as_str()),
            collection: env_or_default(collection, DEFAULT_QDRANT_COLLECTION),
        }
    }
}

// ---------------------------------------------------------------------------
// Whole numbers
// ---------------------------------------------------------------------------
pub open spec fn digit_value(c: char) -> nat {
    (c as u32 - '0' as u32) as nat
}

/// The number that the decimal digits `s` stand for.
pub open spec fn digits_value(s: Seq<char>) -> nat
    decreases s.len(),
{
    if s.len() == 0 {
        0
    } else {
        digits_value(s.drop_last()) * 10 + digit_value(s.last())
    }
}

pub open spec fn all_digits(s: Seq<char>) -> bool {
    forall|i: int| 0 <= i < s.len() ==> spec_is_ascii_digit(#[trigger] s[i])
}

/// `str::parse::<usize>`: an optional `+`, then one or more decimal digits,
/// of a value that fits.
pub open spec fn parse_usize_spec(s: Seq<char>) -> Option<nat> {
    let d = if s.len() > 0 && s[0] == '+' { s.drop_first() } else { s };
    if d.len() > 0 && all_digits(d) && digits_value(d) <= usize::MAX {
        Some(digits_value(d))
    } else {
        None
    }
}

pub fn parse_usize(s: &str) -> (r: Option<usize>)
    ensures
        match r {
            Some(n) => parse_usize_spec(s@) == Some(n as nat),
            None => parse_usize_spec(s@) is None,
        },
{
    let cs = chars_of(s);
    let start: usize = if cs.len() > 0 && cs[0] == '+' { 1 } else { 0 };
    let ghost d = if s@.len() > 0 && s@[0] == '+' { s@.drop_first() } else { s@ };
    assert(d == cs@.subrange(start as int, cs@.len() as int));
    if start >= cs.len() {
        return None;
    }
    let mut n: usize = 0;
    let mut i: usize = start;
    while i < cs.len()
        invariant
            start <= i <= cs@.len(),
            d == cs@.subrange(start as int, cs@.len() as int),
            d == (if s@.len() > 0 && s@[0] == '+' { s@.drop_first() } else { s@ }),
            d.len() > 0,
            all_digits(cs@.subrange(start as int, i as int)),
            n == digits_value(cs@.subrange(start as int, i as int)),
        decreases cs.len() - i,
    {
        let c = cs[i];
        assert(cs@.subrange(start as int, i + 1).drop_last() == cs@.subrange(start as int, i as int));
        if !('0' <= c && c <= '9') {
            proof {
                let k = (i - start) as int;
                assert(d[k] == cs@[i as int]);
                assert(!spec_is_ascii_digit(d[k]));
                assert(!all_digits(d));
            }
            return None;
        }
        let v: usize = (c as u32 - '0' as u32) as usize;
        if n > (usize::MAX - v) / 10 {
            proof {
                let k = (i - start) as int;
                assert(n * 10 + v > usize::MAX) by (nonlinear_arith)
                    requires
                        n > (usize::MAX - v) / 10,
                        v <= 9,
                ;
                lemma_digits_grow(d, k + 1);
                assert(d.take(k + 1) == cs@.subrange(start as int, i + 1));
                assert(d.take(k + 1).drop_last() == cs@.subrange(start as int, i as int));
                assert(digit_value(d.take(k + 1).last()) == v);
                assert(digits_value(d.take(k + 1)) == n * 10 + v);
            }
            return None;
        }
        n = n * 10 + v;
        i = i + 1;
    }
    Some(n)
}

/// The value of a prefix of digits is at most that of the whole.
proof fn lemma_digits_grow(s: Seq<char>, k: int)
    requires
        0 <= k <= s.len(),
    ensures
        digits_value(s.take(k)) <= digits_value(s),
    decreases s.len() - k,
{
    if k < s.len() {
        lemma_digits_grow(s, k + 1);
        assert(s.take(k + 1).drop_last() == s.take(k));
    } else {
        assert(s.take(k) == s);
    }
}

// ---------------------------------------------------------------------------
// The embedding service
// ---------------------------------------------------------------------------
/// The message for an unsupported kind of model.
pub open spec fn unsupported_model(model_type: Seq<char>) -> Seq<char> {
    "当前版本仅支持 dashscope embedding，不支持 "@ + model_type
}

pub open spec fn missing_key() -> Seq<char> {
    "缺少 EMBED_API_KEY 环境变量"@
}

pub open spec fn bad_dimensions() -> Seq<char> {
    "EMBED_DIMENSIONS 必须是正整数"@
}

/// The embedding settings from the values of `EMBED_MODEL_TYPE`,
/// `EMBED_API_KEY`, `EMBED_MODEL_NAME`, `EMBED_BASE_URL` and
/// `EMBED_DIMENSIONS`.
pub open spec fn embedding_outcome(
    model_type: Option<Seq<char>>,
    api_key: Option<Seq<char>>,
    model_name: Option<Seq<char>>,
    base_url: Option<Seq<char>>,
    dimensions: Option<Seq<char>>,
    r: Result<EmbeddingConfig, AppError>,
) -> bool {
    let mt = setting(model_type, DEFAULT_EMBED_MODEL_TYPE@);
    let key = match api_key {
        Some(k) => trim(k),
        None => Seq::empty(),
    };
    let dims = match dimensions {
        Some(v) => if trim(v).len() > 0 {
            parse_usize_spec(trim(v))
        } else {
            Some(DEFAULT_EMBED_DIMENSIONS as nat)
        },
        None => Some(DEFAULT_EMBED_DIMENSIONS as nat),
    };
    if mt != DEFAULT_EMBED_MODEL_TYPE@ {
        r matches Err(AppError::Config(m)) && m@ == unsupported_model(mt)
    } else if key.len() == 0 {
        r matches Err(AppError::Config(m)) && m@ == missing_key()
    } else {
        match dims {
            None => r matches Err(AppError::Config(m)) && m@ == bad_dimensions(),
            Some(n) => r matches Ok(c) && {
                &&& c.model_type@ == mt
                &&& c.api_key@ == key
                &&& c.model_name@ == setting(model_name, DEFAULT_EMBED_MODEL_NAME@)
                &&& c.base_url@ == trim_end_slashes(setting(base_url, DEFAULT_EMBED_BASE_URL@))
                &&& c.dimensions == n
            },
        }
    }
}

impl EmbeddingConfig {
    /// The embedding settings from the values of the environment variables
    /// (`None` where unset).
    pub fn from_env(
        model_type: Option<String>,
        api_key: Option<String>,
        model_name: Option<String>,
        base_url: Option<String>,
        dimensions: Option<String>,
    ) -> (r: Result<Self, AppError>)
        ensures
            embedding_outcome(
                opt_view(model_type),
                opt_view(api_key),
                opt_view(model_name),
                opt_view(base_url),
                opt_view(dimensions),
                r,
            ),
    {
        let ghost mt0 = opt_view(model_type);
        let ghost key0 = opt_view(api_key);
        let ghost name0 = opt_view(model_name);
        let ghost url0 = opt_view(base_url);
        let ghost dims0 = opt_view(dimensions);
        let mt = env_or_default(model_type, DEFAULT_EMBED_MODEL_TYPE);
        let mtc = chars_of(mt.as_str());
        let dc = chars_of(DEFAULT_EMBED_MODEL_TYPE);
        if !crate::text::chars_eq(mtc.as_slice(), dc.as_slice()) {
            let mut m: Vec<char> = Vec::new();
            push_lit(&mut m, "当前版本仅支持 dashscope embedding，不支持 ");
            push_lit(&mut m, mt.as_str());
            return Err(AppError::Config(string_from_chars(m.as_slice())));
        }
        let key: Vec<char> = match api_key {
            Some(k) => {
                let kc = chars_of(k.as_str());
                trim_chars(kc.as_slice())
            },
            None => Vec::new(),
        };
        if key.len() == 0 {
            let mut m: Vec<char> = Vec::new();
            push_lit(&mut m, "缺少 EMBED_API_KEY 环境变量");
            return Err(AppError::Config(string_from_chars(m.as_slice())));
        }
        let dims: Option<usize> = match dimensions {
            Some(v) => {
                let vc = chars_of(v.as_str());
                let t = trim_chars(vc.as_slice());
                if t.len() > 0 {
                    let ts = string_from_chars(t.as_slice());
                    parse_usize(ts.as_str())
                } else {
                    Some(DEFAULT_EMBED_DIMENSIONS)
                }
            },
            None => Some(DEFAULT_EMBED_DIMENSIONS),
        };
        match dims {
            None => {
                let mut m: Vec<char> = Vec::new();
                push_lit(&mut m, "EMBED_DIMENSIONS 必须是正整数");
                Err(AppError::Config(string_from_chars(m.as_slice())))
            },
            Some(n) => {
                let name = env_or_default(model_name, DEFAULT_EMBED_MODEL_NAME);
                let url = env_or_default(base_url, DEFAULT_EMBED_BASE_URL);
                Ok(
                    EmbeddingConfig {
                        model_type: mt,
                        model_name: name,
                        api_key: string_from_chars(key.as_slice()),
                        base_url: trim_end_slashes_str(url.as_str()),
                        dimensions: n,
                    },
                )
            },
        }
    }
}

} // verus!
