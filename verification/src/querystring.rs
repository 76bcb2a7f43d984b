//! Query-string building for the tracker request.
//!
//! The engine assembles `key=value` pairs in order and percent-encodes
//! through the url crate; keys are taken as-is, values are escaped with the
//! query string as a whole.

use url::percent_encoding::percent_encode;
use url::percent_encoding::utf8_percent_encode;
use url::percent_encoding::DEFAULT_ENCODE_SET;
use vstd::prelude::*;
use vstd::string::StringExecFns;

verus! {

/// What `url::percent_encoding::percent_encode` returns for these bytes
/// with the default encode set: a function of the bytes alone.
pub uninterp spec fn percent_encoded_of(bytes: Seq<u8>) -> Seq<char>;

/// What `url::percent_encoding::utf8_percent_encode` returns for this text
/// with the default encode set: a function of the characters alone.
pub uninterp spec fn utf8_percent_encoded_of(text: Seq<char>) -> Seq<char>;

/// The raw, unescaped query string: `key=value` pairs joined with `&`.
pub open spec fn joined(params: Seq<(&str, String)>) -> Seq<char>
    decreases params.len(),
{
    if params.len() == 0 {
        Seq::<char>::empty()
    } else {
        let head = params.first();
        let rest = params.drop_first();
        head.0@ + seq!['='] + head.1@ + (if rest.len() > 0 {
            seq!['&'] + joined(rest)
        } else {
            Seq::<char>::empty()
        })
    }
}

/// An ordered collection of query parameters; keys are taken as-is, the
/// whole string is percent-encoded on the way out.
#[derive(Debug)]
pub struct QueryString<'a> {
    pub params: Vec<(&'a str, String)>,
}

impl<'a> QueryString<'a> {
    pub fn from(params: Vec<(&'a str, String)>) -> (r: QueryString<'a>)
        ensures
            r.params@ == params@,
    {
        let mut qs = QueryString { params: Vec::new() };
        qs.add_params(params);
        proof {
            assert(qs.params@ =~= params@);
        }
        qs
    }

    /// Append parameters, keeping their order.
    pub fn add_params(&mut self, params: Vec<(&'a str, String)>)
        ensures
            final(self).params@ == old(self).params@ + params@,
    {
        let mut rest = params;
        let mut i: usize = 0;
        let n: usize = rest.len();
        while i < n
            invariant
                n == rest@.len(),
                i <= n,
                self.params@ == old(self).params@ + rest@.take(i as int),
            decreases n - i,
        {
            let (key, val) = (rest[i].0, rest[i].1.clone());
            self.params.push((key, val));
            proof {
                assert(rest@[i as int].1@ == rest@[i as int].1@);
            }
            i += 1;
            proof {
                assert(self.params@ =~= old(self).params@ + rest@.take(i as int));
            }
        }
        proof {
            assert(rest@.take(n as int) =~= rest@);
        }
    }

    /// The percent-encoded query string of all parameters.
    pub fn query_string(&self) -> (r: String)
        ensures
            r@ == utf8_percent_encoded_of(joined(self.params@)),
    {
        let mut raw: String = String::new();
        let mut i: usize = 0;
        let n: usize = self.params.len();
        while i < n
            invariant
                n == self.params@.len(),
                i <= n,
                raw@ == joined(self.params@.take(i as int)) + (if 0 < i < n {
                    seq!['&']
                } else {
                    Seq::<char>::empty()
                }),
            decreases n - i,
        {
            let ghost prefix = raw@;
            raw.append(self.params[i].0);
            raw.append("=");
            raw.append(self.params[i].1.as_str());
            if i + 1 < n {
                raw.append("&");
            }
            proof {
                reveal_strlit("=");
                reveal_strlit("&");
                lemma_joined_step(self.params@, i as int);
                assert("="@ =~= seq!['=']);
                assert("&"@ =~= seq!['&']);
            }
            i += 1;
        }
        proof {
            assert(self.params@.take(n as int) =~= self.params@);
        }
        percent_encode_str(raw.as_str())
    }

    /// Relies on `url::percent_encoding::percent_encode` with
    /// `DEFAULT_ENCODE_SET`: its output is a function of the input bytes
    /// alone.
    #[verifier::external_body]
    pub fn encode_component(component: &[u8]) -> (r: String)
        ensures
            r@ == percent_encoded_of(component@),
    {
        percent_encode(component, DEFAULT_ENCODE_SET).collect::<String>()
    }
}

/// Unfolding `joined` at position `i`: appending the next `key=value` (and
/// a separator when more follow) extends the joined prefix.
#[verifier::spinoff_prover]
#[verifier::rlimit(100)]
proof fn lemma_joined_step(params: Seq<(&str, String)>, i: int)
    requires
        0 <= i < params.len(),
    ensures
        joined(params.take(i + 1)) + (if i + 1 < params.len() {
            seq!['&']
        } else {
            Seq::<char>::empty()
        }) == joined(params.take(i)) + (if 0 < i {
            seq!['&']
        } else {
            Seq::<char>::empty()
        }) + params[i].0@ + seq!['='] + params[i].1@ + (if i + 1 < params.len() {
            seq!['&']
        } else {
            Seq::<char>::empty()
        }),
    decreases i,
{
    if i == 0 {
        let t = params.take(1);
        assert(t.first() == params[0]);
        assert(t.drop_first() =~= Seq::<(&str, String)>::empty());
        assert(joined(params.take(1)) =~= params[0].0@ + seq!['='] + params[0].1@);
        assert(joined(params.take(0)) =~= Seq::<char>::empty());
    } else {
        let df = params.drop_first();
        let t1 = params.take(i + 1);
        let t0 = params.take(i);
        let h = params[0].0@ + seq!['='] + params[0].1@;
        let kv = params[i].0@ + seq!['='] + params[i].1@;
        let sep_end: Seq<char> = if i + 1 < params.len() {
            seq!['&']
        } else {
            Seq::<char>::empty()
        };
        let sep_mid: Seq<char> = if i > 1 {
            seq!['&']
        } else {
            Seq::<char>::empty()
        };
        assert(df.len() == params.len() - 1);
        assert(t1.first() == params[0]);
        assert(t0.first() == params[0]);
        assert(t1.drop_first() =~= df.take(i));
        assert(t0.drop_first() =~= df.take(i - 1));
        lemma_joined_step(df, i - 1);
        assert(df[i - 1] == params[i]);
        // the induction hypothesis, with separators phrased at this level
        assert(joined(df.take(i)) + sep_end == joined(df.take(i - 1)) + sep_mid + kv + sep_end);
        // unfold the two prefixes at their first element
        assert(joined(t1) =~= h + seq!['&'] + joined(df.take(i)));
        assert(joined(t0) =~= h + (if i > 1 {
            seq!['&'] + joined(df.take(i - 1))
        } else {
            Seq::<char>::empty()
        }));
        if i == 1 {
            assert(df.take(0) =~= Seq::<(&str, String)>::empty());
            assert(joined(df.take(0)) =~= Seq::<char>::empty());
        }
        assert(joined(t1) + sep_end =~= h + seq!['&'] + (joined(df.take(i)) + sep_end));
        assert(h + seq!['&'] + (joined(df.take(i)) + sep_end) =~= h + seq!['&'] + (joined(
            df.take(i - 1),
        ) + sep_mid + kv + sep_end));
        assert(joined(t0) + seq!['&'] + kv + sep_end =~= h + seq!['&'] + (joined(df.take(i - 1))
            + sep_mid + kv + sep_end));
        assert(joined(t1) + sep_end =~= joined(t0) + seq!['&'] + kv + sep_end);
    }
}

/// Relies on `url::percent_encoding::utf8_percent_encode` with
/// `DEFAULT_ENCODE_SET`: its output is a function of the input text alone.
#[verifier::external_body]
fn percent_encode_str(s: &str) -> (r: String)
    ensures
        r@ == utf8_percent_encoded_of(s@),
{
    utf8_percent_encode(s, DEFAULT_ENCODE_SET).collect::<String>()
}

} // verus!
