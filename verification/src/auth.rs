//! The compute rules of the authentication gate.
//!
//! Signing tokens and checking their signatures is the job of a JWT
//! implementation elsewhere; what belongs here is the shape of what that
//! gate is given: how a bearer credential is read out of an authorization
//! header, and which claim window a freshly issued token carries.

use vstd::prelude::*;

verus! {

/// ASCII whitespace, as header tokens are separated by it.
pub open spec fn is_ascii_ws(b: u8) -> bool {
    b == 32 || b == 9 || b == 10 || b == 12 || b == 13
}

/// ASCII lower-casing of one byte.
pub open spec fn ascii_lower(b: u8) -> u8 {
    if 65 <= b && b <= 90 {
        (b + 32) as u8
    } else {
        b
    }
}

/// The header with its leading ASCII whitespace removed.
pub open spec fn spec_skip_aws(s: Seq<u8>) -> Seq<u8>
    decreases s.len(),
{
    if s.len() > 0 && is_ascii_ws(s[0]) {
        spec_skip_aws(s.drop_first())
    } else {
        s
    }
}

/// The longest whitespace-free prefix.
pub open spec fn spec_take_token(s: Seq<u8>) -> Seq<u8>
    decreases s.len(),
{
    if s.len() > 0 && !is_ascii_ws(s[0]) {
        seq![s[0]] + spec_take_token(s.drop_first())
    } else {
        Seq::empty()
    }
}

/// What is left after the longest whitespace-free prefix.
pub open spec fn spec_drop_token(s: Seq<u8>) -> Seq<u8>
    decreases s.len(),
{
    if s.len() > 0 && !is_ascii_ws(s[0]) {
        spec_drop_token(s.drop_first())
    } else {
        s
    }
}

pub open spec fn bearer_scheme() -> Seq<u8> {
    seq![98u8, 101u8, 97u8, 114u8, 101u8, 114u8]  // "bearer"
}

/// How a bearer credential is read out of an authorization header: the
/// first whitespace-separated word must spell the bearer scheme in any
/// casing, the second word is the credential, and anything after it is
/// ignored. Anything else yields nothing.
pub open spec fn spec_parse_bearer(h: Seq<u8>) -> Option<Seq<u8>> {
    let scheme = spec_take_token(spec_skip_aws(h));
    let rest = spec_skip_aws(spec_drop_token(spec_skip_aws(h)));
    let tok = spec_take_token(rest);
    if scheme.map_values(|b: u8| ascii_lower(b)) == bearer_scheme() && tok.len() > 0 {
        Some(tok)
    } else {
        None
    }
}

proof fn lemma_skip_step(s: Seq<u8>, i: int)
    requires
        0 <= i < s.len(),
    ensures
        s.skip(i).drop_first() == s.skip(i + 1),
{
    assert(s.skip(i).drop_first() =~= s.skip(i + 1));
}

fn aws_byte(b: u8) -> (r: bool)
    ensures
        r == is_ascii_ws(b),
{
    b == 32 || b == 9 || b == 10 || b == 12 || b == 13
}

/// Advances past ASCII whitespace.
fn skip_aws(s: &Vec<u8>, i: usize) -> (j: usize)
    requires
        i <= s@.len(),
    ensures
        i <= j <= s@.len(),
        spec_skip_aws(s@.skip(i as int)) == s@.skip(j as int),
{
    let mut j = i;
    while j < s.len() && aws_byte(s[j])
        invariant
            i <= j <= s@.len(),
            spec_skip_aws(s@.skip(i as int)) == spec_skip_aws(s@.skip(j as int)),
        decreases s@.len() - j,
    {
        proof {
            lemma_skip_step(s@, j as int);
        }
        j = j + 1;
    }
    j
}

/// Collects the whitespace-free word starting at `i`.
fn take_token(s: &Vec<u8>, i: usize) -> (r: (Vec<u8>, usize))
    requires
        i <= s@.len(),
    ensures
        i <= r.1 <= s@.len(),
        r.0@ == spec_take_token(s@.skip(i as int)),
        s@.skip(r.1 as int) == spec_drop_token(s@.skip(i as int)),
{
    let mut tok: Vec<u8> = Vec::new();
    let mut j = i;
    proof {
        assert(tok@ + spec_take_token(s@.skip(i as int)) =~= spec_take_token(
            s@.skip(i as int),
        ));
    }
    while j < s.len() && !aws_byte(s[j])
        invariant
            i <= j <= s@.len(),
            spec_take_token(s@.skip(i as int)) == tok@ + spec_take_token(s@.skip(j as int)),
            spec_drop_token(s@.skip(i as int)) == spec_drop_token(s@.skip(j as int)),
        decreases s@.len() - j,
    {
        let ghost before = tok@;
        proof {
            lemma_skip_step(s@, j as int);
        }
        tok.push(s[j]);
        proof {
            assert(spec_take_token(s@.skip(j as int)) == seq![s@[j as int]] + spec_take_token(
                s@.skip(j as int + 1),
            ));
            assert(before + (seq![s@[j as int]] + spec_take_token(s@.skip(j as int + 1))) =~= (
            before + seq![s@[j as int]]) + spec_take_token(s@.skip(j as int + 1)));
            assert(before + seq![s@[j as int]] =~= tok@);
        }
        j = j + 1;
    }
    proof {
        assert(spec_take_token(s@.skip(j as int)) =~= Seq::<u8>::empty());
        assert(tok@ + Seq::<u8>::empty() =~= tok@);
        assert(spec_drop_token(s@.skip(j as int)) == s@.skip(j as int));
    }
    (tok, j)
}

/// Reads the bearer credential out of an authorization header, or nothing
/// when the header does not carry one.
pub fn parse_bearer(h: &Vec<u8>) -> (r: Option<Vec<u8>>)
    ensures
        match r {
            None => spec_parse_bearer(h@) is None,
            Some(tok) => spec_parse_bearer(h@) == Some(tok@),
        },
{
    proof {
        assert(h@.skip(0) =~= h@);
    }
    let start = skip_aws(h, 0);
    let (scheme, after_scheme) = take_token(h, start);
    let rest = skip_aws(h, after_scheme);
    let (tok, _after_tok) = take_token(h, rest);

    let mut lowered: Vec<u8> = Vec::new();
    let mut i: usize = 0;
    while i < scheme.len()
        invariant
            i <= scheme@.len(),
            lowered@ == scheme@.take(i as int).map_values(|b: u8| ascii_lower(b)),
        decreases scheme@.len() - i,
    {
        let b = scheme[i];
        let lb = if 65 <= b && b <= 90 {
            b + 32
        } else {
            b
        };
        lowered.push(lb);
        proof {
            assert(scheme@.take(i as int + 1) =~= scheme@.take(i as int).push(b));
            assert(scheme@.take(i as int + 1).map_values(|x: u8| ascii_lower(x)) =~= scheme@.take(
                i as int,
            ).map_values(|x: u8| ascii_lower(x)).push(ascii_lower(b)));
        }
        i = i + 1;
    }
    proof {
        assert(scheme@.take(scheme@.len() as int) =~= scheme@);
    }

    let is_bearer = lowered.len() == 6 && lowered[0] == 98 && lowered[1] == 101 && lowered[2]
        == 97 && lowered[3] == 114 && lowered[4] == 101 && lowered[5] == 114;
    proof {
        if is_bearer {
            assert(lowered@ =~= bearer_scheme());
        } else {
            assert(lowered@ != bearer_scheme());
        }
    }
    if is_bearer && tok.len() > 0 {
        Some(tok)
    } else {
        None
    }
}

/// The lifetime of an issued token, in seconds: one week, long but
/// stateless, so a stolen token works for at most this long.
pub const TOKEN_LIFETIME_SECONDS: i64 = 604800;

/// The claim window of a freshly issued token: issued and valid from now,
/// expiring one week later.
#[derive(Clone, Copy, Debug, PartialEq, Eq, Structural)]
pub struct TokenClaims {
    pub exp: u64,
    pub iat: u64,
    pub nbf: u64,
}

/// Computes the claim window for a token issued at `now_ts` (seconds since
/// the epoch). Yields nothing when the clock reads before the epoch or the
/// expiry would not be representable.
pub fn token_claims(now_ts: i64) -> (r: Option<TokenClaims>)
    ensures
        match r {
            None => now_ts < 0 || now_ts + TOKEN_LIFETIME_SECONDS > i64::MAX,
            Some(c) => {
                &&& now_ts >= 0
                &&& now_ts + TOKEN_LIFETIME_SECONDS <= i64::MAX
                &&& c.exp == now_ts + TOKEN_LIFETIME_SECONDS
                &&& c.iat == now_ts
                &&& c.nbf == now_ts
            },
        },
{
    if now_ts < 0 {
        return None;
    }
    match now_ts.checked_add(TOKEN_LIFETIME_SECONDS) {
        None => None,
        Some(exp) => Some(
            TokenClaims { exp: exp as u64, iat: now_ts as u64, nbf: now_ts as u64 },
        ),
    }
}

} // verus!
