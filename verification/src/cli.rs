//! Command-line options of the gateway front-end, and their projection
//! onto configuration overrides.
//!
//! The embedder parses the actual command line; this module holds the
//! parsed shape and computes the key/value overrides it implies, with the
//! numeric and boolean values rendered exactly.

use vstd::prelude::*;

verus! {

/// Parsed command-line options.
#[derive(Debug, Clone, PartialEq, Eq)]
pub struct Args {
    pub port: Option<u16>,
    pub writeable: Option<bool>,
    pub fetch: Option<bool>,
    pub cache: Option<bool>,
    pub metrics: bool,
    pub tracing: bool,
    pub cfg: Option<Vec<u8>>,
    pub denylist: bool,
    pub num_threads: Option<u16>,
}

/// The decimal rendering of a number, most significant digit first.
pub open spec fn dec_seq(n: nat) -> Seq<char>
    decreases n,
{
    if n < 10 {
        seq![dec_digit(n)]
    } else {
        dec_seq(n / 10).push(dec_digit(n % 10))
    }
}

/// The character for one decimal digit.
pub open spec fn dec_digit(d: nat) -> char {
    if d == 0 {
        '0'
    } else if d == 1 {
        '1'
    } else if d == 2 {
        '2'
    } else if d == 3 {
        '3'
    } else if d == 4 {
        '4'
    } else if d == 5 {
        '5'
    } else if d == 6 {
        '6'
    } else if d == 7 {
        '7'
    } else if d == 8 {
        '8'
    } else {
        '9'
    }
}

/// The rendering of a boolean.
pub open spec fn bool_seq(b: bool) -> Seq<char> {
    if b {
        "true"@
    } else {
        "false"@
    }
}

/// Append the character for one decimal digit.
fn push_digit(s: &mut String, d: u64)
    requires
        d < 10,
    ensures
        final(s)@ == old(s)@.push(dec_digit(d as nat)),
{
    let piece: &str = if d == 0 {
        "0"
    } else if d == 1 {
        "1"
    } else if d == 2 {
        "2"
    } else if d == 3 {
        "3"
    } else if d == 4 {
        "4"
    } else if d == 5 {
        "5"
    } else if d == 6 {
        "6"
    } else if d == 7 {
        "7"
    } else if d == 8 {
        "8"
    } else {
        "9"
    };
    proof {
        reveal_strlit("0");
        reveal_strlit("1");
        reveal_strlit("2");
        reveal_strlit("3");
        reveal_strlit("4");
        reveal_strlit("5");
        reveal_strlit("6");
        reveal_strlit("7");
        reveal_strlit("8");
        reveal_strlit("9");
        assert(piece@ =~= seq![dec_digit(d as nat)]);
    }
    s.append(piece);
    proof {
        assert(final(s)@ =~= old(s)@.push(dec_digit(d as nat)));
    }
}

/// Render a number in decimal.
pub fn dec_string(n: u64) -> (r: String)
    ensures
        r@ == dec_seq(n as nat),
    decreases n,
{
    if n < 10 {
        let mut s = String::new();
        push_digit(&mut s, n);
        proof {
            assert(s@ =~= seq![dec_digit(n as nat)]);
        }
        s
    } else {
        let mut s = dec_string(n / 10);
        push_digit(&mut s, n % 10);
        s
    }
}

/// Render a boolean as text.
pub fn bool_string(b: bool) -> (r: String)
    ensures
        r@ == bool_seq(b),
{
    if b {
        String::from_str("true")
    } else {
        String::from_str("false")
    }
}

/// The configuration overrides the parsed options imply, in a fixed order:
/// one pair per present option, then the three flags that always override.
pub open spec fn spec_overrides(a: Args) -> Seq<(Seq<char>, Seq<char>)> {
    let tail = seq![
        ("denylist"@, bool_seq(a.denylist)),
        ("metrics.collect"@, bool_seq(a.metrics)),
        ("metrics.tracing"@, bool_seq(a.tracing)),
    ];
    let s0 = match a.port {
        Some(n) => seq![("port"@, dec_seq(n as nat))],
        None => Seq::empty(),
    };
    let s1 = match a.writeable {
        Some(b) => s0.push(("writable"@, bool_seq(b))),
        None => s0,
    };
    let s2 = match a.fetch {
        Some(b) => s1.push(("fetch"@, bool_seq(b))),
        None => s1,
    };
    let s3 = match a.cache {
        Some(b) => s2.push(("cache"@, bool_seq(b))),
        None => s2,
    };
    s3 + tail
}

impl Args {
    /// The key/value overrides these options imply.
    pub fn make_overrides_map(&self) -> (r: Vec<(String, String)>)
        ensures
            r@.len() == spec_overrides(*self).len(),
            forall|k: int|
                0 <= k < r@.len() ==> ((#[trigger] r@[k]).0@, r@[k].1@) == spec_overrides(
                    *self,
                )[k],
    {
        let mut out: Vec<(String, String)> = Vec::new();
        match self.port {
            Some(n) => {
                out.push((String::from_str("port"), dec_string(n as u64)));
            },
            None => {},
        }
        match self.writeable {
            Some(b) => {
                out.push((String::from_str("writable"), bool_string(b)));
            },
            None => {},
        }
        match self.fetch {
            Some(b) => {
                out.push((String::from_str("fetch"), bool_string(b)));
            },
            None => {},
        }
        match self.cache {
            Some(b) => {
                out.push((String::from_str("cache"), bool_string(b)));
            },
            None => {},
        }
        out.push((String::from_str("denylist"), bool_string(self.denylist)));
        out.push((String::from_str("metrics.collect"), bool_string(self.metrics)));
        out.push((String::from_str("metrics.tracing"), bool_string(self.tracing)));
        out
    }
}

} // verus!
