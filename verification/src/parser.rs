//! Turning command-line host targets and option tokens into parameter
//! lists.

use vstd::prelude::*;
use crate::sshc::{Parameter, ParamView};
use crate::text::{trim, char_index, trim_str, split_at_char};

verus! {

/// Helpers that expand host targets and option tokens.
pub struct ParseHelper;

/// The parameter expansion of a host target `[user@]host[:port]`: `user`
/// is the fallback user name taken when no `@` is present, and the port
/// defaults to `22`.
pub open spec fn uri_params(s: Seq<char>, user: Seq<char>) -> Seq<ParamView> {
    let t = trim(s);
    let iu = char_index(t, '@');
    let u = if iu >= 0 {
        t.take(iu)
    } else {
        user
    };
    let rest = if iu >= 0 {
        t.skip(iu + 1)
    } else {
        s
    };
    let ip = char_index(rest, ':');
    let h = if ip >= 0 {
        rest.take(ip)
    } else {
        rest
    };
    let p = if ip >= 0 {
        rest.skip(ip + 1)
    } else {
        "22"@
    };
    seq![("User"@, Some(u)), ("HostName"@, Some(h)), ("Port"@, Some(p))]
}

/// The parameter that one `key[=value]` option token denotes.
pub open spec fn option_param(s: Seq<char>) -> ParamView {
    let i = char_index(s, '=');
    if i < 0 {
        (s, None)
    } else {
        (s.take(i), Some(s.skip(i + 1)))
    }
}

/// Whether an option token holds at most one `=`.
pub open spec fn option_ok(s: Seq<char>) -> bool {
    char_index(s, '=') < 0 || char_index(s.skip(char_index(s, '=') + 1), '=') < 0
}

/// Relies on whoami::username: the name of the user the process runs as,
/// read from the operating system; nothing is assumed of its value.
#[verifier::external_body]
fn os_username() -> String {
    whoami::username()
}

impl ParseHelper {
    /// Expands a host target `[user@]host[:port]` with an explicit
    /// fallback user name.
    pub fn uri_with_user(uri: &str, user: String) -> (r: Vec<Parameter>)
        ensures
            r.deep_view() == uri_params(uri@, user@),
    {
        let t = trim_str(uri);
        let (first, second) = split_at_char(t, '@');
        let (u, rest): (String, String) = match second {
            Some(after) => (first, after),
            None => (user, uri.to_owned()),
        };
        let (h, p): (String, String) = match split_at_char(rest.as_str(), ':') {
            (hh, Some(pp)) => (hh, pp),
            (hh, None) => (hh, "22".to_owned()),
        };
        let mut out: Vec<Parameter> = Vec::new();
        out.push(("User".to_owned(), Some(u)));
        out.push(("HostName".to_owned(), Some(h)));
        out.push(("Port".to_owned(), Some(p)));
        proof {
            assert(out.deep_view() =~~= uri_params(uri@, user@));
        }
        out
    }

    /// Expands a host target, taking the current OS user as the fallback
    /// user name.
    pub fn uri(uri: String) -> (r: Vec<Parameter>)
        ensures
            exists|user: Seq<char>| r.deep_view() == #[trigger] uri_params(uri@, user),
    {
        let user = os_username();
        let ghost uv = user@;
        let r = Self::uri_with_user(uri.as_str(), user);
        proof {
            assert(r.deep_view() == uri_params(uri@, uv));
        }
        r
    }

    /// Expands option tokens `key[=value]`, one parameter per token, with
    /// the value absent when the token has no `=`. Tokens with more than
    /// one `=` are rejected by the caller.
    pub fn options(options: Vec<String>) -> (r: Vec<Parameter>)
        requires
            forall|i: int|
                0 <= i < options.deep_view().len() ==> option_ok(#[trigger] options.deep_view()[i]),
        ensures
            r.deep_view().len() == options.deep_view().len(),
            forall|i: int|
                0 <= i < options.deep_view().len() ==> #[trigger] r.deep_view()[i] == option_param(
                    options.deep_view()[i],
                ),
    {
        let ghost odv = options.deep_view();
        let n: usize = options.len();
        let mut out: Vec<Parameter> = Vec::new();
        let mut i: usize = 0;
        proof {
            assert(odv.len() == n);
        }
        while i < n
            invariant
                i <= n,
                n == options.len(),
                odv == options.deep_view(),
                odv.len() == n,
                out.deep_view().len() == i,
                forall|j: int|
                    0 <= j < i ==> #[trigger] out.deep_view()[j] == option_param(odv[j]),
            decreases n - i,
        {
            proof {
                assert(odv[i as int] == options@[i as int].deep_view());
            }
            let tok: &String = &options[i];
            let (first, second) = split_at_char(tok.as_str(), '=');
            let ghost before = out.deep_view();
            match second {
                Some(v) => {
                    out.push((first, Some(v)));
                },
                None => {
                    out.push((first, None));
                },
            }
            proof {
                assert(out.deep_view() =~~= before.push(option_param(odv[i as int])));
            }
            i = i + 1;
        }
        out
    }
}

} // verus!
