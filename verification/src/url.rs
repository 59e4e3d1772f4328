//! URL splitting: a textual URL becomes scheme, host and path by simple
//! splitting on `"://"` and `"/"`, with the scheme defaulted to `http` and
//! the path to `"/"`.

use vstd::prelude::*;
use vstd::string::StrSliceExecFns;
use vstd::string::StringExecFns;
use crate::Error;
use crate::text::find_from;
use crate::text::find_pat;
use crate::text::match_at;
use crate::text::find_char;
use crate::text::lemma_find_from_some;
use crate::text::lemma_run_to_at;
use crate::text::run_to;

verus! {

/// The abstract value of a split URL.
pub struct UrlModel {
    pub scheme: Seq<char>,
    pub host: Seq<char>,
    pub path: Seq<char>,
}

/// The `"://"` divider between scheme and the rest.
pub open spec fn scheme_sep() -> Seq<char> {
    seq![':', '/', '/']
}

/// Whether the input already names a scheme the splitter accepts.
pub open spec fn starts_http(u: Seq<char>) -> bool {
    u.len() >= 4 && u.subrange(0, 4) == "http"@
}

/// The address actually split: the input itself when it starts with
/// `http`, otherwise the input behind a default `http://`.
pub open spec fn addr_of(u: Seq<char>) -> Seq<char> {
    if starts_http(u) {
        u
    } else {
        "http://"@ + u
    }
}

/// What splitting an input URL yields: the text before the first `"://"`
/// as scheme; of the part behind it, capped at the next `"://"`, the text
/// before the first `"/"` as host and the rest, `"/"`-prefixed, as path.
/// `None` without a `"://"` or with an empty host.
pub open spec fn url_spec(u: Seq<char>) -> Option<UrlModel> {
    let addr = addr_of(u);
    match find_from(addr, scheme_sep(), 0) {
        None => None,
        Some(i) => {
            let after = addr.skip(i + 3);
            let region = match find_from(after, scheme_sep(), 0) {
                None => after,
                Some(e) => after.take(e),
            };
            let j = run_to(region, '/');
            if j == 0 {
                None
            } else {
                Some(
                    UrlModel {
                        scheme: addr.take(i),
                        host: region.take(j),
                        path: if j == region.len() {
                            seq!['/']
                        } else {
                            seq!['/'] + region.skip(j + 1)
                        },
                    },
                )
            }
        },
    }
}

/// An immutable split URL. The path is never empty: a missing path
/// normalizes to `"/"`.
pub struct URL {
    pub scheme: String,
    pub host: String,
    pub path: String,
}

impl View for URL {
    type V = UrlModel;

    open spec fn view(&self) -> UrlModel {
        UrlModel { scheme: self.scheme@, host: self.host@, path: self.path@ }
    }
}

impl URL {
    /// The URL invariant: the path is never empty.
    pub open spec fn wf(&self) -> bool {
        self.path@.len() > 0
    }

    /// Splits an input URL, defaulting the scheme to `http` and the path
    /// to `"/"`; fails when no `"://"` can be found or the host segment is
    /// missing.
    pub fn from(url: &str) -> (r: Result<URL, Error>)
        ensures
            match r {
                Ok(u) => url_spec(url@) == Some(u@) && u.wf(),
                Err(e) => url_spec(url@) is None && e is ParseUrlError,
            },
    {
        let n = url.unicode_len();
        proof {
            reveal_strlit("http");
        }
        let starts = if n >= 4 {
            match_at(url, "http", 0)
        } else {
            false
        };
        proof {
            if n < 4 {
                assert(!starts_http(url@));
            }
        }
        let addr: String = if starts {
            String::from_str(url)
        } else {
            let mut a = String::from_str("http://");
            a.append(url);
            a
        };
        proof {
            assert(addr@ == addr_of(url@));
            reveal_strlit("://");
            assert("://"@ =~= scheme_sep());
        }
        let alen = addr.as_str().unicode_len();
        match find_pat(addr.as_str(), "://", 0) {
            None => Err(Error::ParseUrlError),
            Some(i) => {
                proof {
                    lemma_find_from_some(addr@, scheme_sep(), 0, i as int);
                }
                let scheme = String::from_str(addr.as_str().substring_char(0, i));
                let after = addr.as_str().substring_char(i + 3, alen);
                let region: &str = match find_pat(after, "://", 0) {
                    None => after,
                    Some(e) => {
                        proof {
                            lemma_find_from_some(after@, scheme_sep(), 0, e as int);
                        }
                        after.substring_char(0, e)
                    },
                };
                let rlen = region.unicode_len();
                let j = find_char(region, '/', 0);
                proof {
                    lemma_run_to_at(region@, '/', j as int);
                }
                if j == 0 {
                    return Err(Error::ParseUrlError);
                }
                let host = String::from_str(region.substring_char(0, j));
                let path: String = if j == rlen {
                    String::from_str("/")
                } else {
                    let mut p = String::from_str("/");
                    p.append(region.substring_char(j + 1, rlen));
                    p
                };
                proof {
                    reveal_strlit("/");
                    assert("/"@ =~= seq!['/']);
                    assert(scheme@ =~= addr@.take(i as int));
                    if j == rlen {
                        assert(path@ =~= seq!['/']);
                    } else {
                        assert(path@ =~= seq!['/'] + region@.skip(j + 1));
                    }
                }
                Ok(URL { scheme, host, path })
            },
        }
    }
}

} // verus!
