//! HTTP/1.1 response parsing: splitting raw response text into a status
//! line, a header mapping, and a body. The reliable byte stream that carries
//! the text is read outside the library; only the completed text comes here.

use vstd::prelude::*;
use vstd::string::StrSliceExecFns;
use vstd::string::StringExecFns;
use crate::text::find_from;
use crate::text::find_pat;
use crate::text::is_at;
use crate::text::lemma_find_from_some;
use crate::text::lemma_run_to_at;
use crate::text::run_to;
use crate::text::find_char;

verus! {

/// The blank-line separator between the header block and the body.
pub open spec fn crlf2() -> Seq<char> {
    seq!['\r', '\n', '\r', '\n']
}

/// The `": "` divider between a header key and its value.
pub open spec fn colon_sp() -> Seq<char> {
    seq![':', ' ']
}

/// A line with its trailing carriage return removed, if it has one.
pub open spec fn strip_cr(l: Seq<char>) -> Seq<char> {
    if l.len() > 0 && l[l.len() - 1] == '\r' {
        l.drop_last()
    } else {
        l
    }
}

/// The lines of `s`: split on `'\n'`, each stripped of a trailing `'\r'`,
/// with a final empty segment after a trailing newline dropped.
pub open spec fn lines_of(s: Seq<char>) -> Seq<Seq<char>>
    decreases s.len(),
    via lines_of_dec
{
    if s.len() == 0 {
        seq![]
    } else {
        let n = run_to(s, '\n');
        if n == s.len() {
            seq![strip_cr(s)]
        } else {
            seq![strip_cr(s.take(n))] + lines_of(s.skip(n + 1))
        }
    }
}

#[via_fn]
proof fn lines_of_dec(s: Seq<char>) {
    crate::text::lemma_run_to_bounds(s, '\n');
}

/// The key-value pairs read off a block's lines, in order: scanning stops at
/// the first empty line, and a line without a `": "` divider is passed over.
pub open spec fn pairs_of(lines: Seq<Seq<char>>) -> Seq<(Seq<char>, Seq<char>)>
    decreases lines.len(),
{
    if lines.len() == 0 {
        seq![]
    } else if lines[0].len() == 0 {
        seq![]
    } else {
        match find_from(lines[0], colon_sp(), 0) {
            Some(p) => seq![(lines[0].take(p), lines[0].skip(p + 2))] + pairs_of(
                lines.drop_first(),
            ),
            None => pairs_of(lines.drop_first()),
        }
    }
}

/// The abstract value of a parsed response.
pub struct RespModel {
    pub status: Seq<char>,
    pub headers: Seq<(Seq<char>, Seq<char>)>,
    pub body: Seq<char>,
}

/// The status line and header pairs of a header block.
pub open spec fn head_model(head: Seq<char>) -> (Seq<char>, Seq<(Seq<char>, Seq<char>)>) {
    let ls = lines_of(head);
    if ls.len() == 0 {
        (Seq::<char>::empty(), Seq::<(Seq<char>, Seq<char>)>::empty())
    } else {
        (ls[0], pairs_of(ls.drop_first()))
    }
}

/// What parsing raw response text yields: `None` without a blank-line
/// separator; otherwise the block before the first separator, parsed into a
/// status line and header pairs, and as body the text between the first
/// separator and the next one (or the end).
pub open spec fn parse_spec(s: Seq<char>) -> Option<RespModel> {
    match find_from(s, crlf2(), 0) {
        None => None,
        Some(i) => {
            let head = s.take(i);
            let rest = s.skip(i + 4);
            let body = match find_from(rest, crlf2(), 0) {
                None => rest,
                Some(j) => rest.take(j),
            };
            Some(
                RespModel { status: head_model(head).0, headers: head_model(head).1, body: body },
            )
        },
    }
}

/// The views of a list of owned key-value pairs.
pub open spec fn pairs_view(v: Seq<(String, String)>) -> Seq<(Seq<char>, Seq<char>)> {
    v.map_values(|p: (String, String)| (p.0@, p.1@))
}

/// The views of a list of owned lines.
spec fn str_views(v: Seq<String>) -> Seq<Seq<char>> {
    v.map_values(|x: String| x@)
}

/// A structured HTTP response: the status line, the header pairs in the
/// order their lines appeared, and the body text.
pub struct HttpResponse {
    pub status_line: String,
    pub headers: Vec<(String, String)>,
    pub body: String,
}

impl View for HttpResponse {
    type V = RespModel;

    open spec fn view(&self) -> RespModel {
        RespModel {
            status: self.status_line@,
            headers: pairs_view(self.headers@),
            body: self.body@,
        }
    }
}

/// The lines of `s`, as owned strings.
fn split_lines(s: &str) -> (r: Vec<String>)
    ensures
        str_views(r@) == lines_of(s@),
{
    let mut out: Vec<String> = Vec::new();
    let mut pos: usize = 0;
    let n = s.unicode_len();
    proof {
        assert(s@.skip(0) =~= s@);
        assert(str_views(out@) + lines_of(s@) =~= lines_of(s@));
    }
    while pos < n
        invariant
            0 <= pos <= n,
            n == s@.len(),
            lines_of(s@) == str_views(out@) + lines_of(s@.skip(pos as int)),
        decreases n - pos,
    {
        let j = find_char(s, '\n', pos);
        let segend = if j > pos && s.get_char(j - 1) == '\r' {
            j - 1
        } else {
            j
        };
        let line = String::from_str(s.substring_char(pos, segend));
        proof {
            let rest = s@.skip(pos as int);
            assert(forall|k: int|
                0 <= k < j - pos ==> rest[k] == s@[k + pos] && rest[k] != '\n');
            assert(j - pos == rest.len() || rest[j - pos] == '\n');
            lemma_run_to_at(rest, '\n', j - pos);
            if j == n {
                assert(strip_cr(rest) =~= line@);
                assert(lines_of(rest) == seq![line@]);
            } else {
                assert(rest.take(j - pos) =~= s@.subrange(pos as int, j as int));
                assert(strip_cr(rest.take(j - pos)) =~= line@);
                assert(rest.skip(j - pos + 1) =~= s@.skip(j + 1));
            }
        }
        let ghost prev_out = out@;
        out.push(line);
        proof {
            assert(str_views(out@) =~= str_views(prev_out).push(line@));
        }
        if j >= n {
            pos = n;
            proof {
                assert(s@.skip(n as int) =~= Seq::<char>::empty());
                assert(str_views(out@) + lines_of(s@.skip(pos as int)) =~= lines_of(s@));
            }
        } else {
            pos = j + 1;
            proof {
                assert(str_views(out@) + lines_of(s@.skip(pos as int)) =~= lines_of(s@));
            }
        }
    }
    proof {
        assert(s@.skip(pos as int) =~= s@.skip(n as int));
        assert(s@.skip(n as int) =~= Seq::<char>::empty());
        assert(str_views(out@) =~= lines_of(s@));
    }
    out
}

/// The status line and header pairs of a header block, as owned values.
fn parse_head(head: &str) -> (r: (String, Vec<(String, String)>))
    ensures
        r.0@ == head_model(head@).0,
        pairs_view(r.1@) == head_model(head@).1,
{
    let lines = split_lines(head);
    let ghost lv = str_views(lines@);
    if lines.len() == 0 {
        return (String::new(), Vec::new());
    }
    let status = lines[0].clone();
    let mut hs: Vec<(String, String)> = Vec::new();
    let mut i: usize = 1;
    while i < lines.len() && !lines[i].as_str().is_empty()
        invariant
            1 <= i <= lines@.len(),
            lv == str_views(lines@),
            lv == lines_of(head@),
            pairs_of(lv.skip(1)) == pairs_view(hs@) + pairs_of(lv.skip(i as int)),
        decreases lines@.len() - i,
    {
        let line = &lines[i];
        let ghost lseq = lv.skip(i as int);
        proof {
            assert(lseq[0] == lv[i as int]);
            assert(lv[i as int] == line@);
            assert(lseq.drop_first() =~= lv.skip(i + 1));
        }
        match find_pat(line.as_str(), ": ", 0) {
            Some(p) => {
                proof {
                    reveal_strlit(": ");
                    assert(": "@ =~= colon_sp());
                    lemma_find_from_some(line@, colon_sp(), 0, p as int);
                }
                let llen = line.as_str().unicode_len();
                proof {
                    assert(p + 2 <= llen);
                }
                let k = String::from_str(line.as_str().substring_char(0, p));
                let v = String::from_str(line.as_str().substring_char(p + 2, llen));
                proof {
                    assert(k@ =~= line@.take(p as int));
                    assert(v@ =~= line@.skip(p + 2));
                }
                let ghost prev_hs = hs@;
                hs.push((k, v));
                proof {
                    assert(pairs_view(hs@) =~= pairs_view(prev_hs).push((k@, v@)));
                    assert(pairs_of(lseq) == seq![(k@, v@)] + pairs_of(lv.skip(i + 1)));
                    assert(pairs_of(lv.skip(1)) =~= pairs_view(hs@) + pairs_of(lv.skip(i + 1)));
                }
            },
            None => {
                proof {
                    reveal_strlit(": ");
                    assert(": "@ =~= colon_sp());
                    assert(pairs_of(lseq) == pairs_of(lv.skip(i + 1)));
                }
            },
        }
        i += 1;
    }
    proof {
        if i < lines@.len() {
            assert(lv.skip(i as int)[0] == lv[i as int]);
            assert(pairs_of(lv.skip(i as int)) =~= Seq::<(Seq<char>, Seq<char>)>::empty());
        } else {
            assert(lv.skip(i as int) =~= Seq::<Seq<char>>::empty());
        }
        assert(pairs_view(hs@) =~= pairs_of(lv.skip(1)));
    }
    (status, hs)
}

/// Splits raw response text at the first blank-line separator into the
/// header block and the body segment that follows it, up to the next
/// separator or the end.
pub fn split_response(response: &str) -> (r: Option<(String, String)>)
    ensures
        match r {
            Some(hb) => {
                &&& find_from(response@, crlf2(), 0) matches Some(i) && hb.0@ == response@.take(i)
                &&& parse_spec(response@) matches Some(m) && m.body == hb.1@
            },
            None => find_from(response@, crlf2(), 0) is None,
        },
{
    proof {
        reveal_strlit("\r\n\r\n");
        assert("\r\n\r\n"@ =~= crlf2());
    }
    let n = response.unicode_len();
    match find_pat(response, "\r\n\r\n", 0) {
        None => None,
        Some(i) => {
            proof {
                lemma_find_from_some(response@, crlf2(), 0, i as int);
            }
            let head = String::from_str(response.substring_char(0, i));
            let rest = response.substring_char(i + 4, n);
            let body = match find_pat(rest, "\r\n\r\n", 0) {
                None => String::from_str(rest),
                Some(j) => {
                    proof {
                        lemma_find_from_some(rest@, crlf2(), 0, j as int);
                    }
                    String::from_str(rest.substring_char(0, j))
                },
            };
            proof {
                assert(head@ =~= response@.take(i as int));
            }
            Some((head, body))
        },
    }
}

/// Parses raw response text into its structured form, or `None` when the
/// blank-line separator is missing.
pub fn parse(raw: &str) -> (r: Option<HttpResponse>)
    ensures
        match r {
            Some(resp) => parse_spec(raw@) == Some(resp@),
            None => parse_spec(raw@) is None,
        },
{
    proof {
        reveal_strlit("\r\n\r\n");
        assert("\r\n\r\n"@ =~= crlf2());
    }
    let n = raw.unicode_len();
    match find_pat(raw, "\r\n\r\n", 0) {
        None => None,
        Some(i) => {
            proof {
                lemma_find_from_some(raw@, crlf2(), 0, i as int);
            }
            let head = raw.substring_char(0, i);
            let rest = raw.substring_char(i + 4, n);
            let body = match find_pat(rest, "\r\n\r\n", 0) {
                None => String::from_str(rest),
                Some(j) => {
                    proof {
                        lemma_find_from_some(rest@, crlf2(), 0, j as int);
                    }
                    String::from_str(rest.substring_char(0, j))
                },
            };
            let (status_line, headers) = parse_head(head);
            proof {
                assert(head@ =~= raw@.take(i as int));
            }
            Some(HttpResponse { status_line, headers, body })
        },
    }
}

/// Text without the blank-line separator anywhere — the empty text among
/// it — never parses.
pub proof fn lemma_parse_none_without_separator(s: Seq<char>)
    requires
        forall|k: int| !is_at(s, crlf2(), k),
    ensures
        parse_spec(s) is None,
{
    match find_from(s, crlf2(), 0) {
        Some(j) => lemma_find_from_some(s, crlf2(), 0, j),
        None => (),
    }
}

} // verus!
