//! The law relating the request serializer to the response parser: text
//! framed the way `HttpRequest::serialize` frames it parses back to exactly
//! the header pairs and the body that went in.

use vstd::prelude::*;
use crate::text::is_at;
use crate::text::find_from;
use crate::text::lemma_find_from_exact;
use crate::text::lemma_run_to_at;
use crate::text::run_to;
use crate::response::crlf2;
use crate::response::colon_sp;
use crate::response::lines_of;
use crate::response::pairs_of;
use crate::response::strip_cr;
use crate::response::RespModel;
use crate::response::parse_spec;
use crate::http::Method;
use crate::http::ReqModel;
use crate::http::request_bytes;
use crate::http::content_len;
use crate::http::body_view;
use crate::http::method_text;
use crate::http::dec_str;
use crate::http::dec_digit;
use crate::http::headers_text;
use crate::http::header_line_text;
use crate::http::request_head_text;
use crate::http::lemma_headers_text_push;

verus! {

/// The line break between header lines.
spec fn crlf() -> Seq<char> {
    seq!['\r', '\n']
}

/// Text free of line breaks.
pub open spec fn text_wf(s: Seq<char>) -> bool {
    forall|k: int| 0 <= k < s.len() ==> s[k] != '\r' && s[k] != '\n'
}

/// A key behind which the `": "` divider cannot hide.
pub open spec fn key_wf(k: Seq<char>) -> bool {
    forall|i: int| !is_at(k, colon_sp(), i)
}

/// A line the joining lemmas accept: non-empty and break-free.
spec fn line_wf(l: Seq<char>) -> bool {
    l.len() > 0 && text_wf(l)
}

/// Lines joined by CR LF, with no trailing break.
spec fn join_lines(ls: Seq<Seq<char>>) -> Seq<char>
    decreases ls.len(),
{
    if ls.len() == 0 {
        Seq::<char>::empty()
    } else if ls.len() == 1 {
        ls[0]
    } else {
        ls[0] + crlf() + join_lines(ls.drop_first())
    }
}

proof fn lemma_join_first(ls: Seq<Seq<char>>)
    requires
        ls.len() > 0,
        ls[0].len() > 0,
    ensures
        join_lines(ls).len() > 0,
        join_lines(ls)[0] == ls[0][0],
{
    if ls.len() == 1 {
    } else {
        assert(join_lines(ls)[0] == ls[0][0]);
    }
}

/// An occurrence inside the right part of a concatenation is an occurrence
/// in that part, and the other way round.
proof fn lemma_is_at_shift(a: Seq<char>, b: Seq<char>, p: Seq<char>, i: int)
    requires
        i >= a.len(),
    ensures
        is_at(a + b, p, i) == is_at(b, p, i - a.len()),
{
    let t = a + b;
    if i - a.len() + p.len() <= b.len() {
        assert(t.subrange(i, i + p.len() as int) =~= b.subrange(
            i - a.len(),
            i - a.len() + p.len(),
        ));
    }
}

/// No blank-line separator begins inside joined well-formed lines, whatever
/// separator-opening text follows them.
proof fn lemma_join_no_sep(ls: Seq<Seq<char>>, suffix: Seq<char>)
    requires
        ls.len() > 0,
        forall|t: int| 0 <= t < ls.len() ==> #[trigger] line_wf(ls[t]),
        suffix.len() >= 2,
        suffix[0] == '\r',
        suffix[1] == '\n',
    ensures
        forall|i: int|
            0 <= i < join_lines(ls).len() ==> !is_at(join_lines(ls) + suffix, crlf2(), i),
    decreases ls.len(),
{
    let j = join_lines(ls);
    let t = j + suffix;
    assert(line_wf(ls[0]));
    if ls.len() == 1 {
        assert forall|i: int| 0 <= i < j.len() implies !is_at(t, crlf2(), i) by {
            if is_at(t, crlf2(), i) {
                assert(t.subrange(i, i + 4)[0] == t[i]);
                assert(t[i] == ls[0][i]);
                assert(ls[0][i] == '\r');
            }
        }
    } else {
        let l0 = ls[0];
        let rest = ls.drop_first();
        assert(forall|t2: int| 0 <= t2 < rest.len() ==> #[trigger] line_wf(rest[t2])) by {
            assert(forall|t2: int|
                0 <= t2 < rest.len() ==> rest[t2] == ls[t2 + 1] && line_wf(ls[t2 + 1]));
        }
        lemma_join_no_sep(rest, suffix);
        let j2 = join_lines(rest);
        assert(j == l0 + crlf() + j2);
        let pre = l0 + crlf();
        assert(t =~= pre + (j2 + suffix));
        assert(line_wf(rest[0]));
        lemma_join_first(rest);
        assert forall|i: int| 0 <= i < j.len() implies !is_at(t, crlf2(), i) by {
            if is_at(t, crlf2(), i) {
                assert(t.subrange(i, i + 4)[0] == t[i]);
                assert(t.subrange(i, i + 4)[1] == t[i + 1]);
                assert(t.subrange(i, i + 4)[2] == t[i + 2]);
                assert(t[i] == '\r' && t[i + 1] == '\n' && t[i + 2] == '\r');
                if i < l0.len() {
                    assert(t[i] == l0[i]);
                    assert(false);
                } else if i == l0.len() {
                    assert(t[i + 2] == (j2 + suffix)[0]);
                    assert((j2 + suffix)[0] == j2[0]);
                    assert(j2[0] == rest[0][0]);
                    assert(false);
                } else if i == l0.len() + 1 {
                    assert(t[i] == '\n');
                    assert(false);
                } else {
                    lemma_is_at_shift(pre, j2 + suffix, crlf2(), i);
                    assert(is_at(j2 + suffix, crlf2(), i - pre.len()));
                    assert(i - pre.len() < j2.len());
                    assert(false);
                }
            }
        }
    }
}

/// Splitting joined well-formed lines gives the lines back.
proof fn lemma_lines_of_join(ls: Seq<Seq<char>>)
    requires
        ls.len() > 0,
        forall|t: int| 0 <= t < ls.len() ==> #[trigger] line_wf(ls[t]),
    ensures
        lines_of(join_lines(ls)) == ls,
    decreases ls.len(),
{
    let j = join_lines(ls);
    assert(line_wf(ls[0]));
    if ls.len() == 1 {
        lemma_run_to_at(j, '\n', j.len() as int);
        assert(strip_cr(j) == j);
        assert(lines_of(j) =~= ls);
    } else {
        let l0 = ls[0];
        let rest = ls.drop_first();
        assert(forall|t2: int| 0 <= t2 < rest.len() ==> #[trigger] line_wf(rest[t2])) by {
            assert(forall|t2: int|
                0 <= t2 < rest.len() ==> rest[t2] == ls[t2 + 1] && line_wf(ls[t2 + 1]));
        }
        lemma_lines_of_join(rest);
        let j2 = join_lines(rest);
        assert(j == l0 + crlf() + j2);
        assert(line_wf(rest[0]));
        lemma_join_first(rest);
        let n = l0.len() as int;
        lemma_run_to_at(j, '\n', n + 1);
        assert(run_to(j, '\n') == n + 1);
        assert(n + 1 < j.len());
        assert(j.take(n + 1) =~= l0 + seq!['\r']);
        assert(strip_cr(j.take(n + 1)) =~= l0);
        assert(j.skip(n + 2) =~= j2);
        assert(lines_of(j) == seq![strip_cr(j.take(n + 1))] + lines_of(j.skip(n + 2)));
        assert(lines_of(j) =~= ls);
    }
}

/// The line a key-value pair serializes to, without its line break.
spec fn pair_line(p: (Seq<char>, Seq<char>)) -> Seq<char> {
    p.0 + colon_sp() + p.1
}

/// The lines of a pair list, in order.
spec fn pair_lines(ps: Seq<(Seq<char>, Seq<char>)>) -> Seq<Seq<char>> {
    ps.map_values(|p: (Seq<char>, Seq<char>)| pair_line(p))
}

/// A pair line splits back at its own divider when the key hides none.
proof fn lemma_pair_line_splits(k: Seq<char>, v: Seq<char>)
    requires
        key_wf(k),
    ensures
        find_from(pair_line((k, v)), colon_sp(), 0) == Some(k.len() as int),
        pair_line((k, v)).take(k.len() as int) == k,
        pair_line((k, v)).skip(k.len() as int + 2) == v,
{
    let l = k + colon_sp() + v;
    assert(l.subrange(k.len() as int, k.len() as int + 2) =~= colon_sp());
    assert(is_at(l, colon_sp(), k.len() as int));
    assert forall|i: int| 0 <= i < k.len() implies !is_at(l, colon_sp(), i) by {
        if is_at(l, colon_sp(), i) {
            assert(l.subrange(i, i + 2)[0] == l[i]);
            assert(l.subrange(i, i + 2)[1] == l[i + 1]);
            assert(l[i] == ':' && l[i + 1] == ' ');
            if i + 1 < k.len() {
                assert(k[i] == ':' && k[i + 1] == ' ');
                assert(k.subrange(i, i + 2) =~= colon_sp());
                assert(is_at(k, colon_sp(), i));
            } else {
                assert(l[i + 1] == colon_sp()[0]);
            }
        }
    }
    lemma_find_from_exact(l, colon_sp(), 0, k.len() as int);
    assert(l.take(k.len() as int) =~= k);
    assert(l.skip(k.len() as int + 2) =~= v);
}

/// Reading pairs off the lines of a pair list gives the list back.
proof fn lemma_pairs_of_pair_lines(ps: Seq<(Seq<char>, Seq<char>)>)
    requires
        forall|t: int| 0 <= t < ps.len() ==> #[trigger] key_wf(ps[t].0),
    ensures
        pairs_of(pair_lines(ps)) == ps,
    decreases ps.len(),
{
    if ps.len() == 0 {
        assert(pair_lines(ps) =~= Seq::<Seq<char>>::empty());
        assert(pairs_of(pair_lines(ps)) =~= ps);
    } else {
        assert(key_wf(ps[0].0));
        let l = pair_line(ps[0]);
        assert(pair_lines(ps)[0] == l);
        assert(l.len() >= 2);
        lemma_pair_line_splits(ps[0].0, ps[0].1);
        assert(pair_lines(ps).drop_first() =~= pair_lines(ps.drop_first())) by {
            assert(forall|t: int|
                0 <= t < ps.len() - 1 ==> pair_lines(ps).drop_first()[t] == pair_line(
                    #[trigger] ps.drop_first()[t],
                ));
        }
        assert(forall|t: int|
            0 <= t < ps.drop_first().len() ==> #[trigger] key_wf(ps.drop_first()[t].0)) by {
            assert(forall|t: int|
                0 <= t < ps.len() - 1 ==> ps.drop_first()[t] == ps[t + 1] && key_wf(ps[t + 1].0));
        }
        lemma_pairs_of_pair_lines(ps.drop_first());
        assert(pairs_of(pair_lines(ps)) == seq![(l.take(ps[0].0.len() as int), l.skip(
            ps[0].0.len() as int + 2,
        ))] + ps.drop_first());
        assert(pairs_of(pair_lines(ps)) =~= ps);
    }
}

/// Joining a pair list's lines in front of further lines writes exactly the
/// serializer's header-line text before them.
proof fn lemma_join_pairs(ps: Seq<(Seq<char>, Seq<char>)>, tail: Seq<Seq<char>>)
    requires
        tail.len() >= 1,
    ensures
        join_lines(pair_lines(ps) + tail) == headers_text(ps) + join_lines(tail),
    decreases ps.len(),
{
    reveal_strlit(": ");
    reveal_strlit("\r\n");
    if ps.len() == 0 {
        assert(pair_lines(ps) + tail =~= tail);
        assert(join_lines(pair_lines(ps) + tail) =~= headers_text(ps) + join_lines(tail));
    } else {
        let ls = pair_lines(ps) + tail;
        assert(ls.len() >= 2);
        assert(ls[0] == pair_line(ps[0]));
        assert(ls.drop_first() =~= pair_lines(ps.drop_first()) + tail) by {
            assert(forall|t: int|
                0 <= t < ps.len() - 1 ==> pair_lines(ps).drop_first()[t] == pair_line(
                    #[trigger] ps.drop_first()[t],
                ));
        }
        lemma_join_pairs(ps.drop_first(), tail);
        assert(join_lines(ls) == ls[0] + crlf() + (headers_text(ps.drop_first()) + join_lines(
            tail,
        )));
        assert(header_line_text(ps[0]) =~= pair_line(ps[0]) + crlf()) by {
            assert(": "@ =~= colon_sp());
            assert("\r\n"@ =~= crlf());
        }
        assert(join_lines(ls) =~= headers_text(ps) + join_lines(tail));
    }
}

proof fn lemma_text_wf_concat(a: Seq<char>, b: Seq<char>)
    requires
        text_wf(a),
        text_wf(b),
    ensures
        text_wf(a + b),
{
    assert forall|k: int| 0 <= k < (a + b).len() implies (a + b)[k] != '\r' && (a + b)[k] != '\n' by {
        if k < a.len() {
            assert((a + b)[k] == a[k]);
        } else {
            assert((a + b)[k] == b[k - a.len()]);
        }
    }
}

proof fn lemma_key_wf_of_colon_free(k: Seq<char>)
    requires
        forall|t: int| 0 <= t < k.len() ==> k[t] != ':',
    ensures
        key_wf(k),
{
    assert forall|i: int| !is_at(k, colon_sp(), i) by {
        if is_at(k, colon_sp(), i) {
            assert(k.subrange(i, i + 2)[0] == k[i]);
            assert(k[i] == ':');
        }
    }
}

/// The decimal digits of a value hold no break, no colon.
proof fn lemma_dec_str_chars(n: int)
    ensures
        forall|i: int|
            0 <= i < dec_str(n).len() ==> dec_str(n)[i] != '\r' && dec_str(n)[i] != '\n'
                && dec_str(n)[i] != ':',
    decreases n,
{
    if n < 10 {
    } else {
        vstd::arithmetic::div_mod::lemma_div_pos_is_pos(n, 10);
        vstd::arithmetic::div_mod::lemma_div_decreases(n, 10);
        lemma_dec_str_chars(n / 10);
        assert(forall|i: int|
            0 <= i < dec_str(n).len() ==> dec_str(n)[i] == (if i < dec_str(n / 10).len() {
                dec_str(n / 10)[i]
            } else {
                dec_digit(n % 10)
            }));
    }
}

/// Serializing a request head for break-free path, host and headers whose
/// keys hide no `": "` divider, and then parsing the whole framed text,
/// gives back the status line, every header pair in order — the serializer's
/// own Host, Content-Length and Connection lines around them — and the body
/// exactly. A body in which the blank-line separator occurs (also one
/// ending in CR LF CR) is cut short at it, so such bodies stay outside the
/// law.
#[verifier::rlimit(60)]
pub proof fn lemma_serialize_parse_round_trip(
    m: Method,
    path: Seq<char>,
    host: Seq<char>,
    hs: Seq<(Seq<char>, Seq<char>)>,
    clen: int,
    body: Seq<char>,
)
    requires
        text_wf(path),
        text_wf(host),
        forall|t: int|
            0 <= t < hs.len() ==> #[trigger] text_wf(hs[t].0) && text_wf(hs[t].1) && key_wf(
                hs[t].0,
            ),
        forall|i: int| 0 <= i < body.len() ==> !is_at(body + crlf2(), crlf2(), i),
    ensures
        parse_spec(request_head_text(m, path, host, hs, clen) + body + crlf2()) == Some(
            RespModel {
                status: method_text(m) + " "@ + path + " HTTP/1.1"@,
                headers: seq![("Host"@, host)] + hs + seq![
                    ("Content-Length"@, dec_str(clen)),
                    ("Connection"@, "Close"@),
                ],
                body: body,
            },
        ),
{
    reveal_strlit("GET");
    reveal_strlit("POST");
    reveal_strlit("PUT");
    reveal_strlit("DELETE");
    reveal_strlit(" ");
    reveal_strlit(" HTTP/1.1");
    reveal_strlit(" HTTP/1.1\r\n");
    reveal_strlit("Host");
    reveal_strlit("Host: ");
    reveal_strlit("\r\n");
    reveal_strlit(": ");
    reveal_strlit("Content-Length");
    reveal_strlit("Content-Length: ");
    reveal_strlit("Connection");
    reveal_strlit("Close");
    reveal_strlit("Connection: Close\r\n");

    let l0 = method_text(m) + " "@ + path + " HTTP/1.1"@;
    let hostp = ("Host"@, host);
    let clp = ("Content-Length"@, dec_str(clen));
    let connp = ("Connection"@, "Close"@);
    let big = seq![hostp] + hs + seq![clp, connp];
    let ls = seq![l0] + pair_lines(big);
    let h = request_head_text(m, path, host, hs, clen);
    let j = join_lines(ls);

    // Step 1: the head text is the joined lines plus the final blank line.
    let front = (seq![hostp] + hs).push(clp);
    let conn_line = pair_line(connp);
    assert(big =~= front.push(connp));
    assert(pair_lines(big) =~= pair_lines(front) + seq![conn_line]) by {
        assert(forall|t: int|
            0 <= t < front.len() ==> pair_lines(big)[t] == pair_line(#[trigger] big[t])
                && big[t] == front[t]);
    }
    lemma_join_pairs(front, seq![conn_line]);
    assert(join_lines(seq![conn_line]) == conn_line);
    lemma_headers_text_push(seq![hostp] + hs, clp);
    assert((seq![hostp] + hs).drop_first() =~= hs);
    assert(headers_text(seq![hostp] + hs) == header_line_text(hostp) + headers_text(hs));
    assert(ls[0] == l0 && ls.drop_first() =~= pair_lines(big));
    assert(ls.len() >= 2) by {
        assert(pair_lines(big).len() == big.len());
    }
    assert(j == l0 + crlf() + (headers_text(front) + conn_line));
    assert(" HTTP/1.1\r\n"@ =~= " HTTP/1.1"@ + "\r\n"@);
    assert("Host: "@ =~= "Host"@ + ": "@);
    assert("Content-Length: "@ =~= "Content-Length"@ + ": "@);
    assert("Connection: Close\r\n"@ =~= "Connection"@ + ": "@ + "Close"@ + "\r\n"@);
    assert(crlf() =~= "\r\n"@);
    assert(colon_sp() =~= ": "@);
    assert(h =~= j + crlf2()) by {
        assert(header_line_text(hostp) == "Host"@ + ": "@ + host + "\r\n"@);
        assert(header_line_text(clp) == "Content-Length"@ + ": "@ + dec_str(clen) + "\r\n"@);
        assert(conn_line == "Connection"@ + ": "@ + "Close"@);
        assert(crlf2() =~= "\r\n"@ + "\r\n"@);
    }

    // Step 2: every line is well formed.
    assert(text_wf(" "@));
    assert(text_wf(" HTTP/1.1"@));
    assert(text_wf(method_text(m))) by {
        match m {
            Method::GET => assert(text_wf("GET"@)),
            Method::POST => assert(text_wf("POST"@)),
            Method::PUT => assert(text_wf("PUT"@)),
            Method::DELETE => assert(text_wf("DELETE"@)),
        }
    }
    lemma_text_wf_concat(method_text(m), " "@);
    lemma_text_wf_concat(method_text(m) + " "@, path);
    lemma_text_wf_concat(method_text(m) + " "@ + path, " HTTP/1.1"@);
    assert(line_wf(l0)) by {
        assert(l0.len() >= " HTTP/1.1"@.len());
    }
    assert(text_wf(colon_sp()));
    lemma_dec_str_chars(clen);
    assert(text_wf("Host"@) && text_wf("Content-Length"@) && text_wf("Connection"@) && text_wf(
        "Close"@,
    ) && text_wf(dec_str(clen)));
    assert(forall|t: int| 0 <= t < big.len() ==> text_wf(#[trigger] big[t].0) && text_wf(big[t].1))
        by {
        assert(forall|t: int| 1 <= t < hs.len() + 1 ==> big[t] == hs[t - 1]);
    }
    assert forall|t: int| 0 <= t < ls.len() implies #[trigger] line_wf(ls[t]) by {
        if t == 0 {
            assert(ls[0] == l0);
        } else {
            assert(ls[t] == pair_line(big[t - 1]));
            lemma_text_wf_concat(big[t - 1].0, colon_sp());
            lemma_text_wf_concat(big[t - 1].0 + colon_sp(), big[t - 1].1);
            assert(pair_line(big[t - 1]).len() >= 2);
        }
    }

    // Step 3: every key passes the divider back through.
    lemma_key_wf_of_colon_free("Host"@);
    lemma_key_wf_of_colon_free("Content-Length"@);
    lemma_key_wf_of_colon_free("Connection"@);
    assert(forall|t: int| 0 <= t < big.len() ==> #[trigger] key_wf(big[t].0)) by {
        assert(forall|t: int| 1 <= t < hs.len() + 1 ==> big[t] == hs[t - 1]);
    }

    // Step 4: the first separator stands exactly after the joined lines.
    let text = h + body + crlf2();
    let suffix = crlf2() + (body + crlf2());
    assert(text =~= j + suffix);
    lemma_join_no_sep(ls, suffix);
    assert(is_at(text, crlf2(), j.len() as int)) by {
        assert(text.subrange(j.len() as int, j.len() as int + 4) =~= crlf2());
    }
    assert(forall|i: int| 0 <= i < j.len() ==> !is_at(j + suffix, crlf2(), i));
    assert(forall|i: int| 0 <= i < j.len() ==> !is_at(text, crlf2(), i));
    lemma_find_from_exact(text, crlf2(), 0, j.len() as int);

    // Step 5: the body region ends at the trailing separator.
    let rest = text.skip(j.len() as int + 4);
    assert(rest =~= body + crlf2());
    assert(is_at(rest, crlf2(), body.len() as int)) by {
        assert(rest.subrange(body.len() as int, body.len() as int + 4) =~= crlf2());
    }
    lemma_find_from_exact(rest, crlf2(), 0, body.len() as int);
    assert(rest.take(body.len() as int) =~= body);

    // Step 6: the head block splits back into the lines that built it.
    let head = text.take(j.len() as int);
    assert(head =~= j);
    lemma_lines_of_join(ls);
    assert(lines_of(head) == ls);
    lemma_pairs_of_pair_lines(big);
    assert(pairs_of(ls.drop_first()) == big);
    assert(ls[0] == l0);
}

proof fn lemma_encode_utf8_concat(a: Seq<char>, b: Seq<char>)
    ensures
        vstd::utf8::encode_utf8(a + b) == vstd::utf8::encode_utf8(a) + vstd::utf8::encode_utf8(b),
    decreases a.len(),
{
    if a.len() == 0 {
        assert(a + b =~= b);
        assert(vstd::utf8::encode_utf8(a) =~= Seq::<u8>::empty());
        assert(vstd::utf8::encode_utf8(a + b) =~= vstd::utf8::encode_utf8(a)
            + vstd::utf8::encode_utf8(b));
    } else {
        assert((a + b).drop_first() =~= a.drop_first() + b);
        lemma_encode_utf8_concat(a.drop_first(), b);
        assert((a + b)[0] == a[0]);
        assert(vstd::utf8::encode_utf8(a + b) =~= vstd::utf8::encode_utf8(a)
            + vstd::utf8::encode_utf8(b));
    }
}

/// The same law wire to wire: the byte stream `HttpRequest::serialize`
/// emits for a request whose body bytes encode `body`, decoded back from
/// UTF-8, parses to the status line, every header pair in order, and
/// `body` exactly.
pub proof fn lemma_request_bytes_parse_round_trip(
    m: ReqModel,
    host: Seq<char>,
    path: Seq<char>,
    body: Seq<char>,
)
    requires
        body_view(m) == vstd::utf8::encode_utf8(body),
        text_wf(path),
        text_wf(host),
        forall|t: int|
            0 <= t < m.headers.len() ==> #[trigger] text_wf(m.headers[t].0) && text_wf(
                m.headers[t].1,
            ) && key_wf(m.headers[t].0),
        forall|i: int| 0 <= i < body.len() ==> !is_at(body + crlf2(), crlf2(), i),
    ensures
        parse_spec(vstd::utf8::decode_utf8(request_bytes(m, host, path))) == Some(
            RespModel {
                status: method_text(m.method) + " "@ + path + " HTTP/1.1"@,
                headers: seq![("Host"@, host)] + m.headers + seq![
                    ("Content-Length"@, dec_str(content_len(m))),
                    ("Connection"@, "Close"@),
                ],
                body: body,
            },
        ),
{
    broadcast use vstd::utf8::is_ascii_chars_encode_utf8;
    broadcast use vstd::utf8::encode_utf8_decode_utf8;

    let head = request_head_text(m.method, path, host, m.headers, content_len(m));
    let text = head + body + crlf2();
    assert(vstd::utf8::is_ascii_chars(crlf2()));
    assert(vstd::utf8::encode_utf8(crlf2()) =~= seq![13u8, 10u8, 13u8, 10u8]);
    lemma_encode_utf8_concat(head, body);
    lemma_encode_utf8_concat(head + body, crlf2());
    assert(request_bytes(m, host, path) =~= vstd::utf8::encode_utf8(text)) by {
        assert(text =~= (head + body) + crlf2());
    }
    assert(vstd::utf8::decode_utf8(vstd::utf8::encode_utf8(text)) == text);
    lemma_serialize_parse_round_trip(m.method, path, host, m.headers, content_len(m), body);
}

} // verus!
