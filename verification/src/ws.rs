//! Decisions of the WebSocket read loop.

use vstd::prelude::*;
use vstd::string::StringExecFns;

verus! {

/// One frame from a client socket. Binary frames are treated as UTF-8
/// text by the caller before they reach the payload handler.
pub enum WsIncoming {
    Text,
    Binary,
    Ping(Vec<u8>),
    Pong(Vec<u8>),
    Close,
}

/// What the read loop does with a frame.
pub enum WsStep {
    /// Hand the payload to the JSON-RPC handler.
    HandlePayload,
    /// Answer a ping with a pong carrying the same bytes.
    ReplyPong(Vec<u8>),
    /// An unsolicited pong: tolerated and ignored.
    Ignore,
    /// The client closed the socket: stop reading.
    Stop,
}

/// The read loop's reaction to each frame: payload frames are handled,
/// pings are answered with matching pongs, unsolicited pongs are
/// tolerated, and a close frame ends the loop.
pub fn ws_step(msg: WsIncoming) -> (r: WsStep)
    ensures
        msg is Text ==> r is HandlePayload,
        msg is Binary ==> r is HandlePayload,
        msg matches WsIncoming::Ping(x) ==> (r matches WsStep::ReplyPong(y) && y@ == x@),
        msg is Pong ==> r is Ignore,
        msg is Close ==> r is Stop,
{
    match msg {
        WsIncoming::Text => WsStep::HandlePayload,
        WsIncoming::Binary => WsStep::HandlePayload,
        WsIncoming::Ping(x) => WsStep::ReplyPong(x),
        WsIncoming::Pong(_) => WsStep::Ignore,
        WsIncoming::Close => WsStep::Stop,
    }
}

/// The id to put in a fabricated error response: the client's id when it
/// could be parsed, JSON `null` otherwise.
pub fn error_response_id(parsed: Option<String>) -> (r: String)
    ensures
        parsed matches Some(s) ==> r@ == s@,
        parsed is None ==> r@ == "null"@,
{
    match parsed {
        Option::Some(s) => s,
        Option::None => String::from_str("null"),
    }
}

/// The two placeholders recognized in redirect URL templates; no other
/// placeholder is substituted.
pub open spec fn spec_key_placeholder() -> Seq<char> {
    "{{rpc_key_id}}"@
}

pub open spec fn spec_auth_placeholder() -> Seq<char> {
    "{{authorized_request}}"@
}

/// Whether pattern `p` stands at the front of `t`.
pub open spec fn spec_starts_with(t: Seq<char>, p: Seq<char>) -> bool {
    p.len() > 0 && t.len() >= p.len() && t.take(p.len() as int) == p
}

/// The template with every occurrence of either placeholder replaced,
/// scanning left to right: `{{rpc_key_id}}` becomes the key id and
/// `{{authorized_request}}` becomes the authorized request.
pub open spec fn spec_render(t: Seq<char>, key: Seq<char>, auth: Seq<char>) -> Seq<char>
    decreases t.len(),
{
    if t.len() == 0 {
        Seq::empty()
    } else if spec_starts_with(t, spec_key_placeholder()) {
        key + spec_render(t.skip(spec_key_placeholder().len() as int), key, auth)
    } else if spec_starts_with(t, spec_auth_placeholder()) {
        auth + spec_render(t.skip(spec_auth_placeholder().len() as int), key, auth)
    } else {
        seq![t[0]] + spec_render(t.drop_first(), key, auth)
    }
}

/// Whether the characters of `pat` stand in `s` at position `i`.
fn matches_at(s: &str, i: usize, pat: &str) -> (r: bool)
    requires
        i <= s@.len(),
    ensures
        r == (s@.len() - i >= pat@.len() && s@.subrange(i as int, i + pat@.len()) == pat@),
{
    let slen = s.unicode_len();
    let plen = pat.unicode_len();
    if slen - i < plen {
        return false;
    }
    for j in 0..plen
        invariant
            i + plen <= slen,
            slen == s@.len(),
            plen == pat@.len(),
            forall|m: int| 0 <= m < j ==> s@[i + m] == pat@[m],
    {
        if s.get_char(i + j) != pat.get_char(j) {
            proof {
                assert(s@.subrange(i as int, i + pat@.len())[j as int] != pat@[j as int]);
            }
            return false;
        }
    }
    proof {
        assert(s@.subrange(i as int, i + pat@.len()) =~= pat@);
    }
    true
}

/// Appends every character of `s` to `out`.
fn push_chars(out: &mut Vec<char>, s: &str)
    ensures
        final(out)@ == old(out)@ + s@,
{
    let n = s.unicode_len();
    proof {
        assert(out@ =~= old(out)@ + s@.take(0));
    }
    for k in 0..n
        invariant
            n == s@.len(),
            out@ == old(out)@ + s@.take(k as int),
    {
        out.push(s.get_char(k));
        proof {
            assert(old(out)@ + s@.take(k + 1) =~= (old(out)@ + s@.take(k as int)).push(
                s@[k as int],
            ));
        }
    }
    proof {
        assert(s@.take(n as int) =~= s@);
        assert(out@ =~= old(out)@ + s@);
    }
}

/// Renders a redirect URL: each `{{rpc_key_id}}` in the template becomes
/// the key id, each `{{authorized_request}}` the authorized request.
/// Returned as characters; the caller assembles the final string.
#[verifier::loop_isolation(false)]
pub fn render_redirect_url(template: &str, rpc_key_id: &str, authorized_request: &str) -> (r: Vec<
    char,
>)
    ensures
        r@ == spec_render(template@, rpc_key_id@, authorized_request@),
{
    let tlen = template.unicode_len();
    let mut out: Vec<char> = Vec::new();
    let mut i: usize = 0;
    proof {
        reveal_strlit("{{rpc_key_id}}");
        reveal_strlit("{{authorized_request}}");
        assert(spec_key_placeholder().len() == 14);
        assert(spec_auth_placeholder().len() == 22);
        assert(template@.skip(0) =~= template@);
        assert(out@ + spec_render(template@.skip(0), rpc_key_id@, authorized_request@)
            =~= spec_render(template@, rpc_key_id@, authorized_request@));
    }
    while i < tlen
        invariant
            i <= tlen,
            tlen == template@.len(),
            spec_render(template@, rpc_key_id@, authorized_request@) == out@ + spec_render(
                template@.skip(i as int),
                rpc_key_id@,
                authorized_request@,
            ),
        decreases tlen - i,
    {
        let ghost rest = template@.skip(i as int);
        let key_here = matches_at(template, i, "{{rpc_key_id}}");
        let auth_here = matches_at(template, i, "{{authorized_request}}");
        proof {
            reveal_strlit("{{rpc_key_id}}");
            reveal_strlit("{{authorized_request}}");
            if rest.len() >= 14 {
                assert(rest.take(14) =~= template@.subrange(i as int, i + 14));
            }
            if rest.len() >= 22 {
                assert(rest.take(22) =~= template@.subrange(i as int, i + 22));
            }
            assert(key_here == spec_starts_with(rest, spec_key_placeholder()));
            assert(auth_here == spec_starts_with(rest, spec_auth_placeholder()));
        }
        if key_here {
            let ghost pre = out@;
            push_chars(&mut out, rpc_key_id);
            proof {
                assert(rest.skip(14) =~= template@.skip(i + 14));
                assert((pre + rpc_key_id@) + spec_render(
                    template@.skip(i + 14),
                    rpc_key_id@,
                    authorized_request@,
                ) =~= pre + (rpc_key_id@ + spec_render(
                    template@.skip(i + 14),
                    rpc_key_id@,
                    authorized_request@,
                )));
            }
            i = i + 14;
        } else if auth_here {
            let ghost pre = out@;
            push_chars(&mut out, authorized_request);
            proof {
                assert(rest.skip(22) =~= template@.skip(i + 22));
                assert((pre + authorized_request@) + spec_render(
                    template@.skip(i + 22),
                    rpc_key_id@,
                    authorized_request@,
                ) =~= pre + (authorized_request@ + spec_render(
                    template@.skip(i + 22),
                    rpc_key_id@,
                    authorized_request@,
                )));
            }
            i = i + 22;
        } else {
            let ghost pre = out@;
            out.push(template.get_char(i));
            proof {
                assert(rest[0] == template@[i as int]);
                assert(rest.drop_first() =~= template@.skip(i + 1));
                assert(spec_render(rest, rpc_key_id@, authorized_request@) == seq![rest[0]]
                    + spec_render(template@.skip(i + 1), rpc_key_id@, authorized_request@));
                assert((pre + seq![template@[i as int]]) + spec_render(
                    template@.skip(i + 1),
                    rpc_key_id@,
                    authorized_request@,
                ) =~= pre + (seq![template@[i as int]] + spec_render(
                    template@.skip(i + 1),
                    rpc_key_id@,
                    authorized_request@,
                )));
                assert(out@ =~= pre + seq![template@[i as int]]);
            }
            i = i + 1;
        }
    }
    proof {
        assert(template@.skip(tlen as int) =~= Seq::<char>::empty());
        assert(out@ + Seq::<char>::empty() =~= out@);
    }
    out
}

} // verus!
