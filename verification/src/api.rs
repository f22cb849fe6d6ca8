//! The HTTP interface, without the transport: routing, the query string of
//! `GET /status`, percent-decoding, and the replies the service gives.
use vstd::prelude::*;

use crate::config::{entry_views, lists_sorted, resolution, Config};
use crate::nftables::{planned_call, texts, NftManager};
use crate::text::{chars_of, hex_digit, hex_digit_value, hex_value, is_hex_digit, push_char};
use crate::text::text_less;
use crate::types::{
    Action, AliasesResponse, DeviceStatus, ErrorResponse, RuleRequest, StatusResponse,
    StatusesResponse,
};

verus! {

/// What `u8::from_str_radix(_, 16)` yields for the two-character string `a b`:
/// two hexadecimal digits, or a `+` sign followed by one, give a byte; anything else
/// is refused.
pub open spec fn hex_pair(a: char, b: char) -> Option<u8> {
    if is_hex_digit(a) && is_hex_digit(b) {
        Some((16 * hex_value(a) + hex_value(b)) as u8)
    } else if a == '+' && is_hex_digit(b) {
        Some(hex_value(b) as u8)
    } else {
        None
    }
}

/// The byte that `%ab` stands for, if `a b` is a hexadecimal pair.
fn hex_pair_value(a: char, b: char) -> (res: Option<u8>)
    ensures
        res == hex_pair(a, b),
{
    if hex_digit(a) && hex_digit(b) {
        Some(16 * hex_digit_value(a) + hex_digit_value(b))
    } else if a == '+' && hex_digit(b) {
        Some(hex_digit_value(b))
    } else {
        None
    }
}

/// Percent-decoding of a query value, character by character: `%` and two
/// characters forming a hexadecimal pair become the character with that code
/// (0 to 255); a `%` followed by anything else is kept together with the (at most
/// two) characters after it, which are not decoded further; `+` becomes a space;
/// every other character is kept.
pub open spec fn url_decoded(s: Seq<char>) -> Seq<char>
    decreases s.len(),
{
    if s.len() == 0 {
        Seq::empty()
    } else if s[0] == '%' {
        if s.len() >= 3 && hex_pair(s[1], s[2]) is Some {
            seq![(hex_pair(s[1], s[2])->0) as char] + url_decoded(s.skip(3))
        } else {
            let n: int = if s.len() >= 3 {
                3
            } else {
                s.len() as int
            };
            s.take(n) + url_decoded(s.skip(n))
        }
    } else if s[0] == '+' {
        seq![' '] + url_decoded(s.skip(1))
    } else {
        seq![s[0]] + url_decoded(s.skip(1))
    }
}

/// Decodes `cs` as `url_decoded` describes.
fn decode_chars(cs: &Vec<char>) -> (res: String)
    ensures
        res@ == url_decoded(cs@),
{
    let mut res = String::new();
    let mut i: usize = 0;
    assert(res@ + url_decoded(cs@.skip(0)) =~= url_decoded(cs@)) by {
        assert(cs@.skip(0) =~= cs@);
    }
    while i < cs.len()
        invariant
            i <= cs@.len(),
            url_decoded(cs@) == res@ + url_decoded(cs@.skip(i as int)),
        decreases cs@.len() - i,
    {
        let ghost rest = cs@.skip(i as int);
        let ghost before = res@;
        let c = cs[i];
        assert(rest[0] == c);
        if c == '%' {
            let left = cs.len() - i - 1;
            if left >= 2 {
                assert(rest[1] == cs@[i + 1] && rest[2] == cs@[i + 2]);
                if let Some(byte) = hex_pair_value(cs[i + 1], cs[i + 2]) {
                    push_char(&mut res, byte as char);
                    assert(rest.skip(3) =~= cs@.skip(i + 3));
                    assert(res@ + url_decoded(cs@.skip(i + 3)) =~= before + url_decoded(rest));
                    i = i + 3;
                    continue;
                }
            }
            let n: usize = if left >= 2 {
                2
            } else {
                left
            };
            push_char(&mut res, '%');
            let mut k: usize = 1;
            while k <= n
                invariant
                    1 <= k <= n + 1,
                    n <= 2,
                    i + n < cs.len(),
                    res@ == before + cs@.subrange(i as int, i + k),
                decreases n + 1 - k,
            {
                push_char(&mut res, cs[i + k]);
                assert(cs@.subrange(i as int, i + k + 1) =~= cs@.subrange(i as int, i + k).push(
                    cs@[i + k],
                ));
                k = k + 1;
            }
            assert(rest.take(n + 1) =~= cs@.subrange(i as int, i + n + 1));
            assert(rest.skip(n + 1) =~= cs@.skip(i + n + 1));
            assert(res@ + url_decoded(cs@.skip(i + n + 1)) =~= before + url_decoded(rest));
            i = i + n + 1;
        } else {
            if c == '+' {
                push_char(&mut res, ' ');
            } else {
                push_char(&mut res, c);
            }
            assert(rest.skip(1) =~= cs@.skip(i + 1));
            assert(res@ + url_decoded(cs@.skip(i + 1)) =~= before + url_decoded(rest));
            i = i + 1;
        }
    }
    assert(res@ + url_decoded(cs@.skip(i as int)) =~= res@);
    res
}

/// Percent-decodes a value of the query string (see `url_decoded`).
pub fn url_decode(input: &str) -> (res: String)
    ensures
        res@ == url_decoded(input@),
{
    let cs = chars_of(input);
    decode_chars(&cs)
}

/// The views of a list of character vectors.
pub open spec fn char_seqs(v: Seq<Vec<char>>) -> Seq<Seq<char>> {
    v.map_values(|p: Vec<char>| p@)
}

/// The pieces of `cur + rest` between occurrences of `sep`, where `cur` is known to
/// hold no `sep`.
pub open spec fn pieces_from(cur: Seq<char>, rest: Seq<char>, sep: char) -> Seq<Seq<char>>
    decreases rest.len(),
{
    if rest.len() == 0 {
        seq![cur]
    } else if rest[0] == sep {
        seq![cur] + pieces_from(Seq::empty(), rest.skip(1), sep)
    } else {
        pieces_from(cur.push(rest[0]), rest.skip(1), sep)
    }
}

/// The pieces of `s` between occurrences of `sep`, as `str::split` yields them:
/// there is always at least one, and one more than there are separators.
pub open spec fn pieces(s: Seq<char>, sep: char) -> Seq<Seq<char>> {
    pieces_from(Seq::empty(), s, sep)
}

/// Splits `cs` at every `sep`.
fn split_chars(cs: &Vec<char>, sep: char) -> (res: Vec<Vec<char>>)
    ensures
        char_seqs(res@) == pieces(cs@, sep),
        res@.len() >= 1,
{
    let mut res: Vec<Vec<char>> = Vec::new();
    let mut cur: Vec<char> = Vec::new();
    let mut i: usize = 0;
    assert(cs@.skip(0) =~= cs@);
    while i < cs.len()
        invariant
            i <= cs@.len(),
            char_seqs(res@) + pieces_from(cur@, cs@.skip(i as int), sep) == pieces(cs@, sep),
        decreases cs@.len() - i,
    {
        let ghost rest = cs@.skip(i as int);
        assert(rest[0] == cs@[i as int]);
        assert(rest.skip(1) =~= cs@.skip(i + 1));
        if cs[i] == sep {
            let ghost old_res = res@;
            let piece = cur;
            cur = Vec::new();
            res.push(piece);
            assert(char_seqs(res@) =~= char_seqs(old_res) + seq![piece@]);
        } else {
            cur.push(cs[i]);
        }
        i = i + 1;
    }
    let ghost old_res = res@;
    res.push(cur);
    assert(char_seqs(res@) =~= char_seqs(old_res) + pieces_from(cur@, cs@.skip(i as int), sep));
    res
}

/// `s` cut at its first `sep`, as `str::split_once` does: the part before and the
/// part after; `None` when `sep` does not occur.
pub open spec fn cut_once(s: Seq<char>, sep: char) -> Option<(Seq<char>, Seq<char>)>
    decreases s.len(),
{
    if s.len() == 0 {
        None
    } else if s[0] == sep {
        Some((Seq::empty(), s.skip(1)))
    } else {
        match cut_once(s.skip(1), sep) {
            Some((before, after)) => Some((seq![s[0]] + before, after)),
            None => None,
        }
    }
}

/// `cut_once` cuts at the first occurrence of `sep`, and only when there is one.
proof fn lemma_cut_once(s: Seq<char>, sep: char, at: int)
    requires
        0 <= at <= s.len(),
        forall|j: int| 0 <= j < at ==> s[j] != sep,
        at < s.len() ==> s[at] == sep,
    ensures
        at < s.len() ==> cut_once(s, sep) == Some((s.take(at), s.skip(at + 1))),
        at == s.len() ==> cut_once(s, sep) is None,
    decreases s.len(),
{
    if s.len() > 0 && at > 0 {
        let t = s.skip(1);
        assert forall|j: int| 0 <= j < at - 1 implies t[j] != sep by {
            assert(t[j] == s[j + 1]);
        }
        if at < s.len() {
            assert(t[at - 1] == s[at]);
        }
        lemma_cut_once(t, sep, at - 1);
        if at < s.len() {
            assert(seq![s[0]] + t.take(at - 1) =~= s.take(at));
            assert(t.skip(at) =~= s.skip(at + 1));
        }
    }
}

/// Cuts `cs` at its first `sep`.
fn cut_chars(cs: &Vec<char>, sep: char) -> (res: Option<(Vec<char>, Vec<char>)>)
    ensures
        match res {
            Some((before, after)) => cut_once(cs@, sep) == Some((before@, after@)),
            None => cut_once(cs@, sep) is None,
        },
{
    let mut at: usize = 0;
    while at < cs.len() && cs[at] != sep
        invariant
            at <= cs@.len(),
            forall|j: int| 0 <= j < at ==> cs@[j] != sep,
        decreases cs@.len() - at,
    {
        at = at + 1;
    }
    proof {
        lemma_cut_once(cs@, sep, at as int);
    }
    if at == cs.len() {
        return None;
    }
    let before = slice_chars(cs, 0, at);
    let after = slice_chars(cs, at + 1, cs.len());
    assert(before@ =~= cs@.take(at as int));
    assert(after@ =~= cs@.skip(at + 1));
    Some((before, after))
}

/// The characters `cs[from..to]`.
fn slice_chars(cs: &Vec<char>, from: usize, to: usize) -> (res: Vec<char>)
    requires
        from <= to <= cs@.len(),
    ensures
        res@ == cs@.subrange(from as int, to as int),
{
    let mut res: Vec<char> = Vec::new();
    let mut i = from;
    while i < to
        invariant
            from <= i <= to <= cs@.len(),
            res@ == cs@.subrange(from as int, i as int),
        decreases to - i,
    {
        res.push(cs[i]);
        assert(res@ =~= cs@.subrange(from as int, i + 1));
        i = i + 1;
    }
    res
}

/// Whether `a` and `b` hold the same characters.
fn same_chars(a: &Vec<char>, b: &Vec<char>) -> (res: bool)
    ensures
        res == (a@ == b@),
{
    if a.len() != b.len() {
        return false;
    }
    let mut i: usize = 0;
    while i < a.len()
        invariant
            a@.len() == b@.len(),
            i <= a@.len(),
            forall|j: int| 0 <= j < i ==> a@[j] == b@[j],
        decreases a@.len() - i,
    {
        if a[i] != b[i] {
            return false;
        }
        i = i + 1;
    }
    assert(a@ =~= b@);
    true
}

/// The path of a request URL: what comes before the first `?`.
pub open spec fn url_path(url: Seq<char>) -> Seq<char> {
    pieces(url, '?')[0]
}

/// The query string of a request URL: what lies between the first `?` and the next
/// one (or the end); empty when there is no `?`.
pub open spec fn url_query(url: Seq<char>) -> Seq<char> {
    if pieces(url, '?').len() > 1 {
        pieces(url, '?')[1]
    } else {
        Seq::empty()
    }
}

/// The decoded value of the first `key=value` pair among `pairs` whose key is
/// `device`; pairs without `=` are passed over.
pub open spec fn device_in(pairs: Seq<Seq<char>>) -> Option<Seq<char>>
    decreases pairs.len(),
{
    if pairs.len() == 0 {
        None
    } else {
        match cut_once(pairs[0], '=') {
            Some((key, value)) => if key == "device"@ {
                Some(url_decoded(value))
            } else {
                device_in(pairs.skip(1))
            },
            None => device_in(pairs.skip(1)),
        }
    }
}

/// The `device` parameter of a request URL, decoded: the query string is split at
/// `&` into `key=value` pairs and the first pair with the key `device` counts.
pub open spec fn device_query(url: Seq<char>) -> Option<Seq<char>> {
    device_in(pieces(url_query(url), '&'))
}

/// The decoded `device` parameter of the query string of `url`, if there is one.
pub fn query_device(url: &str) -> (res: Option<String>)
    ensures
        match res {
            Some(device) => device_query(url@) == Some(device@),
            None => device_query(url@) is None,
        },
{
    let cs = chars_of(url);
    let parts = split_chars(&cs, '?');
    let query = if parts.len() > 1 {
        parts[1].clone()
    } else {
        Vec::new()
    };
    assert(query@ == url_query(url@)) by {
        if parts@.len() > 1 {
            assert(char_seqs(parts@)[1] == parts@[1]@);
        }
    }
    let pairs = split_chars(&query, '&');
    let key = chars_of("device");
    let ghost all = char_seqs(pairs@);
    let mut i: usize = 0;
    assert(all.skip(0) =~= all);
    while i < pairs.len()
        invariant
            i <= pairs@.len(),
            all == char_seqs(pairs@),
            key@ == "device"@,
            device_in(all.skip(i as int)) == device_query(url@),
        decreases pairs@.len() - i,
    {
        let ghost rest = all.skip(i as int);
        assert(rest[0] == pairs@[i as int]@);
        assert(rest.skip(1) =~= all.skip(i + 1));
        if let Some((name, value)) = cut_chars(&pairs[i], '=') {
            if same_chars(&name, &key) {
                return Some(decode_chars(&value));
            }
        }
        i = i + 1;
    }
    None
}

/// Where a request goes, from its method and URL.
#[derive(Debug, Clone, Copy, PartialEq, Eq, Structural)]
pub enum Route {
    /// `POST /rule`
    Rule,
    /// `GET /status`
    Status,
    /// `GET /statuses`
    Statuses,
    /// `GET /aliases`
    Aliases,
    /// Anything else.
    NotFound,
}

/// The route of a request: `POST /rule`, `GET /status`, `GET /statuses` and
/// `GET /aliases` are served, the query string is not part of the path, anything
/// else is not found.
pub open spec fn route_of(method: Seq<char>, url: Seq<char>) -> Route {
    if method == "POST"@ && url_path(url) == "/rule"@ {
        Route::Rule
    } else if method == "GET"@ && url_path(url) == "/status"@ {
        Route::Status
    } else if method == "GET"@ && url_path(url) == "/statuses"@ {
        Route::Statuses
    } else if method == "GET"@ && url_path(url) == "/aliases"@ {
        Route::Aliases
    } else {
        Route::NotFound
    }
}

/// Routes a request by its method and URL.
pub fn route(method: &str, url: &str) -> (res: Route)
    ensures
        res == route_of(method@, url@),
{
    let cs = chars_of(url);
    let parts = split_chars(&cs, '?');
    let path = parts[0].clone();
    assert(path@ == url_path(url@)) by {
        assert(char_seqs(parts@)[0] == parts@[0]@);
    }
    let verb = chars_of(method);
    if same_chars(&verb, &chars_of("POST")) && same_chars(&path, &chars_of("/rule")) {
        Route::Rule
    } else if same_chars(&verb, &chars_of("GET")) && same_chars(&path, &chars_of("/status")) {
        Route::Status
    } else if same_chars(&verb, &chars_of("GET")) && same_chars(&path, &chars_of("/statuses")) {
        Route::Statuses
    } else if same_chars(&verb, &chars_of("GET")) && same_chars(&path, &chars_of("/aliases")) {
        Route::Aliases
    } else {
        Route::NotFound
    }
}

/// What the service answers a request with, before it is written out as JSON.
#[derive(Debug)]
pub enum ReplyBody {
    /// `{"error": ...}`
    Error(ErrorResponse),
    /// The standing of one device.
    Status(StatusResponse),
    /// The standing of every known device.
    Statuses(StatusesResponse),
    /// The configured aliases.
    Aliases(AliasesResponse),
    /// `{"status": "ok", "device": ..., "mac": ..., "action": ...}`: a rule took effect.
    RuleApplied { device: String, mac: String, action: Action },
}

/// An HTTP status code and the body that goes with it.
#[derive(Debug)]
pub struct Reply {
    pub status: u16,
    pub body: ReplyBody,
}

/// Whether `reply` is an error with status `status` and message `message`.
pub open spec fn is_error_reply(reply: Reply, status: u16, message: Seq<char>) -> bool {
    &&& reply.status == status
    &&& match reply.body {
        ReplyBody::Error(e) => e.error@ == message,
        _ => false,
    }
}

/// An error reply.
fn error_reply(status: u16, message: String) -> (reply: Reply)
    ensures
        is_error_reply(reply, status, message@),
{
    Reply { status, body: ReplyBody::Error(ErrorResponse { error: message }) }
}

/// The message for a device that is neither a MAC address nor a known alias.
pub open spec fn unknown_device_message(device: Seq<char>) -> Seq<char> {
    "unknown device: "@ + device
}

fn unknown_device(device: &str) -> (reply: Reply)
    ensures
        is_error_reply(reply, 400, unknown_device_message(device@)),
{
    let mut message = "unknown device: ".to_owned();
    message.append(device);
    error_reply(400, message)
}

/// Answers `GET /status` for the request URL `url`: `400` when the query names no
/// device or names one that neither is a MAC address nor a known alias; else `200`
/// with the device as asked for, its MAC address and whether it has internet access.
pub fn handle_status(url: &str, config: &Config, nft: &NftManager) -> (reply: Reply)
    ensures
        match device_query(url@) {
            None => is_error_reply(reply, 400, "missing 'device' query parameter"@),
            Some(device) => match resolution(config.view(), device) {
                None => is_error_reply(reply, 400, unknown_device_message(device)),
                Some(mac) => {
                    &&& reply.status == 200
                    &&& match reply.body {
                        ReplyBody::Status(status) => {
                            &&& status.device@ == device
                            &&& status.mac@ == mac
                            &&& status.allowed == !nft.view().contains(mac)
                        },
                        _ => false,
                    }
                },
            },
        },
{
    let device = match query_device(url) {
        Some(device) => device,
        None => {
            return error_reply(400, "missing 'device' query parameter".to_owned());
        },
    };
    let mac = match config.resolve_device(device.as_str()) {
        Some(mac) => mac,
        None => {
            return unknown_device(device.as_str());
        },
    };
    status_of(device, mac, nft)
}

/// The `200` answer of `GET /status` for `device`, which stands for the MAC address
/// `mac`: the device as asked for, the address, and whether it has internet access.
pub fn status_of(device: String, mac: String, nft: &NftManager) -> (reply: Reply)
    ensures
        reply.status == 200,
        match reply.body {
            ReplyBody::Status(status) => {
                &&& status.device@ == device@
                &&& status.mac@ == mac@
                &&& status.allowed == !nft.view().contains(mac@)
            },
            _ => false,
        },
{
    let allowed = nft.is_allowed(mac.as_str());
    Reply { status: 200, body: ReplyBody::Status(StatusResponse { device, mac, allowed }) }
}

/// The answer to a request that no route serves.
pub fn not_found() -> (reply: Reply)
    ensures
        is_error_reply(reply, 404, "not found"@),
{
    error_reply(404, "not found".to_owned())
}

/// The answer to a rule request whose body could not be read.
pub fn unreadable_body() -> (reply: Reply)
    ensures
        is_error_reply(reply, 400, "failed to read body"@),
{
    error_reply(400, "failed to read body".to_owned())
}

/// The answer to a rule request whose body is not the expected JSON.
pub fn invalid_json() -> (reply: Reply)
    ensures
        is_error_reply(reply, 400, "invalid JSON"@),
{
    error_reply(400, "invalid JSON".to_owned())
}

/// Answers `GET /aliases`: `200` with every alias and the address it is configured
/// with, sorted by alias.
pub fn aliases_reply(config: &Config) -> (reply: Reply)
    ensures
        reply.status == 200,
        match reply.body {
            ReplyBody::Aliases(list) => lists_sorted(entry_views(list.aliases@), config.view()),
            _ => false,
        },
{
    Reply { status: 200, body: ReplyBody::Aliases(AliasesResponse { aliases: config.aliases() }) }
}

/// `devices` lists every alias of `aliases` exactly once, sorted by alias, each with
/// the MAC address it resolves to (as `GET /status` resolves it) and whether that
/// address has internet access while `denied` is the record of denied addresses.
pub open spec fn lists_statuses(
    devices: Seq<DeviceStatus>,
    aliases: Map<Seq<char>, Seq<char>>,
    denied: Set<Seq<char>>,
) -> bool {
    &&& forall|i: int|
        0 <= i < devices.len() ==> {
            &&& aliases.contains_key(#[trigger] devices[i].alias@)
            &&& resolution(aliases, devices[i].alias@) == Some(devices[i].mac@)
            &&& devices[i].allowed == !denied.contains(devices[i].mac@)
        }
    &&& forall|k: Seq<char>|
        aliases.contains_key(k) ==> exists|i: int|
            0 <= i < devices.len() && #[trigger] devices[i].alias@ == k
    &&& forall|i: int, j: int|
        0 <= i < j < devices.len() ==> text_less(
            #[trigger] devices[i].alias@,
            #[trigger] devices[j].alias@,
        )
}

/// Answers `GET /statuses`: `200` with every known device, sorted by alias, its MAC
/// address and whether it has internet access.
pub fn statuses_reply(config: &Config, nft: &NftManager) -> (reply: Reply)
    ensures
        reply.status == 200,
        match reply.body {
            ReplyBody::Statuses(list) => lists_statuses(list.devices@, config.view(), nft.view()),
            _ => false,
        },
{
    let aliases = config.aliases();
    let ghost listing = entry_views(aliases@);
    let mut devices: Vec<DeviceStatus> = Vec::new();
    let mut i: usize = 0;
    while i < aliases.len()
        invariant
            i <= aliases@.len(),
            listing == entry_views(aliases@),
            lists_sorted(listing, config.view()),
            devices@.len() == i,
            forall|k: int|
                0 <= k < i ==> {
                    &&& (#[trigger] devices@[k]).alias@ == listing[k].0
                    &&& resolution(config.view(), listing[k].0) == Some(devices@[k].mac@)
                    &&& devices@[k].allowed == !nft.view().contains(devices@[k].mac@)
                },
        decreases aliases@.len() - i,
    {
        assert(listing[i as int].0 == aliases@[i as int].alias@);
        assert(config.view().contains_key(listing[i as int].0));
        let alias = aliases[i].alias.clone();
        match config.resolve_device(alias.as_str()) {
            Some(mac) => {
                let allowed = nft.is_allowed(mac.as_str());
                devices.push(DeviceStatus { alias, mac, allowed });
            },
            None => {
                assert(false);
            },
        }
        i = i + 1;
    }
    proof {
        let d = devices@;
        assert forall|k: Seq<char>| config.view().contains_key(k) implies exists|a: int|
            0 <= a < d.len() && #[trigger] d[a].alias@ == k by {
            let a = choose|a: int| 0 <= a < listing.len() && #[trigger] listing[a].0 == k;
            assert(d[a].alias@ == listing[a].0);
        }
        assert forall|a: int, b: int| 0 <= a < b < d.len() implies text_less(
            #[trigger] d[a].alias@,
            #[trigger] d[b].alias@,
        ) by {
            assert(d[a].alias@ == listing[a].0 && d[b].alias@ == listing[b].0);
            assert(text_less(listing[a].0, listing[b].0));
        }
        assert forall|a: int| 0 <= a < d.len() implies {
            &&& config.view().contains_key(#[trigger] d[a].alias@)
            &&& resolution(config.view(), d[a].alias@) == Some(d[a].mac@)
            &&& d[a].allowed == !nft.view().contains(d[a].mac@)
        } by {
            assert(d[a].alias@ == listing[a].0);
        }
    }
    Reply { status: 200, body: ReplyBody::Statuses(StatusesResponse { devices }) }
}

/// The MAC address a rule request is about, or the `400` reply when its device is
/// neither a MAC address nor a known alias.
pub fn rule_target(request: &RuleRequest, config: &Config) -> (res: Result<String, Reply>)
    ensures
        match resolution(config.view(), request.device@) {
            Some(mac) => res matches Ok(found) && found@ == mac,
            None => res matches Err(reply) && is_error_reply(
                reply,
                400,
                unknown_device_message(request.device@),
            ),
        },
{
    match config.resolve_device(request.device.as_str()) {
        Some(mac) => Ok(mac),
        None => Err(unknown_device(request.device.as_str())),
    }
}

/// The reply to a rule request for `mac` once its nft call (if any) reported
/// `outcome`: `200` naming the device, the address and the action on success,
/// `500` with nft's error otherwise.
pub fn rule_reply(request: RuleRequest, mac: String, outcome: Result<(), String>) -> (reply: Reply)
    ensures
        match outcome {
            Ok(()) => {
                &&& reply.status == 200
                &&& match reply.body {
                    ReplyBody::RuleApplied { device, mac: applied, action } => {
                        &&& device@ == request.device@
                        &&& applied@ == mac@
                        &&& action == request.action
                    },
                    _ => false,
                }
            },
            Err(error) => is_error_reply(reply, 500, error@),
        },
{
    match outcome {
        Ok(()) => Reply {
            status: 200,
            body: ReplyBody::RuleApplied { device: request.device, mac, action: request.action },
        },
        Err(error) => error_reply(500, error),
    }
}

/// Text without `%` and `+` decodes to itself.
pub proof fn law_plain_text_decodes_to_itself(s: Seq<char>)
    requires
        forall|i: int| 0 <= i < s.len() ==> #[trigger] s[i] != '%' && s[i] != '+',
    ensures
        url_decoded(s) == s,
    decreases s.len(),
{
    if s.len() > 0 {
        let t = s.skip(1);
        assert forall|i: int| 0 <= i < t.len() implies #[trigger] t[i] != '%' && t[i] != '+' by {
            assert(t[i] == s[i + 1]);
        }
        law_plain_text_decodes_to_itself(t);
        assert(seq![s[0]] + t =~= s);
    }
}

/// The upper-case hexadecimal digit for `v` (0 to 15).
pub open spec fn hex_char(v: int) -> char {
    if v < 10 {
        ('0' as int + v) as char
    } else {
        ('A' as int + v - 10) as char
    }
}

/// Every character of `s` written as `%` and two hexadecimal digits of its code.
pub open spec fn percent_encoded(s: Seq<char>) -> Seq<char>
    decreases s.len(),
{
    if s.len() == 0 {
        Seq::empty()
    } else {
        seq!['%', hex_char((s[0] as u32 / 16) as int), hex_char((s[0] as u32 % 16) as int)] + percent_encoded(
            s.skip(1),
        )
    }
}

/// Percent-encoding, as a client may do to the device in the query string, is
/// undone by decoding, for every text of characters with codes below 256 (MAC
/// addresses among them).
pub proof fn law_decoding_undoes_percent_encoding(s: Seq<char>)
    requires
        forall|i: int| 0 <= i < s.len() ==> (#[trigger] s[i]) as u32 <= 255,
    ensures
        url_decoded(percent_encoded(s)) == s,
    decreases s.len(),
{
    if s.len() > 0 {
        let t = s.skip(1);
        assert forall|i: int| 0 <= i < t.len() implies (#[trigger] t[i]) as u32 <= 255 by {
            assert(t[i] == s[i + 1]);
        }
        law_decoding_undoes_percent_encoding(t);
        let c = s[0];
        let code = c as u32;
        assert(code <= 255);
        let hi = code / 16;
        let lo = code % 16;
        let e = percent_encoded(s);
        assert(e[0] == '%');
        assert(e[1] == hex_char(hi as int) && e[2] == hex_char(lo as int));
        assert(is_hex_digit(hex_char(hi as int)) && hex_value(hex_char(hi as int)) == hi);
        assert(is_hex_digit(hex_char(lo as int)) && hex_value(hex_char(lo as int)) == lo);
        assert(16 * hi + lo == code);
        assert(hex_pair(e[1], e[2]) == Some(code as u8));
        assert((code as char) == c) by {
            vstd::utf8::char_u32_cast(c, code);
        }
        assert((code as u8) as int == code as int);
        assert((code as u8) as char == c);
        assert(e.skip(3) =~= percent_encoded(t));
        assert(seq![c] + t =~= s);
    }
}

/// What a rule request needs done: the MAC address its device stands for and the
/// nft call that `deny` or `allow` (as its action says) plans for that address,
/// `None` when nothing needs to run; or the `400` reply when the device is neither
/// a MAC address nor a known alias.
pub fn rule_call(request: &RuleRequest, config: &Config, nft: &NftManager) -> (res: Result<
    (String, Option<Vec<String>>),
    Reply,
>)
    ensures
        match resolution(config.view(), request.device@) {
            None => res matches Err(reply) && is_error_reply(
                reply,
                400,
                unknown_device_message(request.device@),
            ),
            Some(mac) => res matches Ok((found, call)) && found@ == mac && match call {
                Some(args) => planned_call(nft.view(), request.action == Action::Deny, mac)
                    == Some(texts(args@)),
                None => planned_call(nft.view(), request.action == Action::Deny, mac) is None,
            },
        },
{
    let mac = match rule_target(request, config) {
        Ok(mac) => mac,
        Err(reply) => {
            return Err(reply);
        },
    };
    let call = match request.action {
        Action::Deny => nft.deny(mac.as_str()),
        Action::Allow => nft.allow(mac.as_str()),
    };
    Ok((mac, call))
}

} // verus!
