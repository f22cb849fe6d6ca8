//! The nftables side of the service: the table, set and forward chain that cut a
//! device off from the internet, the nft invocations that maintain them, and the
//! record of which devices are denied.
//!
//! Running `nft` is left to the caller: the functions here say which invocation
//! comes next and take its outcome back.
use vstd::prelude::*;

use crate::text::{chars_of, contains_chars, occurs_in};
use crate::types::Action;

verus! {

/// The nft table that holds everything this service installs.
pub const TABLE_NAME: &'static str = "access_control";

/// The chain of that table hooked into forwarding.
pub const CHAIN_NAME: &'static str = "forward";

/// The set of denied MAC addresses.
pub const SET_NAME: &'static str = "denied";

/// Top bit of the connection mark. Packets returning from the internet carry no
/// device MAC, so denied connections are tagged with this bit on the way out and
/// dropped in both directions afterwards. The bit is set and cleared with masks
/// so marks used by other software on the router (mwan3, SQM) are preserved.
pub const KILL_MARK: &'static str = "0x80000000";

/// Every bit of the connection mark but `KILL_MARK`.
pub const KEEP_MASK: &'static str = "0x7fffffff";

/// The views of a list of strings.
pub open spec fn texts(v: Seq<String>) -> Seq<Seq<char>> {
    v.map_values(|s: String| s@)
}

/// The views of a list of argument lists.
pub open spec fn calls_view(v: Seq<Vec<String>>) -> Seq<Seq<Seq<char>>> {
    v.map_values(|args: Vec<String>| texts(args@))
}

/// The statement that tags a connection with the kill bit.
pub open spec fn tag_action() -> Seq<char> {
    "ct mark set ct mark or "@ + KILL_MARK@
}

/// The match of connections that carry the kill bit.
pub open spec fn tagged_match() -> Seq<char> {
    "ct mark and "@ + KILL_MARK@ + " == "@ + KILL_MARK@
}

/// Traffic leaving towards the internet through `wan`.
pub open spec fn outbound(wan: Seq<char>) -> Seq<char> {
    "oifname \""@ + wan + "\""@
}

/// Traffic entering from the LAN bridge `lan`, which has to be routed.
pub open spec fn inbound(lan: Seq<char>) -> Seq<char> {
    "iifname \""@ + lan + "\""@
}

/// A device that is allowed again releases its tagged connections.
pub open spec fn release_rule(lan: Seq<char>) -> Seq<char> {
    tagged_match() + " iifname \""@ + lan + "\" ether saddr != @"@ + SET_NAME@
        + " ct mark set ct mark and "@ + KEEP_MASK@
}

/// TCP from a denied device in `direction` is tagged and answered with a reset.
pub open spec fn tcp_reject_rule(direction: Seq<char>) -> Seq<char> {
    direction + " ether saddr @"@ + SET_NAME@ + " meta l4proto tcp "@ + tag_action()
        + " reject with tcp reset"@
}

/// Anything else from a denied device in `direction` is tagged and answered with
/// an ICMP admin-prohibited error.
pub open spec fn icmp_reject_rule(direction: Seq<char>) -> Seq<char> {
    direction + " ether saddr @"@ + SET_NAME@ + " "@ + tag_action()
        + " reject with icmpx type admin-prohibited"@
}

/// Traffic of tagged connections that is left over (their return path) is dropped.
pub open spec fn kill_rule() -> Seq<char> {
    tagged_match() + " drop"@
}

/// The forward chain's rules, in evaluation order.
pub open spec fn forward_rules(wan: Seq<char>, lan: Seq<char>) -> Seq<Seq<char>> {
    seq![
        release_rule(lan),
        tcp_reject_rule(outbound(wan)),
        icmp_reject_rule(outbound(wan)),
        tcp_reject_rule(inbound(lan)),
        icmp_reject_rule(inbound(lan)),
        kill_rule(),
    ]
}

/// Forward chain rules, in evaluation order.
///
/// Denied traffic is rejected rather than dropped so the device tears down its
/// sockets immediately (TCP reset, ICMP admin-prohibited) instead of retrying
/// silently for minutes, and the connection is tagged so its already-established
/// return traffic stops flowing at the same moment.
pub fn chain_rules(wan_interface: &str, lan_bridge: &str) -> (rules: Vec<String>)
    ensures
        texts(rules@) == forward_rules(wan_interface@, lan_bridge@),
{
    let mut tag = "ct mark set ct mark or ".to_owned();
    tag.append(KILL_MARK);
    let mut tagged = "ct mark and ".to_owned();
    tagged.append(KILL_MARK);
    tagged.append(" == ");
    tagged.append(KILL_MARK);

    let mut release = tagged.clone();
    release.append(" iifname \"");
    release.append(lan_bridge);
    release.append("\" ether saddr != @");
    release.append(SET_NAME);
    release.append(" ct mark set ct mark and ");
    release.append(KEEP_MASK);

    let mut outbound = "oifname \"".to_owned();
    outbound.append(wan_interface);
    outbound.append("\"");
    let mut inbound = "iifname \"".to_owned();
    inbound.append(lan_bridge);
    inbound.append("\"");

    let mut rules: Vec<String> = Vec::new();
    rules.push(release);
    rules.push(tcp_reject(&outbound, &tag));
    rules.push(icmp_reject(&outbound, &tag));
    rules.push(tcp_reject(&inbound, &tag));
    rules.push(icmp_reject(&inbound, &tag));

    let mut kill = tagged;
    kill.append(" drop");
    rules.push(kill);

    assert(texts(rules@) =~= forward_rules(wan_interface@, lan_bridge@));
    rules
}

fn tcp_reject(direction: &String, tag: &String) -> (rule: String)
    requires
        tag@ == tag_action(),
    ensures
        rule@ == tcp_reject_rule(direction@),
{
    let mut rule = direction.clone();
    rule.append(" ether saddr @");
    rule.append(SET_NAME);
    rule.append(" meta l4proto tcp ");
    rule.append(tag.as_str());
    rule.append(" reject with tcp reset");
    rule
}

fn icmp_reject(direction: &String, tag: &String) -> (rule: String)
    requires
        tag@ == tag_action(),
    ensures
        rule@ == icmp_reject_rule(direction@),
{
    let mut rule = direction.clone();
    rule.append(" ether saddr @");
    rule.append(SET_NAME);
    rule.append(" ");
    rule.append(tag.as_str());
    rule.append(" reject with icmpx type admin-prohibited");
    rule
}

/// The set element that stands for `mac` in an nft command: `{ mac }`.
pub open spec fn element(mac: Seq<char>) -> Seq<char> {
    "{ "@ + mac + " }"@
}

/// Wraps `mac` as a set element for nft.
pub fn element_spec(mac: &str) -> (res: String)
    ensures
        res@ == element(mac@),
{
    let mut res = "{ ".to_owned();
    res.append(mac);
    res.append(" }");
    res
}

/// Whether an `nft list flowtables` listing shows a flowtable.
pub fn mentions_flowtable(listing: &str) -> (res: bool)
    ensures
        res == occurs_in("flowtable"@, listing@),
{
    let hay = chars_of(listing);
    let needle = chars_of("flowtable");
    contains_chars(&hay, &needle)
}

/// `parts` joined with `sep` between neighbours, as `[&str]::join` does.
pub open spec fn joined(parts: Seq<Seq<char>>, sep: Seq<char>) -> Seq<char>
    decreases parts.len(),
{
    if parts.len() == 0 {
        Seq::empty()
    } else if parts.len() == 1 {
        parts[0]
    } else {
        joined(parts.drop_last(), sep) + sep + parts.last()
    }
}

/// The error reported when `nft` ran with `args` and failed, printing `stderr`.
pub open spec fn failure_message(args: Seq<Seq<char>>, stderr: Seq<char>) -> Seq<char> {
    "nft "@ + joined(args, " "@) + " failed: "@ + stderr
}

/// The message for a failed `nft` run: the command line and what nft printed.
pub fn nft_failure_message(args: &Vec<String>, stderr: &str) -> (res: String)
    ensures
        res@ == failure_message(texts(args@), stderr@),
{
    let mut line = String::new();
    let mut i: usize = 0;
    while i < args.len()
        invariant
            i <= args@.len(),
            line@ == joined(texts(args@).take(i as int), " "@),
        decreases args@.len() - i,
    {
        if i > 0 {
            line.append(" ");
        }
        line.append(args[i].as_str());
        assert(texts(args@).take(i + 1).drop_last() =~= texts(args@).take(i as int));
        i = i + 1;
    }
    assert(texts(args@).take(args@.len() as int) =~= texts(args@));
    let mut res = "nft ".to_owned();
    res.append(line.as_str());
    res.append(" failed: ");
    res.append(stderr);
    res
}

/// The views of a list of string slices.
pub open spec fn word_texts(words: Seq<&str>) -> Seq<Seq<char>> {
    words.map_values(|w: &str| w@)
}

/// The calls that add each of `rules` to the forward chain, in order.
pub open spec fn rule_calls(rules: Seq<Seq<char>>) -> Seq<Seq<Seq<char>>> {
    rules.map_values(|rule: Seq<char>| add_rule_call(rule))
}

/// Owned copies of `words`, in order.
fn owned_words(words: Vec<&str>) -> (res: Vec<String>)
    ensures
        res@.len() == words@.len(),
        texts(res@) == word_texts(words@),
{
    let mut res: Vec<String> = Vec::new();
    let mut i: usize = 0;
    while i < words.len()
        invariant
            i <= words@.len(),
            res@.len() == i,
            texts(res@) == word_texts(words@).take(i as int),
        decreases words@.len() - i,
    {
        let word: &str = words[i];
        let owned = word.to_owned();
        assert(owned@ == words@[i as int]@);
        let ghost before = res@;
        res.push(owned);
        assert(texts(res@) =~= word_texts(words@).take(i + 1)) by {
            assert forall|j: int| 0 <= j < i + 1 implies #[trigger] texts(res@)[j] == word_texts(
                words@,
            ).take(i + 1)[j] by {
                if j < i {
                    assert(res@[j] == before[j]);
                    assert(texts(before)[j] == word_texts(words@).take(i as int)[j]);
                }
            }
        }
        i = i + 1;
    }
    assert(word_texts(words@).take(words@.len() as int) =~= word_texts(words@));
    res
}

/// The nft arguments that delete the whole table.
pub open spec fn delete_table_call() -> Seq<Seq<char>> {
    seq!["delete"@, "table"@, "inet"@, TABLE_NAME@]
}

/// The nft arguments that append `rule` to the forward chain.
pub open spec fn add_rule_call(rule: Seq<char>) -> Seq<Seq<char>> {
    seq!["add"@, "rule"@, "inet"@, TABLE_NAME@, CHAIN_NAME@, rule]
}

/// The nft arguments that `verb` (`add` or `delete`) the element for `mac` in the denied set.
pub open spec fn element_call(verb: Seq<char>, mac: Seq<char>) -> Seq<Seq<char>> {
    seq![verb, "element"@, "inet"@, TABLE_NAME@, SET_NAME@, element(mac)]
}

/// The nft calls that rebuild the table from scratch, in order: drop whatever an
/// earlier run left behind, create the table, the set of denied addresses and the
/// forward chain (accepting by default), then add the forward rules.
pub open spec fn setup_calls(wan: Seq<char>, lan: Seq<char>) -> Seq<Seq<Seq<char>>> {
    seq![
        delete_table_call(),
        seq!["add"@, "table"@, "inet"@, TABLE_NAME@],
        seq!["add"@, "set"@, "inet"@, TABLE_NAME@, SET_NAME@, "{ type ether_addr ; }"@],
        seq![
            "add"@,
            "chain"@,
            "inet"@,
            TABLE_NAME@,
            CHAIN_NAME@,
            "{ type filter hook forward priority 0; policy accept; }"@,
        ],
    ] + rule_calls(forward_rules(wan, lan))
}

/// The arguments of the nft call that deletes the table.
pub fn delete_table_command() -> (args: Vec<String>)
    ensures
        texts(args@) == delete_table_call(),
{
    let args = owned_words(vec!["delete", "table", "inet", TABLE_NAME]);
    assert(texts(args@) =~= delete_table_call());
    args
}

/// The nft calls that set up the table, as `setup_calls` lists them. The first one
/// deletes a table left over from an earlier run; it fails when there is none,
/// which is fine. Every later one must succeed.
pub fn init_table(wan_interface: &str, lan_bridge: &str) -> (calls: Vec<Vec<String>>)
    ensures
        calls_view(calls@) == setup_calls(wan_interface@, lan_bridge@),
{
    let mut calls: Vec<Vec<String>> = Vec::new();
    calls.push(delete_table_command());
    let words = vec!["add", "table", "inet", TABLE_NAME];
    assert(word_texts(words@) =~= seq!["add"@, "table"@, "inet"@, TABLE_NAME@]);
    calls.push(owned_words(words));
    let words = vec!["add", "set", "inet", TABLE_NAME, SET_NAME, "{ type ether_addr ; }"];
    assert(word_texts(words@) =~= seq![
        "add"@,
        "set"@,
        "inet"@,
        TABLE_NAME@,
        SET_NAME@,
        "{ type ether_addr ; }"@,
    ]);
    calls.push(owned_words(words));
    let words = vec![
        "add",
        "chain",
        "inet",
        TABLE_NAME,
        CHAIN_NAME,
        "{ type filter hook forward priority 0; policy accept; }",
    ];
    assert(word_texts(words@) =~= seq![
        "add"@,
        "chain"@,
        "inet"@,
        TABLE_NAME@,
        CHAIN_NAME@,
        "{ type filter hook forward priority 0; policy accept; }"@,
    ]);
    calls.push(owned_words(words));
    let ghost head = calls_view(calls@);
    assert(head =~= setup_calls(wan_interface@, lan_bridge@).take(4));
    let rules = chain_rules(wan_interface, lan_bridge);
    let mut i: usize = 0;
    while i < rules.len()
        invariant
            i <= rules@.len(),
            calls@.len() == 4 + i,
            head == setup_calls(wan_interface@, lan_bridge@).take(4),
            texts(rules@) == forward_rules(wan_interface@, lan_bridge@),
            calls_view(calls@) == head + rule_calls(
                forward_rules(wan_interface@, lan_bridge@).take(i as int),
            ),
        decreases rules@.len() - i,
    {
        let words = vec!["add", "rule", "inet", TABLE_NAME, CHAIN_NAME];
        assert(word_texts(words@) =~= seq!["add"@, "rule"@, "inet"@, TABLE_NAME@, CHAIN_NAME@]);
        let mut call = owned_words(words);
        let ghost prefix = call@;
        call.push(rules[i].clone());
        assert(texts(call@) =~= add_rule_call(rules@[i as int]@)) by {
            assert(call@[5]@ == rules@[i as int]@);
            assert forall|j: int| 0 <= j < 5 implies texts(call@)[j] == texts(prefix)[j] by {
                assert(call@[j] == prefix[j]);
            }
        }
        let ghost before = calls@;
        calls.push(call);
        assert(calls_view(calls@) =~= head + rule_calls(
            forward_rules(wan_interface@, lan_bridge@).take(i + 1),
        )) by {
            assert forall|j: int| 0 <= j < 4 + i implies #[trigger] calls_view(calls@)[j]
                == calls_view(before)[j] by {
                assert(calls@[j] == before[j]);
                if j >= 4 {
                    assert(rule_calls(forward_rules(wan_interface@, lan_bridge@).take(i as int))[j
                        - 4] == rule_calls(forward_rules(wan_interface@, lan_bridge@).take(i + 1))[j
                        - 4]);
                }
            }
            assert(texts(rules@)[i as int] == rules@[i as int]@);
            assert(calls_view(calls@)[4 + i] == texts(call@));
            assert(rule_calls(forward_rules(wan_interface@, lan_bridge@).take(i + 1))[i as int]
                == add_rule_call(forward_rules(wan_interface@, lan_bridge@)[i as int]));
            let target = head + rule_calls(forward_rules(wan_interface@, lan_bridge@).take(i + 1));
            assert(head.len() == 4);
            assert(target.len() == calls_view(calls@).len());
            assert forall|j: int| 0 <= j < 5 + i implies #[trigger] calls_view(calls@)[j]
                == target[j] by {
                if j < 4 + i {
                    assert(calls_view(calls@)[j] == calls_view(before)[j]);
                }
            }
        }
        i = i + 1;
    }
    assert(forward_rules(wan_interface@, lan_bridge@).take(6) =~= forward_rules(
        wan_interface@,
        lan_bridge@,
    ));
    assert(calls_view(calls@) =~= setup_calls(wan_interface@, lan_bridge@));
    calls
}

/// The nft call that `deny` (when `deny` holds) or `allow` hands out for `mac`
/// while `denied` is the record: adding the element when a device is newly denied,
/// deleting it when a denied device is allowed, and nothing otherwise.
pub open spec fn planned_call(denied: Set<Seq<char>>, deny: bool, mac: Seq<char>) -> Option<
    Seq<Seq<char>>,
> {
    if deny {
        if denied.contains(mac) {
            None
        } else {
            Some(element_call("add"@, mac))
        }
    } else {
        if denied.contains(mac) {
            Some(element_call("delete"@, mac))
        } else {
            None
        }
    }
}

/// What a successful element call does to the contents of the nft set: `add`
/// inserts the element it names, `delete` removes it.
pub open spec fn nft_applied(set: Set<Seq<char>>, call: Seq<Seq<char>>) -> Set<Seq<char>> {
    let target = call[5].subrange(2, call[5].len() - 2);
    if call[0] == "add"@ {
        set.insert(target)
    } else if call[0] == "delete"@ {
        set.remove(target)
    } else {
        set
    }
}

/// The record after the rules `ops` (each `(deny, mac)`) all succeeded, as
/// `confirm_deny` and `confirm_allow` leave it.
pub open spec fn record_after(denied: Set<Seq<char>>, ops: Seq<(bool, Seq<char>)>) -> Set<
    Seq<char>,
>
    decreases ops.len(),
{
    if ops.len() == 0 {
        denied
    } else {
        let next = if ops[0].0 {
            denied.insert(ops[0].1)
        } else {
            denied.remove(ops[0].1)
        };
        record_after(next, ops.skip(1))
    }
}

/// The contents of the nft set after the calls that `deny` and `allow` hand out for
/// `ops` all ran successfully, starting from the record `denied` and the set `set`.
pub open spec fn nft_set_after(
    denied: Set<Seq<char>>,
    set: Set<Seq<char>>,
    ops: Seq<(bool, Seq<char>)>,
) -> Set<Seq<char>>
    decreases ops.len(),
{
    if ops.len() == 0 {
        set
    } else {
        let (deny, mac) = ops[0];
        let next_set = match planned_call(denied, deny, mac) {
            Some(call) => nft_applied(set, call),
            None => set,
        };
        let next = if deny {
            denied.insert(mac)
        } else {
            denied.remove(mac)
        };
        nft_set_after(next, next_set, ops.skip(1))
    }
}

/// The MAC addresses whose internet access is cut, and the nft calls that change that.
/// Held as a vector without repeats, since vstd gives `HashSet` contents a
/// specification only for key types it models, and `String` is not one.
pub struct NftManager {
    denied: Vec<String>,
}

/// The set of the views of `v`.
pub open spec fn text_set(v: Seq<String>) -> Set<Seq<char>> {
    Set::new(|m: Seq<char>| exists|i: int| 0 <= i < v.len() && v[i]@ == m)
}

/// No two entries of `v` spell the same text.
pub open spec fn texts_distinct(v: Seq<String>) -> bool {
    forall|i: int, j: int| 0 <= i < v.len() && 0 <= j < v.len() && i != j ==> #[trigger] v[i]@
        != #[trigger] v[j]@
}

impl NftManager {
    /// The denied MAC addresses.
    pub closed spec fn view(&self) -> Set<Seq<char>> {
        text_set(self.denied@)
    }

    #[verifier::type_invariant]
    spec fn denied_distinct(self) -> bool {
        texts_distinct(self.denied@)
    }

    /// Starts the manager: the returned setup lists the nft calls of `init_table`
    /// and, driven to its end with `TableSetup::advance`, hands over a manager that
    /// denies nobody.
    pub fn new(wan_interface: &str, lan_bridge: &str) -> (setup: TableSetup)
        ensures
            setup.calls() == setup_calls(wan_interface@, lan_bridge@),
            setup.done() == 0,
    {
        TableSetup { calls: init_table(wan_interface, lan_bridge), done: 0 }
    }

    /// Where `mac` stands in the list of denied addresses, if it is there.
    fn position(&self, mac: &str) -> (res: Option<usize>)
        ensures
            match res {
                Some(i) => i < self.denied@.len() && self.denied@[i as int]@ == mac@,
                None => forall|i: int|
                    0 <= i < self.denied@.len() ==> #[trigger] self.denied@[i]@ != mac@,
            },
    {
        let key = mac.to_owned();
        let mut i: usize = 0;
        while i < self.denied.len()
            invariant
                key@ == mac@,
                i <= self.denied@.len(),
                forall|j: int| 0 <= j < i ==> #[trigger] self.denied@[j]@ != mac@,
            decreases self.denied@.len() - i,
        {
            if self.denied[i] == key {
                return Some(i);
            }
            i = i + 1;
        }
        None
    }

    /// Whether `mac` has internet access, that is, is not denied.
    pub fn is_allowed(&self, mac: &str) -> (res: bool)
        ensures
            res == !self@.contains(mac@),
    {
        match self.position(mac) {
            Some(i) => {
                assert(self@.contains(mac@)) by {
                    assert(self.denied@[i as int]@ == mac@);
                }
                false
            },
            None => true,
        }
    }

    /// The nft call that denies `mac`, or `None` when it is denied already and
    /// nothing needs to run. Once the call has run, `confirm_deny` records its outcome.
    pub fn deny(&self, mac: &str) -> (call: Option<Vec<String>>)
        ensures
            match call {
                Some(args) => planned_call(self@, true, mac@) == Some(texts(args@)),
                None => planned_call(self@, true, mac@) is None,
            },
    {
        if !self.is_allowed(mac) {
            return None;
        }
        Some(element_command("add", mac))
    }

    /// Records what the nft call of `deny` reported: on success `mac` is denied
    /// from now on (and the caller drops the router's hardware-accelerated
    /// connections, so that they meet the new rules); on failure nothing changes.
    /// Returns `outcome`.
    pub fn confirm_deny(&mut self, mac: &str, outcome: Result<(), String>) -> (res: Result<
        (),
        String,
    >)
        ensures
            res == outcome,
            outcome is Ok ==> final(self)@ == old(self)@.insert(mac@),
            outcome is Err ==> final(self)@ == old(self)@,
    {
        proof {
            use_type_invariant(&*self);
        }
        if outcome.is_err() || !self.is_allowed(mac) {
            proof {
                if outcome is Ok {
                    assert(self@.insert(mac@) =~= self@);
                }
            }
            return outcome;
        }
        let ghost before = self.denied@;
        let mut denied: Vec<String> = Vec::new();
        std::mem::swap(&mut denied, &mut self.denied);
        denied.push(mac.to_owned());
        proof {
            assert(texts_distinct(denied@)) by {
                assert forall|a: int, b: int|
                    0 <= a < denied@.len() && 0 <= b < denied@.len() && a != b implies #[trigger] denied@[a]@
                    != #[trigger] denied@[b]@ by {
                    if a < before.len() {
                        assert(denied@[a] == before[a]);
                    }
                    if b < before.len() {
                        assert(denied@[b] == before[b]);
                    }
                }
            }
            assert(text_set(denied@) =~= text_set(before).insert(mac@)) by {
                assert forall|m: Seq<char>| text_set(before).contains(m) implies #[trigger] text_set(
                    denied@,
                ).contains(m) by {
                    let i = choose|i: int| 0 <= i < before.len() && before[i]@ == m;
                    assert(denied@[i] == before[i]);
                }
                assert forall|m: Seq<char>| #[trigger] text_set(denied@).contains(m) implies text_set(
                    before,
                ).insert(mac@).contains(m) by {
                    let i = choose|i: int| 0 <= i < denied@.len() && denied@[i]@ == m;
                    if i < before.len() {
                        assert(denied@[i] == before[i]);
                    }
                }
                assert(text_set(denied@).contains(mac@)) by {
                    assert(denied@[before.len() as int]@ == mac@);
                }
            }
        }
        self.denied = denied;
        outcome
    }

    /// The nft call that restores internet access to `mac`, or `None` when it is not
    /// denied and nothing needs to run. Once the call has run, `confirm_allow`
    /// records its outcome.
    pub fn allow(&self, mac: &str) -> (call: Option<Vec<String>>)
        ensures
            match call {
                Some(args) => planned_call(self@, false, mac@) == Some(texts(args@)),
                None => planned_call(self@, false, mac@) is None,
            },
    {
        if self.is_allowed(mac) {
            return None;
        }
        Some(element_command("delete", mac))
    }

    /// Records what the nft call of `allow` reported: on success `mac` has internet
    /// access from now on; on failure it stays denied, as nft still blocks it.
    /// Returns `outcome`.
    pub fn confirm_allow(&mut self, mac: &str, outcome: Result<(), String>) -> (res: Result<
        (),
        String,
    >)
        ensures
            res == outcome,
            outcome is Ok ==> final(self)@ == old(self)@.remove(mac@),
            outcome is Err ==> final(self)@ == old(self)@,
    {
        proof {
            use_type_invariant(&*self);
        }
        if outcome.is_err() {
            return outcome;
        }
        match self.position(mac) {
            None => {
                assert(self@.remove(mac@) =~= self@) by {
                    assert(!self@.contains(mac@)) by {
                        if self@.contains(mac@) {
                            let i = choose|i: int|
                                0 <= i < self.denied@.len() && self.denied@[i]@ == mac@;
                            assert(self.denied@[i]@ != mac@);
                        }
                    }
                }
                outcome
            },
            Some(k) => {
                let ghost before = self.denied@;
                let mut denied: Vec<String> = Vec::new();
                std::mem::swap(&mut denied, &mut self.denied);
                denied.remove(k);
                proof {
                    assert(denied@ == before.remove(k as int));
                    assert(texts_distinct(denied@)) by {
                        assert forall|a: int, b: int|
                            0 <= a < denied@.len() && 0 <= b < denied@.len() && a
                                != b implies #[trigger] denied@[a]@ != #[trigger] denied@[b]@ by {
                            let a0 = if a < k { a } else { a + 1 };
                            let b0 = if b < k { b } else { b + 1 };
                            assert(denied@[a] == before[a0]);
                            assert(denied@[b] == before[b0]);
                        }
                    }
                    assert(text_set(denied@) =~= text_set(before).remove(mac@)) by {
                        assert forall|m: Seq<char>| #[trigger] text_set(denied@).contains(
                            m,
                        ) implies text_set(before).remove(mac@).contains(m) by {
                            let i = choose|i: int| 0 <= i < denied@.len() && denied@[i]@ == m;
                            let i0 = if i < k { i } else { i + 1 };
                            assert(denied@[i] == before[i0]);
                            assert(i0 != k);
                        }
                        assert forall|m: Seq<char>|
                            #[trigger] text_set(before).remove(mac@).contains(m) implies text_set(
                            denied@,
                        ).contains(m) by {
                            let i0 = choose|i: int| 0 <= i < before.len() && before[i]@ == m;
                            assert(i0 != k);
                            let i = if i0 < k { i0 } else { i0 - 1 };
                            assert(denied@[i] == before[i0]);
                        }
                    }
                }
                self.denied = denied;
                outcome
            },
        }
    }
}

/// The nft arguments that `verb` the element for `mac` in the denied set.
fn element_command(verb: &str, mac: &str) -> (args: Vec<String>)
    ensures
        texts(args@) == element_call(verb@, mac@),
{
    let words = vec![verb, "element", "inet", TABLE_NAME, SET_NAME];
    assert(word_texts(words@) =~= seq![verb@, "element"@, "inet"@, TABLE_NAME@, SET_NAME@]);
    let mut args = owned_words(words);
    let ghost prefix = args@;
    args.push(element_spec(mac));
    assert(texts(args@) =~= element_call(verb@, mac@)) by {
        assert forall|j: int| 0 <= j < 5 implies texts(args@)[j] == texts(prefix)[j] by {
            assert(args@[j] == prefix[j]);
        }
    }
    args
}

/// The setup of the nft table: the calls to run in order, and how many have been handed out.
pub struct TableSetup {
    calls: Vec<Vec<String>>,
    done: usize,
}

/// What to do next while the table is being set up.
pub enum SetupStep {
    /// Run nft with these arguments and pass its outcome to the next `advance`.
    Run(Vec<String>),
    /// Every call has run; here is the manager, which denies nobody.
    Ready(NftManager),
    /// A call that must succeed failed with this message.
    Failed(String),
}

impl TableSetup {
    /// The nft calls of the setup, in order.
    pub closed spec fn calls(&self) -> Seq<Seq<Seq<char>>> {
        calls_view(self.calls@)
    }

    /// How many of them have been handed out.
    pub closed spec fn done(&self) -> nat {
        self.done as nat
    }

    /// Whether the call handed out last could not be done without: every call but
    /// the first, which only clears what an earlier run left behind.
    pub open spec fn must_have_succeeded(done: nat) -> bool {
        done >= 2
    }

    /// The next step, given what the call handed out last reported (`Ok(())` on the
    /// first step): stop when a call that must succeed failed, hand out the next call
    /// when one is left, and hand over an empty manager once all have run. Only the
    /// first call may fail: once two or more have been handed out, a failure ends
    /// the setup, so a manager is handed over only when every later call succeeded.
    pub fn advance(&mut self, previous: Result<(), String>) -> (step: SetupStep)
        ensures
            final(self).calls() == old(self).calls(),
            match step {
                SetupStep::Failed(e) => {
                    &&& old(self).done() >= 2
                    &&& previous == Err::<(), String>(e)
                    &&& final(self).done() == old(self).done()
                },
                SetupStep::Run(args) => {
                    &&& !(old(self).done() >= 2 && previous is Err)
                    &&& old(self).done() < old(self).calls().len()
                    &&& texts(args@) == old(self).calls()[old(self).done() as int]
                    &&& final(self).done() == old(self).done() + 1
                },
                SetupStep::Ready(manager) => {
                    &&& !(old(self).done() >= 2 && previous is Err)
                    &&& old(self).done() >= old(self).calls().len()
                    &&& manager@ == Set::<Seq<char>>::empty()
                    &&& final(self).done() == old(self).done()
                },
            },
    {
        if self.done >= 2 {
            if let Err(e) = previous {
                return SetupStep::Failed(e);
            }
        }
        if self.done < self.calls.len() {
            let args = self.calls[self.done].clone();
            assert(texts(args@) == self.calls()[self.done as int]) by {
                assert(args@ == self.calls@[self.done as int]@);
            }
            self.done = self.done + 1;
            SetupStep::Run(args)
        } else {
            let manager = NftManager { denied: Vec::new() };
            assert(manager@ =~= Set::<Seq<char>>::empty());
            SetupStep::Ready(manager)
        }
    }
}

/// Denying a device and then allowing it again leaves the record as it was before
/// the denial, but for that device, which is allowed.
pub proof fn law_allow_undoes_deny(denied: Set<Seq<char>>, mac: Seq<char>)
    ensures
        denied.insert(mac).remove(mac) == denied.remove(mac),
        !denied.insert(mac).remove(mac).contains(mac),
        !denied.contains(mac) ==> denied.insert(mac).remove(mac) == denied,
{
    assert(denied.insert(mac).remove(mac) =~= denied.remove(mac));
    if !denied.contains(mac) {
        assert(denied.remove(mac) =~= denied);
    }
}

/// A rule about one device leaves the standing of every other device as it was.
pub proof fn law_rules_touch_only_their_device(
    denied: Set<Seq<char>>,
    mac: Seq<char>,
    other: Seq<char>,
)
    requires
        mac != other,
    ensures
        denied.insert(mac).contains(other) == denied.contains(other),
        denied.remove(mac).contains(other) == denied.contains(other),
{
}

/// Denying twice is denying once, and allowing twice is allowing once; the second
/// time, `deny` and `allow` hand out no nft call.
pub proof fn law_repeated_rules_change_nothing(denied: Set<Seq<char>>, mac: Seq<char>)
    ensures
        denied.insert(mac).insert(mac) == denied.insert(mac),
        denied.insert(mac).contains(mac),
        denied.remove(mac).remove(mac) == denied.remove(mac),
        !denied.remove(mac).contains(mac),
{
    assert(denied.insert(mac).insert(mac) =~= denied.insert(mac));
    assert(denied.remove(mac).remove(mac) =~= denied.remove(mac));
}

/// The view of `a + b` at `a.len()` for `b.len()` characters is `b`.
proof fn lemma_middle(a: Seq<char>, b: Seq<char>, c: Seq<char>)
    ensures
        occurs_in(b, a + b + c),
{
    let whole = a + b + c;
    assert(whole.subrange(a.len() as int, a.len() as int + b.len()) =~= b);
}

/// Every rule that rejects a denied device's traffic also tags the connection, so
/// that its return traffic stops too; this holds whatever the interface names.
pub proof fn law_every_reject_tags_the_connection(wan: Seq<char>, lan: Seq<char>)
    ensures
        forall|k: int|
            1 <= k <= 4 ==> occurs_in(tag_action(), #[trigger] forward_rules(wan, lan)[k]),
{
    let rules = forward_rules(wan, lan);
    let tcp_head = |d: Seq<char>| d + " ether saddr @"@ + SET_NAME@ + " meta l4proto tcp "@;
    let icmp_head = |d: Seq<char>| d + " ether saddr @"@ + SET_NAME@ + " "@;
    lemma_middle(tcp_head(outbound(wan)), tag_action(), " reject with tcp reset"@);
    lemma_middle(
        icmp_head(outbound(wan)),
        tag_action(),
        " reject with icmpx type admin-prohibited"@,
    );
    lemma_middle(tcp_head(inbound(lan)), tag_action(), " reject with tcp reset"@);
    lemma_middle(
        icmp_head(inbound(lan)),
        tag_action(),
        " reject with icmpx type admin-prohibited"@,
    );
    assert(rules[1] == tcp_head(outbound(wan)) + tag_action() + " reject with tcp reset"@);
    assert(rules[2] == icmp_head(outbound(wan)) + tag_action()
        + " reject with icmpx type admin-prohibited"@);
    assert(rules[3] == tcp_head(inbound(lan)) + tag_action() + " reject with tcp reset"@);
    assert(rules[4] == icmp_head(inbound(lan)) + tag_action()
        + " reject with icmpx type admin-prohibited"@);
}

/// `a + x` begins with `a` and ends with `x`.
proof fn lemma_affixes(a: Seq<char>, x: Seq<char>)
    ensures
        a.is_prefix_of(a + x),
        x.is_suffix_of(a + x),
{
    assert((a + x).subrange(0, a.len() as int) =~= a);
    assert((a + x).subrange(a.len() as int, (a + x).len() as int) =~= x);
}

/// Texts that agree around their middles agree in their middles.
proof fn lemma_middle_determined(a: Seq<char>, x: Seq<char>, y: Seq<char>, b: Seq<char>)
    requires
        a + x + b == a + y + b,
    ensures
        x == y,
{
    assert((a + x + b).len() == (a + y + b).len());
    assert((a + x + b).len() == a.len() + x.len() + b.len());
    assert((a + y + b).len() == a.len() + y.len() + b.len());
    assert(x.len() == y.len());
    assert((a + x + b).subrange(a.len() as int, (a.len() + x.len()) as int) =~= x);
    assert((a + y + b).subrange(a.len() as int, (a.len() + y.len()) as int) =~= y);
}

/// The forward chain matches traffic by the interfaces it is given, and each
/// direction uses its own interface in both of its rejects: the TCP and the ICMP
/// reject of traffic leaving towards the internet name `wan`, those of traffic
/// routed off the LAN name `lan`, and so does the rule that releases a device's
/// connections once it is allowed. The TCP rejects answer with a reset, the
/// others with an ICMP error, and what is left of tagged connections is dropped.
pub proof fn law_rules_name_their_interfaces(wan: Seq<char>, lan: Seq<char>)
    ensures
        forward_rules(wan, lan).len() == 6,
        ("ct mark and "@ + KILL_MARK@ + " == "@ + KILL_MARK@ + " iifname \""@ + lan
            + "\" ether saddr != @"@).is_prefix_of(forward_rules(wan, lan)[0]),
        ("oifname \""@ + wan + "\""@ + " ether saddr @"@ + SET_NAME@).is_prefix_of(
            forward_rules(wan, lan)[1],
        ),
        ("oifname \""@ + wan + "\""@ + " ether saddr @"@ + SET_NAME@).is_prefix_of(
            forward_rules(wan, lan)[2],
        ),
        ("iifname \""@ + lan + "\""@ + " ether saddr @"@ + SET_NAME@).is_prefix_of(
            forward_rules(wan, lan)[3],
        ),
        ("iifname \""@ + lan + "\""@ + " ether saddr @"@ + SET_NAME@).is_prefix_of(
            forward_rules(wan, lan)[4],
        ),
        " reject with tcp reset"@.is_suffix_of(forward_rules(wan, lan)[1]),
        " reject with icmpx type admin-prohibited"@.is_suffix_of(forward_rules(wan, lan)[2]),
        " reject with tcp reset"@.is_suffix_of(forward_rules(wan, lan)[3]),
        " reject with icmpx type admin-prohibited"@.is_suffix_of(forward_rules(wan, lan)[4]),
        " drop"@.is_suffix_of(forward_rules(wan, lan)[5]),
{
    let rules = forward_rules(wan, lan);
    let release = "ct mark and "@ + KILL_MARK@ + " == "@ + KILL_MARK@ + " iifname \""@ + lan
        + "\" ether saddr != @"@;
    let out_head = "oifname \""@ + wan + "\""@ + " ether saddr @"@ + SET_NAME@;
    let in_head = "iifname \""@ + lan + "\""@ + " ether saddr @"@ + SET_NAME@;
    let tcp_tail = " meta l4proto tcp "@ + tag_action();
    let icmp_tail = " "@ + tag_action();
    let tcp_end = " reject with tcp reset"@;
    let icmp_end = " reject with icmpx type admin-prohibited"@;
    let release_rest = SET_NAME@ + " ct mark set ct mark and "@ + KEEP_MASK@;
    assert(rules[0] =~= release + release_rest);
    assert(rules[1] =~= out_head + (tcp_tail + tcp_end));
    assert(rules[1] =~= (out_head + tcp_tail) + tcp_end);
    assert(rules[2] =~= out_head + (icmp_tail + icmp_end));
    assert(rules[2] =~= (out_head + icmp_tail) + icmp_end);
    assert(rules[3] =~= in_head + (tcp_tail + tcp_end));
    assert(rules[3] =~= (in_head + tcp_tail) + tcp_end);
    assert(rules[4] =~= in_head + (icmp_tail + icmp_end));
    assert(rules[4] =~= (in_head + icmp_tail) + icmp_end);
    lemma_affixes(release, release_rest);
    lemma_affixes(out_head, tcp_tail + tcp_end);
    lemma_affixes(out_head + tcp_tail, tcp_end);
    lemma_affixes(out_head, icmp_tail + icmp_end);
    lemma_affixes(out_head + icmp_tail, icmp_end);
    lemma_affixes(in_head, tcp_tail + tcp_end);
    lemma_affixes(in_head + tcp_tail, tcp_end);
    lemma_affixes(in_head, icmp_tail + icmp_end);
    lemma_affixes(in_head + icmp_tail, icmp_end);
    lemma_affixes(tagged_match(), " drop"@);
}

/// The setup rebuilds the table for the interfaces it is given: after the delete
/// and the three calls that create the table, the set of denied addresses and the
/// forward chain (which accepts what no rule matches), it adds the
/// forward rules in order, so the calls that add the WAN rejects name `wan` and
/// those that add the LAN rejects name `lan`. Setups for different interfaces
/// therefore differ.
pub proof fn law_setup_adds_the_rules_for_its_interfaces(
    wan: Seq<char>,
    lan: Seq<char>,
    other_wan: Seq<char>,
    other_lan: Seq<char>,
)
    ensures
        setup_calls(wan, lan).len() == 10,
        setup_calls(wan, lan)[0] == delete_table_call(),
        setup_calls(wan, lan)[1] == seq!["add"@, "table"@, "inet"@, TABLE_NAME@],
        setup_calls(wan, lan)[2] == seq![
            "add"@,
            "set"@,
            "inet"@,
            TABLE_NAME@,
            SET_NAME@,
            "{ type ether_addr ; }"@,
        ],
        setup_calls(wan, lan)[3] == seq![
            "add"@,
            "chain"@,
            "inet"@,
            TABLE_NAME@,
            CHAIN_NAME@,
            "{ type filter hook forward priority 0; policy accept; }"@,
        ],
        forall|k: int|
            0 <= k < 6 ==> #[trigger] setup_calls(wan, lan)[4 + k] == seq![
                "add"@,
                "rule"@,
                "inet"@,
                TABLE_NAME@,
                CHAIN_NAME@,
                forward_rules(wan, lan)[k],
            ],
        ("oifname \""@ + wan + "\""@).is_prefix_of(setup_calls(wan, lan)[5][5]),
        ("oifname \""@ + wan + "\""@).is_prefix_of(setup_calls(wan, lan)[6][5]),
        ("iifname \""@ + lan + "\""@).is_prefix_of(setup_calls(wan, lan)[7][5]),
        ("iifname \""@ + lan + "\""@).is_prefix_of(setup_calls(wan, lan)[8][5]),
        wan != other_wan ==> setup_calls(wan, lan) != setup_calls(other_wan, lan),
        lan != other_lan ==> setup_calls(wan, lan) != setup_calls(wan, other_lan),
{
    let calls = setup_calls(wan, lan);
    assert forall|k: int| 0 <= k < 6 implies #[trigger] calls[4 + k] == seq![
        "add"@,
        "rule"@,
        "inet"@,
        TABLE_NAME@,
        CHAIN_NAME@,
        forward_rules(wan, lan)[k],
    ] by {
        assert(rule_calls(forward_rules(wan, lan))[k] == add_rule_call(forward_rules(wan, lan)[k]));
    }
    law_rules_name_their_interfaces(wan, lan);
    let rules = forward_rules(wan, lan);
    let out_mark = "oifname \""@ + wan + "\""@;
    let in_mark = "iifname \""@ + lan + "\""@;
    let rest = " ether saddr @"@ + SET_NAME@;
    assert(calls[5][5] == rules[1]);
    assert(calls[6][5] == rules[2]);
    assert(calls[7][5] == rules[3]);
    assert(calls[8][5] == rules[4]);
    assert((out_mark + rest).subrange(0, out_mark.len() as int) =~= out_mark);
    assert((in_mark + rest).subrange(0, in_mark.len() as int) =~= in_mark);
    assert(rules[1].subrange(0, out_mark.len() as int) =~= (out_mark + rest).subrange(
        0,
        out_mark.len() as int,
    ));
    assert(rules[2].subrange(0, out_mark.len() as int) =~= (out_mark + rest).subrange(
        0,
        out_mark.len() as int,
    ));
    assert(rules[3].subrange(0, in_mark.len() as int) =~= (in_mark + rest).subrange(
        0,
        in_mark.len() as int,
    ));
    assert(rules[4].subrange(0, in_mark.len() as int) =~= (in_mark + rest).subrange(
        0,
        in_mark.len() as int,
    ));
    if wan != other_wan && calls == setup_calls(other_wan, lan) {
        let tail = " ether saddr @"@ + SET_NAME@ + " meta l4proto tcp "@ + tag_action()
            + " reject with tcp reset"@;
        assert(setup_calls(other_wan, lan)[5][5] == forward_rules(other_wan, lan)[1]);
        assert(rules[1] =~= "oifname \""@ + wan + ("\""@ + tail));
        assert(forward_rules(other_wan, lan)[1] =~= "oifname \""@ + other_wan + ("\""@ + tail));
        lemma_middle_determined("oifname \""@, wan, other_wan, "\""@ + tail);
    }
    if lan != other_lan && calls == setup_calls(wan, other_lan) {
        let tail = " ether saddr @"@ + SET_NAME@ + " meta l4proto tcp "@ + tag_action()
            + " reject with tcp reset"@;
        assert(setup_calls(wan, other_lan)[7][5] == forward_rules(wan, other_lan)[3]);
        assert(rules[3] =~= "iifname \""@ + lan + ("\""@ + tail));
        assert(forward_rules(wan, other_lan)[3] =~= "iifname \""@ + other_lan + ("\""@ + tail));
        lemma_middle_determined("iifname \""@, lan, other_lan, "\""@ + tail);
    }
}

/// Of the setup's calls only the first, which deletes what an earlier run left
/// behind, is allowed to fail: every later call adds a part of the table, and
/// those are exactly the calls after which `TableSetup::advance` stops on a failure.
pub proof fn law_only_the_leftover_delete_may_fail(wan: Seq<char>, lan: Seq<char>, done: nat)
    requires
        1 <= done <= setup_calls(wan, lan).len(),
    ensures
        setup_calls(wan, lan)[0] == delete_table_call(),
        TableSetup::must_have_succeeded(done) <==> setup_calls(wan, lan)[done - 1][0] == "add"@,
{
    reveal_strlit("add");
    reveal_strlit("delete");
    let calls = setup_calls(wan, lan);
    assert(calls.len() == 10);
    assert("add"@ != "delete"@) by {
        assert("add"@.len() != "delete"@.len());
    }
    if done >= 5 {
        let k = done - 5;
        assert(calls[4 + k] == rule_calls(forward_rules(wan, lan))[k]);
    }
}

/// An element call acts on the element it was made for.
proof fn lemma_element_call_applied(set: Set<Seq<char>>, mac: Seq<char>)
    ensures
        nft_applied(set, element_call("add"@, mac)) == set.insert(mac),
        nft_applied(set, element_call("delete"@, mac)) == set.remove(mac),
{
    reveal_strlit("{ ");
    reveal_strlit(" }");
    reveal_strlit("add");
    reveal_strlit("delete");
    let e = element(mac);
    assert(e.subrange(2, e.len() - 2) =~= mac);
    assert("add"@ != "delete"@) by {
        assert("add"@.len() != "delete"@.len());
    }
}

/// After any run of successful rule requests, the record of denied devices is the
/// set that nft holds: starting from the same contents (empty, after setup), every
/// call handed out by `deny` and `allow` changes the nft set as `confirm_deny` and
/// `confirm_allow` change the record.
pub proof fn law_record_matches_nft_set(denied: Set<Seq<char>>, ops: Seq<(bool, Seq<char>)>)
    ensures
        record_after(denied, ops) == nft_set_after(denied, denied, ops),
    decreases ops.len(),
{
    if ops.len() > 0 {
        let (deny, mac) = ops[0];
        lemma_element_call_applied(denied, mac);
        let next = if deny {
            denied.insert(mac)
        } else {
            denied.remove(mac)
        };
        let next_set = match planned_call(denied, deny, mac) {
            Some(call) => nft_applied(denied, call),
            None => denied,
        };
        if deny && denied.contains(mac) {
            assert(denied.insert(mac) =~= denied);
        }
        if !deny && !denied.contains(mac) {
            assert(denied.remove(mac) =~= denied);
        }
        assert(next_set == next);
        law_record_matches_nft_set(next, ops.skip(1));
    }
}

impl NftManager {
    /// Records what the nft call planned for a rule reported (`Ok(())` when no call
    /// was needed), as `confirm_deny` or `confirm_allow` does for `action`. Also says
    /// whether the router's hardware-accelerated connections must now be torn down,
    /// so that they meet the rules: exactly when `mac` was newly denied, the set
    /// element being live by then.
    pub fn confirm(&mut self, action: Action, mac: &str, outcome: Result<(), String>) -> (res: (
        Result<(), String>,
        bool,
    ))
        ensures
            res.0 == outcome,
            res.1 == (action == Action::Deny && outcome is Ok && !old(self)@.contains(mac@)),
            outcome is Err ==> final(self)@ == old(self)@,
            outcome is Ok && action == Action::Deny ==> final(self)@ == old(self)@.insert(mac@),
            outcome is Ok && action == Action::Allow ==> final(self)@ == old(self)@.remove(mac@),
    {
        match action {
            Action::Deny => {
                let newly = self.is_allowed(mac);
                let succeeded = outcome.is_ok();
                let res = self.confirm_deny(mac, outcome);
                (res, newly && succeeded)
            },
            Action::Allow => (self.confirm_allow(mac, outcome), false),
        }
    }
}

} // verus!
