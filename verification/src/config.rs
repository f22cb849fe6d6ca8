//! Device aliases and the resolution of a device name to a MAC address.
use vstd::prelude::*;

use crate::text::{
    ascii_lowercase, ascii_upper, ascii_uppercase, chars_less, chars_of, hex_digit,
    is_hex_digit, lemma_text_less_order, text_less, upper_char,
};
use crate::types::AliasEntry;

verus! {

/// Whether `s` is a MAC address as the service accepts it: six groups of two
/// hexadecimal digits (either case), separated by single colons, and nothing else.
/// Position `i` holds a colon exactly when `i % 3 == 2`.
pub open spec fn is_mac_address(s: Seq<char>) -> bool {
    &&& s.len() == 17
    &&& forall|i: int|
        0 <= i < 17 ==> if i % 3 == 2 {
            s[i] == ':'
        } else {
            is_hex_digit(#[trigger] s[i])
        }
}

/// Checks whether `mac` is a MAC address (`AA:BB:CC:DD:EE:FF`, hex digits in either case).
pub fn is_valid_mac(mac: &str) -> (res: bool)
    ensures
        res == is_mac_address(mac@),
{
    let cs = chars_of(mac);
    if cs.len() != 17 {
        return false;
    }
    let mut i: usize = 0;
    while i < 17
        invariant
            cs@ == mac@,
            cs@.len() == 17,
            i <= 17,
            forall|j: int|
                0 <= j < i ==> if j % 3 == 2 {
                    cs@[j] == ':'
                } else {
                    is_hex_digit(#[trigger] cs@[j])
                },
        decreases 17 - i,
    {
        let ok = if i % 3 == 2 {
            cs[i] == ':'
        } else {
            hex_digit(cs[i])
        };
        if !ok {
            assert(!(if i % 3 == 2 {
                cs@[i as int] == ':'
            } else {
                is_hex_digit(cs@[i as int])
            }));
            return false;
        }
        i = i + 1;
    }
    true
}

/// The full Unicode upper-case mapping of a string, as `str::to_uppercase` computes it.
pub uninterp spec fn unicode_uppercase(s: Seq<char>) -> Seq<char>;

/// Upper-cases `s` with `str::to_uppercase`.
///
/// The standard library maps every character by the Unicode upper-case mapping
/// (one character may become several); the contract only names that result and
/// says nothing more about it.
#[verifier::external_body]
fn to_uppercase(s: &str) -> (res: String)
    ensures
        res@ == unicode_uppercase(s@),
{
    s.to_uppercase()
}

/// `mac` with its letters in upper case; a MAC address holds ASCII characters only,
/// so this is the whole of `str::to_uppercase` on it.
fn uppercase_mac(mac: &str) -> (res: String)
    requires
        is_mac_address(mac@),
    ensures
        res@ == ascii_uppercase(mac@),
{
    let cs = chars_of(mac);
    let mut res = String::new();
    let mut i: usize = 0;
    while i < cs.len()
        invariant
            cs@ == mac@,
            i <= cs@.len(),
            res@ == ascii_uppercase(cs@.take(i as int)),
        decreases cs@.len() - i,
    {
        crate::text::push_char(&mut res, upper_char(cs[i]));
        assert(ascii_uppercase(cs@.take(i + 1)) =~= ascii_uppercase(cs@.take(i as int)).push(
            ascii_upper(cs@[i as int]),
        ));
        i = i + 1;
    }
    assert(cs@.take(cs@.len() as int) =~= cs@);
    res
}

/// What a device name resolves to against the alias map `aliases`: a MAC address
/// stands for itself, with its letters upper-cased; an alias stands for the address
/// it names, upper-cased by `str::to_uppercase`; anything else stands for nothing.
pub open spec fn resolution(aliases: Map<Seq<char>, Seq<char>>, device: Seq<char>) -> Option<
    Seq<char>,
> {
    if is_mac_address(device) {
        Some(ascii_uppercase(device))
    } else if aliases.contains_key(device) {
        Some(unicode_uppercase(aliases[device]))
    } else {
        None
    }
}

/// The `(alias, mac)` views of a list of alias entries.
pub open spec fn entry_views(v: Seq<AliasEntry>) -> Seq<(Seq<char>, Seq<char>)> {
    v.map_values(|e: AliasEntry| (e.alias@, e.mac@))
}

/// `entries` lists every alias of `aliases` exactly once, each with the address it
/// names, in increasing order of aliases (see `text_less`).
pub open spec fn lists_sorted(
    entries: Seq<(Seq<char>, Seq<char>)>,
    aliases: Map<Seq<char>, Seq<char>>,
) -> bool {
    &&& forall|i: int|
        0 <= i < entries.len() ==> aliases.contains_key(#[trigger] entries[i].0) && aliases[entries[i].0]
            == entries[i].1
    &&& forall|k: Seq<char>|
        aliases.contains_key(k) ==> exists|i: int| 0 <= i < entries.len() && #[trigger] entries[i].0 == k
    &&& forall|i: int, j: int|
        0 <= i < j < entries.len() ==> text_less(#[trigger] entries[i].0, #[trigger] entries[j].0)
}

/// The alias table read from the configuration file: each alias names one MAC address.
/// Held as a vector without repeated aliases, since vstd gives `HashMap` contents a
/// specification only for key types it models, and `String` is not one.
pub struct Config {
    devices: Vec<(String, String)>,
}

/// The map that a list of `(alias, mac)` entries describes.
pub open spec fn entries_map(entries: Seq<(String, String)>) -> Map<Seq<char>, Seq<char>>
    decreases entries.len(),
{
    if entries.len() == 0 {
        Map::empty()
    } else {
        entries_map(entries.drop_last()).insert(entries.last().0@, entries.last().1@)
    }
}

/// No alias occurs twice in `entries`.
pub open spec fn keys_distinct(entries: Seq<(String, String)>) -> bool {
    forall|i: int, j: int|
        0 <= i < entries.len() && 0 <= j < entries.len() && i != j ==> #[trigger] entries[i].0@
            != #[trigger] entries[j].0@
}

/// What `entries_map` holds, entry by entry.
proof fn lemma_entries_map(entries: Seq<(String, String)>)
    requires
        keys_distinct(entries),
    ensures
        entries_map(entries).dom().finite(),
        entries_map(entries).dom().len() == entries.len(),
        forall|k: Seq<char>|
            #[trigger] entries_map(entries).contains_key(k) <==> exists|i: int|
                0 <= i < entries.len() && entries[i].0@ == k,
        forall|i: int|
            0 <= i < entries.len() ==> #[trigger] entries_map(entries)[entries[i].0@]
                == entries[i].1@,
    decreases entries.len(),
{
    if entries.len() > 0 {
        let init = entries.drop_last();
        assert(keys_distinct(init)) by {
            assert forall|i: int, j: int|
                0 <= i < init.len() && 0 <= j < init.len() && i != j implies #[trigger] init[i].0@
                != #[trigger] init[j].0@ by {
                assert(init[i] == entries[i]);
                assert(init[j] == entries[j]);
            }
        }
        lemma_entries_map(init);
        let last = entries.last();
        assert(!entries_map(init).contains_key(last.0@)) by {
            if entries_map(init).contains_key(last.0@) {
                let i = choose|i: int| 0 <= i < init.len() && init[i].0@ == last.0@;
                assert(entries[i].0@ == entries[entries.len() - 1].0@);
            }
        }
        assert forall|k: Seq<char>|
            #[trigger] entries_map(entries).contains_key(k) implies exists|i: int|
                0 <= i < entries.len() && entries[i].0@ == k by {
            if k == last.0@ {
                assert(entries[entries.len() - 1].0@ == k);
            } else {
                let i = choose|i: int| 0 <= i < init.len() && init[i].0@ == k;
                assert(entries[i] == init[i]);
            }
        }
        assert forall|k: Seq<char>|
            (exists|i: int| 0 <= i < entries.len() && entries[i].0@ == k) implies
            #[trigger] entries_map(entries).contains_key(k) by {
            let i = choose|i: int| 0 <= i < entries.len() && entries[i].0@ == k;
            if i < entries.len() - 1 {
                assert(init[i] == entries[i]);
            }
        }
        assert forall|i: int| 0 <= i < entries.len() implies #[trigger] entries_map(
            entries,
        )[entries[i].0@] == entries[i].1@ by {
            if i < entries.len() - 1 {
                assert(init[i] == entries[i]);
                assert(entries[i].0@ != last.0@);
            }
        }
    }
}

impl Config {
    /// The aliases, as a map from alias to the MAC address it names.
    pub closed spec fn view(&self) -> Map<Seq<char>, Seq<char>> {
        entries_map(self.devices@)
    }

    #[verifier::type_invariant]
    spec fn aliases_distinct(self) -> bool {
        keys_distinct(self.devices@)
    }

    /// A configuration without aliases: only raw MAC addresses can be resolved.
    pub fn new() -> (res: Config)
        ensures
            res.view() == Map::<Seq<char>, Seq<char>>::empty(),
    {
        Config { devices: Vec::new() }
    }

    /// The number of configured aliases.
    pub fn device_count(&self) -> (res: usize)
        ensures
            res == self.view().dom().len(),
    {
        proof {
            use_type_invariant(self);
            lemma_entries_map(self.devices@);
        }
        self.devices.len()
    }

    /// Position of `alias` among the entries, if it is there.
    fn position_of(&self, alias: &String) -> (res: Option<usize>)
        ensures
            match res {
                Some(i) => i < self.devices@.len() && self.devices@[i as int].0@ == alias@,
                None => forall|i: int|
                    0 <= i < self.devices@.len() ==> #[trigger] self.devices@[i].0@ != alias@,
            },
    {
        let mut i: usize = 0;
        while i < self.devices.len()
            invariant
                i <= self.devices@.len(),
                forall|j: int| 0 <= j < i ==> #[trigger] self.devices@[j].0@ != alias@,
            decreases self.devices@.len() - i,
        {
            if self.devices[i].0 == *alias {
                return Some(i);
            }
            i = i + 1;
        }
        None
    }

    /// Names `mac` by `alias`, replacing what the alias named before.
    pub fn insert(&mut self, alias: String, mac: String)
        ensures
            final(self).view() == old(self).view().insert(alias@, mac@),
    {
        proof {
            use_type_invariant(&*self);
            lemma_entries_map(self.devices@);
        }
        let found = self.position_of(&alias);
        let ghost before = self.devices@;
        let mut devices: Vec<(String, String)> = Vec::new();
        std::mem::swap(&mut devices, &mut self.devices);
        match found {
            Some(i) => {
                devices.set(i, (alias, mac));
                proof {
                    assert(keys_distinct(devices@)) by {
                        assert forall|a: int, b: int|
                            0 <= a < devices@.len() && 0 <= b < devices@.len() && a
                                != b implies #[trigger] devices@[a].0@
                            != #[trigger] devices@[b].0@ by {
                            assert(before[a].0@ != before[b].0@);
                        }
                    }
                    lemma_entries_map(devices@);
                    assert(entries_map(devices@) =~= entries_map(before).insert(alias@, mac@)) by {
                        assert forall|k: Seq<char>|
                            #[trigger] entries_map(devices@).contains_key(k) <==> entries_map(
                                before,
                            ).insert(alias@, mac@).contains_key(k) by {
                            if entries_map(devices@).contains_key(k) {
                                let j = choose|j: int|
                                    0 <= j < devices@.len() && devices@[j].0@ == k;
                                if j != i {
                                    assert(before[j] == devices@[j]);
                                }
                            }
                            if entries_map(before).contains_key(k) && k != alias@ {
                                let j = choose|j: int| 0 <= j < before.len() && before[j].0@ == k;
                                assert(before[j] == devices@[j]);
                            }
                            if k == alias@ {
                                assert(devices@[i as int].0@ == k);
                            }
                        }
                        assert forall|k: Seq<char>| #[trigger]
                            entries_map(devices@).contains_key(k) implies entries_map(devices@)[k] == entries_map(
                            before,
                        ).insert(alias@, mac@)[k] by {
                            let j = choose|j: int|
                                0 <= j < devices@.len() && devices@[j].0@ == k;
                            if j != i {
                                assert(before[j] == devices@[j]);
                            }
                        }
                    }
                }
            },
            None => {
                devices.push((alias, mac));
                proof {
                    assert(devices@.drop_last() =~= before);
                    assert(keys_distinct(devices@)) by {
                        assert forall|a: int, b: int|
                            0 <= a < devices@.len() && 0 <= b < devices@.len() && a
                                != b implies #[trigger] devices@[a].0@
                            != #[trigger] devices@[b].0@ by {
                            if a < before.len() && b < before.len() {
                                assert(before[a] == devices@[a]);
                                assert(before[b] == devices@[b]);
                            } else if a < before.len() {
                                assert(before[a] == devices@[a]);
                            } else {
                                assert(before[b] == devices@[b]);
                            }
                        }
                    }
                }
            },
        }
        self.devices = devices;
    }

    /// The MAC address that `alias` names, upper-cased by `str::to_uppercase`.
    fn lookup(&self, alias: &str) -> (res: Option<String>)
        ensures
            match res {
                Some(mac) => self.view().contains_key(alias@) && mac@ == unicode_uppercase(
                    self.view()[alias@],
                ),
                None => !self.view().contains_key(alias@),
            },
    {
        proof {
            use_type_invariant(self);
            lemma_entries_map(self.devices@);
        }
        let key = alias.to_owned();
        match self.position_of(&key) {
            Some(i) => Some(to_uppercase(self.devices[i].1.as_str())),
            None => None,
        }
    }

    /// The MAC address that `device` stands for, in upper case: `device` itself when
    /// it is a MAC address, else the address its alias names; `None` when it is neither.
    pub fn resolve_device(&self, device: &str) -> (res: Option<String>)
        ensures
            match res {
                Some(mac) => resolution(self.view(), device@) == Some(mac@),
                None => resolution(self.view(), device@) is None,
            },
    {
        if is_valid_mac(device) {
            return Some(uppercase_mac(device));
        }
        self.lookup(device)
    }
}

/// Upper-casing a MAC address keeps it a MAC address, and does nothing more the
/// second time.
proof fn lemma_uppercase_mac(mac: Seq<char>)
    requires
        is_mac_address(mac),
    ensures
        is_mac_address(ascii_uppercase(mac)),
        ascii_uppercase(ascii_uppercase(mac)) == ascii_uppercase(mac),
{
    let up = ascii_uppercase(mac);
    assert forall|i: int| 0 <= i < 17 implies if i % 3 == 2 {
        up[i] == ':'
    } else {
        is_hex_digit(#[trigger] up[i])
    } by {
        if i % 3 == 2 {
            assert(mac[i] == ':');
        } else {
            assert(is_hex_digit(mac[i]));
        }
    }
    assert(ascii_uppercase(up) =~= up);
}

/// Resolving is idempotent on MAC addresses: a MAC address resolves to a MAC
/// address, which resolves to itself.
pub proof fn law_resolving_a_mac_is_idempotent(aliases: Map<Seq<char>, Seq<char>>, mac: Seq<char>)
    requires
        is_mac_address(mac),
    ensures
        resolution(aliases, mac) matches Some(resolved) && is_mac_address(resolved) && resolution(
            aliases,
            resolved,
        ) == Some(resolved),
{
    lemma_uppercase_mac(mac);
}

/// Without aliases, exactly the MAC addresses resolve: a missing configuration file
/// still lets raw MAC addresses through.
pub proof fn law_without_aliases_only_macs_resolve(device: Seq<char>)
    ensures
        resolution(Map::empty(), device) is Some <==> is_mac_address(device),
{
}

/// A MAC address stands for itself whatever the aliases say, even an alias spelled
/// like it.
pub proof fn law_macs_resolve_regardless_of_aliases(
    aliases: Map<Seq<char>, Seq<char>>,
    other: Map<Seq<char>, Seq<char>>,
    mac: Seq<char>,
)
    requires
        is_mac_address(mac),
    ensures
        resolution(aliases, mac) == resolution(other, mac),
{
}

/// The aliases of `v` increase strictly from entry to entry.
spec fn aliases_increase(v: Seq<AliasEntry>) -> bool {
    forall|a: int, b: int|
        0 <= a < b < v.len() ==> text_less(#[trigger] v[a].alias@, #[trigger] v[b].alias@)
}

/// Inserts `entry` into `out` where its alias belongs in increasing order.
fn insert_sorted(out: &mut Vec<AliasEntry>, entry: AliasEntry)
    requires
        aliases_increase(old(out)@),
        forall|k: int| 0 <= k < old(out)@.len() ==> (#[trigger] old(out)@[k]).alias@ != entry.alias@,
    ensures
        aliases_increase(final(out)@),
        exists|p: int| 0 <= p <= old(out)@.len() && final(out)@ == old(out)@.insert(p, entry),
{
    let key = chars_of(entry.alias.as_str());
    let mut p: usize = 0;
    while p < out.len() && chars_less(&chars_of(out[p].alias.as_str()), &key)
        invariant
            p <= out@.len(),
            key@ == entry.alias@,
            forall|q: int| 0 <= q < p ==> text_less((#[trigger] out@[q]).alias@, key@),
        decreases out@.len() - p,
    {
        p = p + 1;
    }
    let ghost x = key@;
    let ghost before = out@;
    proof {
        if p < out@.len() {
            lemma_text_less_order(out@[p as int].alias@, x, x);
            assert(text_less(x, out@[p as int].alias@));
            assert forall|q: int| p < q < out@.len() implies text_less(
                x,
                (#[trigger] out@[q]).alias@,
            ) by {
                lemma_text_less_order(x, out@[p as int].alias@, out@[q].alias@);
            }
        }
    }
    out.insert(p, entry);
    proof {
        assert(out@ == before.insert(p as int, entry));
        assert forall|a: int, b: int| 0 <= a < b < out@.len() implies text_less(
            #[trigger] out@[a].alias@,
            #[trigger] out@[b].alias@,
        ) by {
            if a < p && b < p {
                assert(out@[a] == before[a] && out@[b] == before[b]);
            } else if a < p && b == p {
                assert(out@[a] == before[a]);
            } else if a < p {
                assert(out@[a] == before[a] && out@[b] == before[b - 1]);
                lemma_text_less_order(before[a].alias@, x, before[b - 1].alias@);
            } else if a == p {
                assert(out@[b] == before[b - 1]);
            } else {
                assert(out@[a] == before[a - 1] && out@[b] == before[b - 1]);
            }
        }
    }
}

/// `out` lists exactly the entries of `devs`: entry `k` of `out` is entry `pos[k]`
/// of `devs`, and the alias of entry `j` of `devs` is listed at `at[j]`.
spec fn lists_entries(
    out: Seq<AliasEntry>,
    devs: Seq<(String, String)>,
    pos: Seq<int>,
    at: Seq<int>,
) -> bool {
    &&& pos.len() == out.len()
    &&& at.len() == devs.len()
    &&& forall|k: int|
        0 <= k < out.len() ==> 0 <= #[trigger] pos[k] < devs.len() && devs[pos[k]].0@
            == out[k].alias@ && devs[pos[k]].1@ == out[k].mac@
    &&& forall|j: int|
        0 <= j < devs.len() ==> 0 <= #[trigger] at[j] < out.len() && out[at[j]].alias@
            == devs[j].0@
}

/// An alias not among `devs` is not among the entries that list them.
proof fn lemma_new_alias_not_listed(
    out: Seq<AliasEntry>,
    devs: Seq<(String, String)>,
    pos: Seq<int>,
    at: Seq<int>,
    alias: Seq<char>,
)
    requires
        lists_entries(out, devs, pos, at),
        forall|j: int| 0 <= j < devs.len() ==> (#[trigger] devs[j]).0@ != alias,
    ensures
        forall|k: int| 0 <= k < out.len() ==> (#[trigger] out[k]).alias@ != alias,
{
    assert forall|k: int| 0 <= k < out.len() implies (#[trigger] out[k]).alias@ != alias by {
        assert(devs[pos[k]].0@ != alias);
    }
}

/// The position, after an insertion at `p`, of what stood at `q`.
spec fn shifted(q: int, p: int) -> int {
    if q < p {
        q
    } else {
        q + 1
    }
}

/// The positions `at`, after an insertion at `p`.
spec fn shifted_all(at: Seq<int>, p: int) -> Seq<int> {
    Seq::new(at.len(), |j: int| shifted(at[j], p))
}

/// Inserting the entry of one more device keeps the listing exact.
proof fn lemma_listing_grows(
    before: Seq<AliasEntry>,
    devs: Seq<(String, String)>,
    pos: Seq<int>,
    at: Seq<int>,
    dev: (String, String),
    entry: AliasEntry,
    p: int,
)
    requires
        lists_entries(before, devs, pos, at),
        0 <= p <= before.len(),
        entry.alias@ == dev.0@,
        entry.mac@ == dev.1@,
    ensures
        lists_entries(
            before.insert(p, entry),
            devs.push(dev),
            pos.insert(p, devs.len() as int),
            shifted_all(at, p).push(p),
        ),
{
    let out = before.insert(p, entry);
    let all = devs.push(dev);
    let pos2 = pos.insert(p, devs.len() as int);
    let at2 = shifted_all(at, p).push(p);
    assert forall|k: int| 0 <= k < out.len() implies 0 <= #[trigger] pos2[k] < all.len()
        && all[pos2[k]].0@ == out[k].alias@ && all[pos2[k]].1@ == out[k].mac@ by {
        if k < p {
            assert(out[k] == before[k] && pos2[k] == pos[k]);
            assert(all[pos[k]] == devs[pos[k]]);
        } else if k == p {
            assert(out[k] == entry && pos2[k] == devs.len());
        } else {
            assert(out[k] == before[k - 1] && pos2[k] == pos[k - 1]);
            assert(all[pos[k - 1]] == devs[pos[k - 1]]);
        }
    }
    assert forall|j: int| 0 <= j < all.len() implies 0 <= #[trigger] at2[j] < out.len()
        && out[at2[j]].alias@ == all[j].0@ by {
        if j < devs.len() {
            assert(at2[j] == shifted(at[j], p));
            assert(all[j] == devs[j]);
            if at[j] < p {
                assert(out[at[j]] == before[at[j]]);
            } else {
                assert(out[at[j] + 1] == before[at[j]]);
            }
        } else {
            assert(at2[j] == p);
            assert(out[p] == entry);
        }
    }
}

/// A sorted exact listing of the entries is `lists_sorted` of their map.
proof fn lemma_listing_is_sorted_map(
    out: Seq<AliasEntry>,
    devs: Seq<(String, String)>,
    pos: Seq<int>,
    at: Seq<int>,
)
    requires
        lists_entries(out, devs, pos, at),
        aliases_increase(out),
        keys_distinct(devs),
    ensures
        lists_sorted(entry_views(out), entries_map(devs)),
{
    lemma_entries_map(devs);
    let e = entry_views(out);
    let m = entries_map(devs);
    assert forall|a: int| 0 <= a < e.len() implies m.contains_key(#[trigger] e[a].0) && m[e[a].0]
        == e[a].1 by {
        let j = pos[a];
        assert(devs[j].0@ == out[a].alias@);
    }
    assert forall|k: Seq<char>| m.contains_key(k) implies exists|a: int|
        0 <= a < e.len() && #[trigger] e[a].0 == k by {
        let j = choose|j: int| 0 <= j < devs.len() && devs[j].0@ == k;
        let a = at[j];
        assert(e[a].0 == k);
    }
    assert forall|a: int, b: int| 0 <= a < b < e.len() implies text_less(
        #[trigger] e[a].0,
        #[trigger] e[b].0,
    ) by {
        assert(text_less(out[a].alias@, out[b].alias@));
    }
}

impl Config {
    /// Every alias with the address it names, sorted by alias.
    pub fn aliases(&self) -> (res: Vec<AliasEntry>)
        ensures
            lists_sorted(entry_views(res@), self.view()),
    {
        proof {
            use_type_invariant(self);
        }
        let mut out: Vec<AliasEntry> = Vec::new();
        let ghost mut pos: Seq<int> = Seq::empty();
        let ghost mut at: Seq<int> = Seq::empty();
        let mut i: usize = 0;
        assert(self.devices@.take(0) =~= Seq::<(String, String)>::empty());
        while i < self.devices.len()
            invariant
                i <= self.devices@.len(),
                keys_distinct(self.devices@),
                aliases_increase(out@),
                lists_entries(out@, self.devices@.take(i as int), pos, at),
            decreases self.devices@.len() - i,
        {
            let entry = AliasEntry {
                alias: self.devices[i].0.clone(),
                mac: self.devices[i].1.clone(),
            };
            proof {
                let devs = self.devices@.take(i as int);
                assert forall|j: int| 0 <= j < devs.len() implies (#[trigger] devs[j]).0@
                    != entry.alias@ by {
                    assert(devs[j] == self.devices@[j]);
                    assert(self.devices@[j].0@ != self.devices@[i as int].0@);
                }
                lemma_new_alias_not_listed(out@, devs, pos, at, entry.alias@);
            }
            let ghost before = out@;
            insert_sorted(&mut out, entry);
            proof {
                let p = choose|p: int| 0 <= p <= before.len() && out@ == before.insert(p, entry);
                let devs = self.devices@.take(i as int);
                lemma_listing_grows(before, devs, pos, at, self.devices@[i as int], entry, p);
                assert(devs.push(self.devices@[i as int]) =~= self.devices@.take(i + 1));
                pos = pos.insert(p, devs.len() as int);
                at = shifted_all(at, p).push(p);
            }
            i = i + 1;
        }
        proof {
            assert(self.devices@.take(i as int) =~= self.devices@);
            lemma_listing_is_sorted_map(out@, self.devices@, pos, at);
        }
        out
    }
}

/// A MAC address is plain ASCII, seventeen bytes long in UTF-8, and stays a MAC
/// address when its letters are upper-cased or lower-cased.
pub proof fn law_mac_addresses_are_ascii(mac: Seq<char>)
    requires
        is_mac_address(mac),
    ensures
        vstd::utf8::is_ascii_chars(mac),
        vstd::utf8::encode_utf8(mac).len() == 17,
        is_mac_address(ascii_uppercase(mac)),
        is_mac_address(ascii_lowercase(mac)),
{
    assert forall|i: int| 0 <= i < mac.len() implies '\0' <= #[trigger] mac[i] <= '\u{7f}' by {
        if i % 3 == 2 {
            assert(mac[i] == ':');
        } else {
            assert(is_hex_digit(mac[i]));
        }
    }
    vstd::utf8::is_ascii_chars_encode_utf8(mac);
    lemma_uppercase_mac(mac);
    let low = ascii_lowercase(mac);
    assert forall|i: int| 0 <= i < 17 implies if i % 3 == 2 {
        low[i] == ':'
    } else {
        is_hex_digit(#[trigger] low[i])
    } by {
        if i % 3 == 2 {
            assert(mac[i] == ':');
        } else {
            assert(is_hex_digit(mac[i]));
        }
    }
}

} // verus!
