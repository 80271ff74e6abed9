//! The pure parts of the host form and the host list: which port the form saves, which text
//! fields count as set, the `sftp://` location of a host and the alias of a duplicated host.
use vstd::prelude::*;
use vstd::string::StringExecFns;

use crate::host::{self, decimal_string};
use crate::model::SshHost;
use crate::text::{same_text, string_of};

verus! {

/// The port the form saves: an unchanged selection keeps the loaded port, explicit or
/// inherited, since removing an explicit `Port 22` could expose a later `Port`/`Include`; any actual
/// change, to 22 as well, is saved explicitly.
pub fn edited_port(loaded: Option<u16>, selected: u16) -> (p: Option<u16>)
    ensures
        p == if selected == (match loaded {
            Some(o) => o,
            None => 22,
        }) {
            loaded
        } else {
            Some(selected)
        },
{
    let current = match loaded {
        Some(o) => o,
        None => 22,
    };
    if selected == current {
        loaded
    } else {
        Some(selected)
    }
}

/// A text field's value: `None` when empty.
pub fn non_empty(text: String) -> (r: Option<String>)
    ensures
        r == if text@.len() == 0 {
            None
        } else {
            Some(text)
        },
{
    if text.as_str().is_empty() {
        None
    } else {
        Some(text)
    }
}

pub open spec fn sftp_prefix() -> Seq<char> {
    seq!['s', 'f', 't', 'p', ':', '/', '/']
}

/// `sftp://[user@]host[:port]/`, the host being `HostName` or else the alias.
pub open spec fn sftp_location(h: SshHost) -> Seq<char> {
    sftp_prefix() + (match h.user {
        Some(u) => u@ + seq!['@'],
        None => Seq::<char>::empty(),
    }) + (match h.host_name {
        Some(n) => n@,
        None => h.alias@,
    }) + (match h.port {
        Some(p) => seq![':'] + host::decimal(p as nat),
        None => Seq::<char>::empty(),
    }) + seq!['/']
}

/// The `sftp://` location of a host, for the file manager.
pub fn sftp_uri(host: &SshHost) -> (s: String)
    ensures
        s@ == sftp_location(*host),
{
    let prefix = vec!['s', 'f', 't', 'p', ':', '/', '/'];
    let mut s = string_of(&prefix);
    let ghost s0 = s@;
    match &host.user {
        Some(u) => {
            s.append(u.as_str());
            let at = vec!['@'];
            s.append(string_of(&at).as_str());
        },
        None => {},
    }
    let ghost s1 = s@;
    match &host.host_name {
        Some(n) => s.append(n.as_str()),
        None => s.append(host.alias.as_str()),
    }
    let ghost s2 = s@;
    match host.port {
        Some(p) => {
            let colon = vec![':'];
            s.append(string_of(&colon).as_str());
            s.append(decimal_string(p as u64).as_str());
        },
        None => {},
    }
    let slash = vec!['/'];
    s.append(string_of(&slash).as_str());
    s
}

pub open spec fn copy_suffix() -> Seq<char> {
    seq!['-', 'c', 'o', 'p', 'i', 'a']
}

/// The `n`-th alias tried for a duplicate of `base`: `base-copia`, then `base-copia-2`, ...
pub open spec fn copy_candidate(base: Seq<char>, n: nat) -> Seq<char> {
    if n <= 1 {
        base + copy_suffix()
    } else {
        base + copy_suffix() + seq!['-'] + host::decimal(n)
    }
}

proof fn lemma_copy_candidate_injective(base: Seq<char>, j1: nat, j2: nat)
    requires
        1 <= j1,
        1 <= j2,
        copy_candidate(base, j1) == copy_candidate(base, j2),
    ensures
        j1 == j2,
{
    host::lemma_decimal_digits(j1);
    host::lemma_decimal_digits(j2);
    let p = base + copy_suffix() + seq!['-'];
    if j1 >= 2 && j2 >= 2 {
        assert(copy_candidate(base, j1).skip(p.len() as int) == host::decimal(j1));
        assert(copy_candidate(base, j2).skip(p.len() as int) == host::decimal(j2));
    } else if j1 >= 2 || j2 >= 2 {
        assert(copy_candidate(base, j1).len() != copy_candidate(base, j2).len());
    }
}

fn candidate(base: &str, n: u64) -> (s: String)
    requires
        n >= 1,
    ensures
        s@ == copy_candidate(base@, n as nat),
{
    let suffix = vec!['-', 'c', 'o', 'p', 'i', 'a'];
    let mut s = String::from_str(base);
    s.append(string_of(&suffix).as_str());
    if n >= 2 {
        let dash = vec!['-'];
        s.append(string_of(&dash).as_str());
        s.append(decimal_string(n).as_str());
    }
    s
}

fn taken(existing: &[String], candidate: &String) -> (b: bool)
    ensures
        b == existing@.map_values(|e: String| e@).contains(candidate@),
{
    let ghost ev = existing@.map_values(|e: String| e@);
    let mut i: usize = 0;
    while i < existing.len()
        invariant
            i <= existing@.len(),
            ev == existing@.map_values(|e: String| e@),
            forall|k: int| 0 <= k < i ==> ev[k] != candidate@,
        decreases existing.len() - i,
    {
        if existing[i] == *candidate {
            assert(ev[i as int] == candidate@);
            return true;
        }
        i += 1;
    }
    false
}

/// The alias of a duplicated host: the first of `base-copia`, `base-copia-2`, `base-copia-3`,
/// ... that no existing alias takes.
pub fn unique_alias(base: &str, existing: &[String]) -> (r: String)
    requires
        existing@.len() < u64::MAX,
    ensures
        exists|k: nat|
            #![trigger copy_candidate(base@, k)]
            k >= 1 && r@ == copy_candidate(base@, k) && !existing@.map_values(|e: String| e@).contains(r@)
                && forall|j: nat| 1 <= j < k ==> existing@.map_values(|e: String| e@).contains(
                #[trigger] copy_candidate(base@, j),
            ),
{
    let ghost ev = existing@.map_values(|e: String| e@);
    let first = candidate(base, 1);
    if !taken(existing, &first) {
        assert(forall|j: nat| 1 <= j < 1 ==> ev.contains(#[trigger] copy_candidate(base@, j)));
        return first;
    }
    let ghost mut seen: Set<Seq<char>> = set![copy_candidate(base@, 1)];
    proof {
        ev.lemma_cardinality_of_set();
        vstd::set_lib::lemma_len_subset(seen, ev.to_set());
        assert(seen.len() == 1) by {
            assert(seen == Set::<Seq<char>>::empty().insert(copy_candidate(base@, 1)));
        }
    }
    let mut n: u64 = 2;
    loop
        invariant
            ev == existing@.map_values(|e: String| e@),
            existing@.len() < u64::MAX,
            2 <= n,
            n <= existing@.len() + 1,
            seen.finite(),
            seen.len() == n - 1,
            seen.subset_of(ev.to_set()),
            forall|x: Seq<char>| #[trigger] seen.contains(x) ==> exists|j: nat| 1 <= j < n && x == copy_candidate(base@, j),
            forall|j: nat| 1 <= j < n ==> ev.contains(#[trigger] copy_candidate(base@, j)),
        decreases existing@.len() + 2 - n,
    {
        let c = candidate(base, n);
        if !taken(existing, &c) {
            return c;
        }
        proof {
            assert(!seen.contains(c@)) by {
                if seen.contains(c@) {
                    let j = choose|j: nat| 1 <= j < n && c@ == copy_candidate(base@, j);
                    lemma_copy_candidate_injective(base@, j, n as nat);
                }
            }
            let s2 = seen.insert(c@);
            assert(s2.len() == seen.len() + 1);
            ev.lemma_cardinality_of_set();
            vstd::set_lib::lemma_len_subset(s2, ev.to_set());
            assert forall|x: Seq<char>| #[trigger] s2.contains(x) implies exists|j: nat| 1 <= j < n + 1 && x == copy_candidate(base@, j) by {
                if x == c@ {
                    assert(copy_candidate(base@, n as nat) == x);
                } else {
                    let j = choose|j: nat| 1 <= j < n && x == copy_candidate(base@, j);
                    assert(1 <= j < n + 1 && x == copy_candidate(base@, j));
                }
            }
            seen = s2;
        }
        n += 1;
    }
}

/// The aliases of the editable hosts, in order.
pub open spec fn editable_aliases(hosts: Seq<SshHost>) -> Seq<Seq<char>>
    decreases hosts.len(),
{
    if hosts.len() == 0 {
        seq![]
    } else {
        let r = editable_aliases(hosts.drop_last());
        if hosts.last().read_only {
            r
        } else {
            r.push(hosts.last().alias@)
        }
    }
}

/// The aliases of the hosts that are not read-only.
pub fn known_aliases(hosts: &[SshHost]) -> (r: Vec<String>)
    ensures
        r@.map_values(|a: String| a@) == editable_aliases(hosts@),
{
    let mut r: Vec<String> = Vec::new();
    let mut i: usize = 0;
    while i < hosts.len()
        invariant
            i <= hosts@.len(),
            r@.map_values(|a: String| a@) == editable_aliases(hosts@.take(i as int)),
        decreases hosts.len() - i,
    {
        assert(hosts@.take(i + 1).drop_last() == hosts@.take(i as int));
        let ghost before = r@;
        if !hosts[i].read_only {
            r.push(hosts[i].alias.clone());
            assert(r@.map_values(|a: String| a@) == before.map_values(|a: String| a@).push(hosts@[i as int].alias@));
        }
        i += 1;
    }
    assert(hosts@.take(i as int) == hosts@);
    r
}

pub open spec fn non_empty_view(t: Seq<char>) -> Option<Seq<char>> {
    if t.len() == 0 {
        None
    } else {
        Some(t)
    }
}

/// The host the form saves: `base` with every field taken from the form, empty text fields
/// unset and the port as `edited_port` decides.
pub fn edited_host(
    base: &SshHost,
    alias: String,
    host_name: String,
    user: String,
    selected_port: u16,
    proxy_jump: String,
    identity_file: String,
    extra: String,
) -> (h: SshHost)
    ensures
        h.alias@ == alias@,
        host::opt_view(h.host_name) == non_empty_view(host_name@),
        host::opt_view(h.user) == non_empty_view(user@),
        h.port == (if selected_port == (match base.port {
            Some(o) => o,
            None => 22,
        }) {
            base.port
        } else {
            Some(selected_port)
        }),
        host::opt_view(h.proxy_jump) == non_empty_view(proxy_jump@),
        host::opt_view(h.identity_file) == non_empty_view(identity_file@),
        h.extra@ == extra@,
        h.read_only == base.read_only,
{
    SshHost {
        alias,
        host_name: non_empty(host_name),
        user: non_empty(user),
        port: edited_port(base.port, selected_port),
        identity_file: non_empty(identity_file),
        proxy_jump: non_empty(proxy_jump),
        extra,
        read_only: base.read_only,
    }
}

/// Where the group picker starts: the position of the host's group among the options, or the
/// first option ("no group") when it has none or it is not listed.
pub fn group_index(options: &[String], group: Option<&str>) -> (i: usize)
    ensures
        match group {
            None => i == 0,
            Some(g) => if exists|j: int| 0 <= j < options@.len() && (#[trigger] options@[j])@ == g@ {
                &&& i < options@.len()
                &&& options@[i as int]@ == g@
                &&& forall|j: int| 0 <= j < i ==> (#[trigger] options@[j])@ != g@
            } else {
                i == 0
            },
        },
{
    match group {
        None => 0,
        Some(g) => {
            let mut j: usize = 0;
            while j < options.len()
                invariant
                    group == Some(g),
                    j <= options@.len(),
                    forall|k: int| 0 <= k < j ==> (#[trigger] options@[k])@ != g@,
                decreases options.len() - j,
            {
                if same_text(options[j].as_str(), g) {
                    return j;
                }
                j += 1;
            }
            0
        },
    }
}

/// The group the form saves: none for the first option, the typed name (if any) for the last
/// ("new group"), else the option picked.
pub fn chosen_group(selected: usize, new_group_index: usize, new_group: String, options: &[String]) -> (g: Option<String>)
    ensures
        host::opt_view(g) == if selected == 0 {
            None
        } else if selected == new_group_index {
            non_empty_view(new_group@)
        } else if selected < options@.len() {
            Some(options@[selected as int]@)
        } else {
            None
        },
{
    if selected == 0 {
        None
    } else if selected == new_group_index {
        non_empty(new_group)
    } else if selected < options.len() {
        Some(options[selected].clone())
    } else {
        None
    }
}


/// The host a location names: `HostName` when set, else the alias.
pub open spec fn target_of(h: SshHost) -> Seq<char> {
    match h.host_name {
        Some(n) => n@,
        None => h.alias@,
    }
}

/// The location of a host with a user starts `sftp://`, the user and `@`, whatever the port;
/// without a user, the host follows `sftp://` directly.
pub proof fn law_sftp_user_part(h: SshHost)
    ensures
        sftp_location(h).take(7) == seq!['s', 'f', 't', 'p', ':', '/', '/'],
        match h.user {
            Some(u) => sftp_location(h).subrange(7, 7int + u@.len() + 1) == u@ + seq!['@']
                && sftp_location(h).subrange(7int + u@.len() + 1, 7int + u@.len() + 1 + target_of(h).len())
                == target_of(h),
            None => sftp_location(h).subrange(7, 7int + target_of(h).len()) == target_of(h),
        },
{
    let l = sftp_location(h);
    let up = match h.user {
        Some(u) => u@ + seq!['@'],
        None => Seq::<char>::empty(),
    };
    let pp = match h.port {
        Some(p) => seq![':'] + host::decimal(p as nat),
        None => Seq::<char>::empty(),
    };
    assert(l == sftp_prefix() + up + target_of(h) + pp + seq!['/']);
    assert(l.take(7) =~= sftp_prefix());
    assert(l.subrange(7, 7int + up.len()) =~= up);
    assert(l.subrange(7int + up.len(), 7int + up.len() + target_of(h).len()) =~= target_of(h));
}

/// The location ends in `/`; with a port, in `:`, the port in decimal and `/`; without one, in
/// the host and `/`, adding nothing for the port.
pub proof fn law_sftp_port_part(h: SshHost)
    ensures
        sftp_location(h).len() > 0,
        sftp_location(h).last() == '/',
        match h.port {
            Some(p) => {
                let tail = seq![':'] + host::decimal(p as nat) + seq!['/'];
                &&& tail.len() <= sftp_location(h).len()
                &&& sftp_location(h).skip(sftp_location(h).len() - tail.len()) == tail
            },
            None => {
                let tail = target_of(h) + seq!['/'];
                &&& tail.len() <= sftp_location(h).len()
                &&& sftp_location(h).skip(sftp_location(h).len() - tail.len()) == tail
            },
        },
{
    let l = sftp_location(h);
    let up = match h.user {
        Some(u) => u@ + seq!['@'],
        None => Seq::<char>::empty(),
    };
    let head = sftp_prefix() + up;
    match h.port {
        Some(p) => {
            let tail = seq![':'] + host::decimal(p as nat) + seq!['/'];
            assert(l =~= head + target_of(h) + tail);
            assert(l.skip(l.len() - tail.len()) =~= tail);
        },
        None => {
            let tail = target_of(h) + seq!['/'];
            assert(l =~= head + tail);
            assert(l.skip(l.len() - tail.len()) =~= tail);
        },
    }
}

/// The aliases offered as taken are those of the hosts that are not read-only, in list order,
/// whatever else the hosts hold.
pub proof fn law_editable_aliases_are_the_writable_hosts(hosts: Seq<SshHost>)
    ensures
        editable_aliases(hosts) == hosts.filter(|h: SshHost| !h.read_only).map_values(|h: SshHost| h.alias@),
    decreases hosts.len(),
{
    reveal(Seq::filter);
    if hosts.len() > 0 {
        law_editable_aliases_are_the_writable_hosts(hosts.drop_last());
        let f = hosts.drop_last().filter(|h: SshHost| !h.read_only);
        if !hosts.last().read_only {
            assert(f.push(hosts.last()).map_values(|h: SshHost| h.alias@) =~= f.map_values(|h: SshHost| h.alias@).push(
                hosts.last().alias@,
            ));
        }
    }
}

/// Two host lists that agree on which hosts are read-only and on their aliases offer the same
/// taken aliases: no other field counts.
pub proof fn law_editable_aliases_ignore_other_fields(a: Seq<SshHost>, b: Seq<SshHost>)
    requires
        a.len() == b.len(),
        forall|i: int| 0 <= i < a.len() ==> #[trigger] a[i].read_only == b[i].read_only && a[i].alias@ == b[i].alias@,
    ensures
        editable_aliases(a) == editable_aliases(b),
    decreases a.len(),
{
    if a.len() > 0 {
        law_editable_aliases_ignore_other_fields(a.drop_last(), b.drop_last());
        assert(a.last().read_only == b.last().read_only && a.last().alias@ == b.last().alias@) by {
            assert(a[a.len() - 1].read_only == b[a.len() - 1].read_only);
        }
    }
}


/// The location holds nothing but `sftp://`, the user and `@` when there is a user, the host,
/// `:` and the port when there is a port, and the closing `/`.
pub proof fn law_sftp_length(h: SshHost)
    ensures
        sftp_location(h).len() == 7 + (match h.user {
            Some(u) => u@.len() + 1,
            None => 0,
        }) + target_of(h).len() + (match h.port {
            Some(p) => host::decimal(p as nat).len() + 1,
            None => 0,
        }) + 1,
{
}

} // verus!
