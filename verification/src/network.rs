//! The addresses players can join at, and the warning shown when the server
//! runs inside WSL2 (where detected addresses are not reachable).
use vstd::prelude::*;
use crate::text::{chars_of, contains_chars, contains_text, decimal, lowercase, owned, push_decimal,
    push_str, same_chars, str_lowercase, string_from_chars};

verus! {

/// An IPv4 address, by its four octets.
#[derive(Clone, Copy, Debug, PartialEq, Eq, Structural)]
pub struct Ipv4 {
    pub a: u8,
    pub b: u8,
    pub c: u8,
    pub d: u8,
}

/// The address the server listens on.
#[derive(Clone, Copy, Debug)]
pub enum BindAddress {
    V4(Ipv4),
    V6,
}

/// 127.0.0.0/8 (`Ipv4Addr::is_loopback`).
pub open spec fn is_loopback(x: Ipv4) -> bool {
    x.a == 127
}

/// 0.0.0.0 (`Ipv4Addr::is_unspecified`).
pub open spec fn is_unspecified(x: Ipv4) -> bool {
    x.a == 0 && x.b == 0 && x.c == 0 && x.d == 0
}

/// 10.0.0.0/8, 172.16.0.0/12 and 192.168.0.0/16 (`Ipv4Addr::is_private`).
pub open spec fn is_private(x: Ipv4) -> bool {
    x.a == 10 || (x.a == 172 && 16 <= x.b <= 31) || (x.a == 192 && x.b == 168)
}

/// `x` orders before `y` as `Ipv4Addr` orders them (octet by octet).
pub open spec fn address_lt(x: Ipv4, y: Ipv4) -> bool {
    x.a < y.a || (x.a == y.a && (x.b < y.b || (x.b == y.b && (x.c < y.c || (x.c == y.c && x.d
        < y.d)))))
}

/// Candidate `x` (at position `xi`) is listed before `y` (at `yi`): private
/// addresses first, then by address, then in the order given.
pub open spec fn listed_before(x: Ipv4, xi: int, y: Ipv4, yi: int) -> bool {
    (is_private(x) && !is_private(y)) || (is_private(x) == is_private(y) && (address_lt(x, y) || (
    x == y && xi < yi)))
}

/// `o` lists every position of `cs` once, in listing order.
pub open spec fn is_listing(cs: Seq<Ipv4>, o: Seq<int>) -> bool {
    &&& o.len() == cs.len()
    &&& forall|k: int| 0 <= k < o.len() ==> 0 <= #[trigger] o[k] < cs.len()
    &&& forall|k1: int, k2: int| 0 <= k1 < k2 < o.len() ==> o[k1] != o[k2]
    &&& forall|i: int| 0 <= i < cs.len() ==> #[trigger] o.contains(i)
    &&& forall|k1: int, k2: int|
        0 <= k1 < k2 < o.len() ==> listed_before(cs[o[k1]], #[trigger] o[k1], cs[o[k2]], #[trigger] o[k2])
}

proof fn lemma_listing_prefix(cs: Seq<Ipv4>, o1: Seq<int>, o2: Seq<int>, k: int)
    requires
        is_listing(cs, o1),
        is_listing(cs, o2),
        0 <= k <= o1.len(),
    ensures
        forall|j: int| 0 <= j < k ==> o1[j] == o2[j],
    decreases k,
{
    if k > 0 {
        lemma_listing_prefix(cs, o1, o2, k - 1);
        let x = o1[k - 1];
        let y = o2[k - 1];
        if x != y {
            assert(0 <= y < cs.len());
            assert(o1.contains(y));
            let p = choose|p: int| 0 <= p < o1.len() && o1[p] == y;
            if p < k - 1 {
                assert(o2[p] == y);
            }
            assert(listed_before(cs[x], x, cs[y], y));
            assert(0 <= x < cs.len());
            assert(o2.contains(x));
            let q = choose|q: int| 0 <= q < o2.len() && o2[q] == x;
            if q < k - 1 {
                assert(o1[q] == x);
            }
            assert(listed_before(cs[y], y, cs[x], x));
        }
    }
}

/// A list of candidates has only one listing order.
pub proof fn lemma_listing_unique(cs: Seq<Ipv4>, o1: Seq<int>, o2: Seq<int>)
    requires
        is_listing(cs, o1),
        is_listing(cs, o2),
    ensures
        o1 == o2,
{
    lemma_listing_prefix(cs, o1, o2, o1.len() as int);
    assert(o1 =~= o2);
}

/// The listing order of `cs`.
pub open spec fn listing(cs: Seq<Ipv4>) -> Seq<int> {
    choose|o: Seq<int>| is_listing(cs, o)
}

/// The interface addresses worth offering: all but loopback ones.
pub open spec fn non_loopback(s: Seq<Ipv4>) -> Seq<Ipv4>
    decreases s.len(),
{
    if s.len() == 0 {
        seq![]
    } else if is_loopback(s.last()) {
        non_loopback(s.drop_last())
    } else {
        non_loopback(s.drop_last()).push(s.last())
    }
}

/// The addresses to offer: an explicit IPv4 bind address itself (loopback
/// included), otherwise the interfaces' non-loopback IPv4 addresses.
pub open spec fn candidates(bind: BindAddress, interfaces: Seq<Ipv4>) -> Seq<Ipv4> {
    match bind {
        BindAddress::V4(x) => if is_loopback(x) || !is_unspecified(x) {
            seq![x]
        } else {
            non_loopback(interfaces)
        },
        BindAddress::V6 => non_loopback(interfaces),
    }
}

/// Whether the interface addresses matter for this bind address.
pub open spec fn scans_interfaces(bind: BindAddress) -> bool {
    match bind {
        BindAddress::V4(x) => !is_loopback(x) && is_unspecified(x),
        BindAddress::V6 => true,
    }
}

/// `http://a.b.c.d:port`.
pub open spec fn url_for(x: Ipv4, port: u16) -> Seq<char> {
    "http://"@ + decimal(x.a as nat) + "."@ + decimal(x.b as nat) + "."@ + decimal(x.c as nat)
        + "."@ + decimal(x.d as nat) + ":"@ + decimal(port as nat)
}

/// `s` without trailing slashes (`trim_end_matches('/')`).
pub open spec fn strip_slashes(s: Seq<char>) -> Seq<char>
    decreases s.len(),
{
    if s.len() > 0 && s.last() == '/' {
        strip_slashes(s.drop_last())
    } else {
        s
    }
}

/// `urls` followed by each of `more` not already listed, in order.
pub open spec fn add_new(urls: Seq<Seq<char>>, more: Seq<Seq<char>>) -> Seq<Seq<char>>
    decreases more.len(),
{
    if more.len() == 0 {
        urls
    } else {
        let u = add_new(urls, more.drop_last());
        if u.contains(more.last()) {
            u
        } else {
            u.push(more.last())
        }
    }
}

/// The join addresses: the configured public URL first (without trailing
/// slashes), then the URL of each candidate address in listing order,
/// skipping repeats; `http://127.0.0.1:port` when that leaves none.
pub open spec fn join_urls_spec(
    bind: BindAddress,
    port: u16,
    public_url: Option<Seq<char>>,
    interfaces: Seq<Ipv4>,
) -> Seq<Seq<char>> {
    let base: Seq<Seq<char>> = match public_url {
        Some(u) => seq![strip_slashes(u)],
        None => seq![],
    };
    let cs = candidates(bind, interfaces);
    let o = listing(cs);
    let urls = add_new(base, Seq::new(o.len(), |k: int| url_for(cs[o[k]], port)));
    if urls.len() == 0 {
        seq![url_for(Ipv4 { a: 127, b: 0, c: 0, d: 1 }, port)]
    } else {
        urls
    }
}

fn loopback(x: Ipv4) -> (r: bool)
    ensures
        r == is_loopback(x),
{
    x.a == 127
}

fn private(x: Ipv4) -> (r: bool)
    ensures
        r == is_private(x),
{
    x.a == 10 || (x.a == 172 && 16 <= x.b && x.b <= 31) || (x.a == 192 && x.b == 168)
}

fn listed_ahead(cs: &Vec<Ipv4>, i: usize, j: usize) -> (r: bool)
    requires
        i < cs@.len(),
        j < cs@.len(),
    ensures
        r == listed_before(cs@[i as int], i as int, cs@[j as int], j as int),
{
    let x = cs[i];
    let y = cs[j];
    let px = private(x);
    let py = private(y);
    if px != py {
        return px;
    }
    if x.a != y.a {
        return x.a < y.a;
    }
    if x.b != y.b {
        return x.b < y.b;
    }
    if x.c != y.c {
        return x.c < y.c;
    }
    if x.d != y.d {
        return x.d < y.d;
    }
    i < j
}

spec fn placed(o: Seq<usize>, x: int) -> bool {
    exists|k: int| 0 <= k < o.len() && #[trigger] o[k] as int == x
}

fn listing_order(cs: &Vec<Ipv4>) -> (o: Vec<usize>)
    ensures
        is_listing(cs@, o@.map_values(|x: usize| x as int)),
{
    let ghost s = cs@;
    let n = cs.len();
    let mut o: Vec<usize> = Vec::new();
    let mut i: usize = 0;
    while i < n
        invariant
            i <= n,
            n == s.len(),
            s == cs@,
            o@.len() == i,
            forall|k: int| 0 <= k < o@.len() ==> (#[trigger] o@[k]) < i,
            forall|k1: int, k2: int| 0 <= k1 < k2 < o@.len() ==> o@[k1] != o@[k2],
            forall|x: int| 0 <= x < i ==> #[trigger] placed(o@, x),
            forall|k1: int, k2: int|
                0 <= k1 < k2 < o@.len() ==> listed_before(
                    s[o@[k1] as int],
                    #[trigger] o@[k1] as int,
                    s[o@[k2] as int],
                    #[trigger] o@[k2] as int,
                ),
        decreases n - i,
    {
        let mut p: usize = 0;
        while p < o.len() && !listed_ahead(cs, i, o[p])
            invariant
                i < n,
                n == s.len(),
                s == cs@,
                o@.len() == i,
                p <= o@.len(),
                forall|k: int| 0 <= k < o@.len() ==> (#[trigger] o@[k]) < i,
                forall|k: int| 0 <= k < p ==> !listed_before(s[i as int], i as int, s[o@[k] as int], #[trigger] o@[k] as int),
            decreases o@.len() - p,
        {
            p = p + 1;
        }
        let ghost old_o = o@;
        o.insert(p, i);
        proof {
            assert forall|k1: int, k2: int| 0 <= k1 < k2 < o@.len() implies listed_before(
                s[o@[k1] as int],
                #[trigger] o@[k1] as int,
                s[o@[k2] as int],
                #[trigger] o@[k2] as int,
            ) by {
                if k2 < p {
                    assert(o@[k1] == old_o[k1] && o@[k2] == old_o[k2]);
                } else if k2 == p {
                    assert(o@[k1] == old_o[k1]);
                    assert(!listed_before(s[i as int], i as int, s[old_o[k1] as int], old_o[k1] as int));
                } else if k1 < p {
                    assert(o@[k1] == old_o[k1] && o@[k2] == old_o[k2 - 1]);
                } else if k1 == p {
                    assert(o@[k2] == old_o[k2 - 1]);
                    assert(listed_before(s[i as int], i as int, s[old_o[p as int] as int], old_o[p as int] as int));
                    if k2 - 1 > p {
                        assert(listed_before(s[old_o[p as int] as int], old_o[p as int] as int, s[old_o[k2 - 1] as int], old_o[k2 - 1] as int));
                    }
                } else {
                    assert(o@[k1] == old_o[k1 - 1] && o@[k2] == old_o[k2 - 1]);
                }
            }
            assert forall|x: int| 0 <= x < i + 1 implies #[trigger] placed(o@, x) by {
                if x == i {
                    assert(o@[p as int] as int == x);
                } else {
                    assert(placed(old_o, x));
                    let k = choose|k: int| 0 <= k < old_o.len() && #[trigger] old_o[k] as int == x;
                    if k < p {
                        assert(o@[k] as int == x);
                    } else {
                        assert(o@[k + 1] as int == x);
                    }
                }
            }
            assert forall|k1: int, k2: int| 0 <= k1 < k2 < o@.len() implies o@[k1] != o@[k2] by {
                if k1 != p && k2 != p {
                    let a = if k1 < p { k1 } else { k1 - 1 };
                    let b = if k2 < p { k2 } else { k2 - 1 };
                    assert(o@[k1] == old_o[a] && o@[k2] == old_o[b]);
                } else if k1 == p {
                    assert(o@[k2] == old_o[k2 - 1]);
                } else {
                    assert(o@[k1] == old_o[k1]);
                }
            }
        }
        i = i + 1;
    }
    proof {
        let q = o@.map_values(|x: usize| x as int);
        assert forall|k: int| 0 <= k < q.len() implies 0 <= #[trigger] q[k] < s.len() by {
            assert(o@[k] < n);
        }
        assert forall|x: int| 0 <= x < s.len() implies #[trigger] q.contains(x) by {
            assert(placed(o@, x));
            let k = choose|k: int| 0 <= k < o@.len() && #[trigger] o@[k] as int == x;
            assert(q[k] == x);
        }
        assert forall|k1: int, k2: int| 0 <= k1 < k2 < q.len() implies q[k1] != q[k2] by {
            assert(o@[k1] != o@[k2]);
        }
        assert forall|k1: int, k2: int| 0 <= k1 < k2 < q.len() implies listed_before(
            s[q[k1]],
            #[trigger] q[k1],
            s[q[k2]],
            #[trigger] q[k2],
        ) by {
            assert(listed_before(s[o@[k1] as int], o@[k1] as int, s[o@[k2] as int], o@[k2] as int));
        }
    }
    o
}

fn url_of(x: Ipv4, port: u16) -> (r: String)
    ensures
        r@ == url_for(x, port),
{
    let mut out: Vec<char> = Vec::new();
    push_str(&mut out, "http://");
    push_decimal(&mut out, x.a as u64);
    push_str(&mut out, ".");
    push_decimal(&mut out, x.b as u64);
    push_str(&mut out, ".");
    push_decimal(&mut out, x.c as u64);
    push_str(&mut out, ".");
    push_decimal(&mut out, x.d as u64);
    push_str(&mut out, ":");
    push_decimal(&mut out, port as u64);
    assert(out@ =~= url_for(x, port));
    string_from_chars(&out)
}

fn strip_trailing_slashes(s: &str) -> (r: String)
    ensures
        r@ == strip_slashes(s@),
{
    let v = chars_of(s);
    let mut j: usize = v.len();
    assert(v@.subrange(0, j as int) =~= v@);
    while j > 0 && v[j - 1] == '/'
        invariant
            j <= v@.len(),
            strip_slashes(v@) == strip_slashes(v@.subrange(0, j as int)),
        decreases j,
    {
        assert(v@.subrange(0, j as int).drop_last() =~= v@.subrange(0, j - 1));
        j = j - 1;
    }
    let mut out: Vec<char> = Vec::new();
    let mut k: usize = 0;
    while k < j
        invariant
            k <= j <= v@.len(),
            out@ == v@.subrange(0, k as int),
        decreases j - k,
    {
        out.push(v[k]);
        assert(out@ =~= v@.subrange(0, k + 1));
        k = k + 1;
    }
    string_from_chars(&out)
}

fn contains_url(urls: &Vec<String>, url: &String) -> (r: bool)
    ensures
        r == urls.deep_view().contains(url@),
{
    let target = chars_of(url.as_str());
    let mut i: usize = 0;
    while i < urls.len()
        invariant
            i <= urls@.len(),
            target@ == url@,
            forall|k: int| 0 <= k < i ==> urls.deep_view()[k] != url@,
        decreases urls@.len() - i,
    {
        let cand = chars_of(urls[i].as_str());
        if same_chars(&cand, &target) {
            assert(urls.deep_view()[i as int] == url@);
            return true;
        }
        i = i + 1;
    }
    false
}

fn candidate_addresses(bind: BindAddress, interfaces: &Vec<Ipv4>) -> (r: Vec<Ipv4>)
    ensures
        r@ == candidates(bind, interfaces@),
{
    match bind {
        BindAddress::V4(x) => {
            if loopback(x) || !(x.a == 0 && x.b == 0 && x.c == 0 && x.d == 0) {
                let mut r: Vec<Ipv4> = Vec::new();
                r.push(x);
                assert(r@ =~= seq![x]);
                return r;
            }
        },
        BindAddress::V6 => {},
    }
    let mut r: Vec<Ipv4> = Vec::new();
    let mut i: usize = 0;
    while i < interfaces.len()
        invariant
            i <= interfaces@.len(),
            r@ == non_loopback(interfaces@.take(i as int)),
        decreases interfaces@.len() - i,
    {
        assert(interfaces@.take(i + 1).drop_last() =~= interfaces@.take(i as int));
        if !loopback(interfaces[i]) {
            r.push(interfaces[i]);
        }
        i = i + 1;
    }
    assert(interfaces@.take(interfaces@.len() as int) =~= interfaces@);
    r
}

/// Whether the machine's interface addresses are needed for this bind
/// address: only when it is unspecified (`0.0.0.0`) or IPv6.
pub fn needs_interfaces(bind: BindAddress) -> (r: bool)
    ensures
        r == scans_interfaces(bind),
{
    match bind {
        BindAddress::V4(x) => !loopback(x) && x.a == 0 && x.b == 0 && x.c == 0 && x.d == 0,
        BindAddress::V6 => true,
    }
}

/// The addresses players can join at, given the bind address, its port,
/// the configured public URL, and the machine's IPv4 interface addresses
/// (consulted only when the bind address is unspecified or IPv6).
pub fn detect_join_urls(
    bind: BindAddress,
    port: u16,
    public_url: Option<&str>,
    interfaces: &Vec<Ipv4>,
) -> (r: Vec<String>)
    ensures
        r.deep_view() == join_urls_spec(bind, port, public_url.deep_view(), interfaces@),
{
    let mut urls: Vec<String> = Vec::new();
    match public_url {
        Some(u) => {
            urls.push(strip_trailing_slashes(u));
        },
        None => {},
    }
    let ghost base = urls.deep_view();
    assert(base =~= (match public_url.deep_view() {
        Some(u) => seq![strip_slashes(u)],
        None => Seq::<Seq<char>>::empty(),
    }));
    let cs = candidate_addresses(bind, interfaces);
    let o = listing_order(&cs);
    let ghost oi = o@.map_values(|x: usize| x as int);
    proof {
        lemma_listing_unique(cs@, oi, listing(cs@));
    }
    let ghost more = Seq::new(oi.len(), |k: int| url_for(cs@[oi[k]], port));
    let mut k: usize = 0;
    while k < o.len()
        invariant
            k <= o@.len(),
            oi == o@.map_values(|x: usize| x as int),
            is_listing(cs@, oi),
            more == Seq::new(oi.len(), |k: int| url_for(cs@[oi[k]], port)),
            urls.deep_view() == add_new(base, more.take(k as int)),
        decreases o@.len() - k,
    {
        assert(oi[k as int] == o@[k as int] as int);
        let url = url_of(cs[o[k]], port);
        assert(more.take(k + 1).drop_last() =~= more.take(k as int));
        assert(more.take(k + 1).last() == url@);
        if !contains_url(&urls, &url) {
            urls.push(url);
        }
        assert(urls.deep_view() =~= add_new(base, more.take(k + 1)));
        k = k + 1;
    }
    assert(more.take(o@.len() as int) =~= more);
    if urls.len() == 0 {
        urls.push(url_of(Ipv4 { a: 127, b: 0, c: 0, d: 1 }, port));
        assert(urls.deep_view() =~= seq![url_for(Ipv4 { a: 127, b: 0, c: 0, d: 1 }, port)]);
    }
    urls
}

// ---------------------------------------------------------------------------
// WSL2
// ---------------------------------------------------------------------------

/// The kernel version text names Microsoft or WSL (in any case).
pub open spec fn wsl2_version(contents: Seq<char>) -> bool {
    contains_text(str_lowercase(contents), "microsoft"@) || contains_text(
        str_lowercase(contents),
        "wsl"@,
    )
}

/// Whether a kernel version text (`/proc/version`) is that of WSL2.
pub fn is_wsl2_version_string(contents: &str) -> (r: bool)
    ensures
        r == wsl2_version(contents@),
{
    let lower = chars_of(lowercase(contents).as_str());
    let microsoft = chars_of("microsoft");
    let wsl = chars_of("wsl");
    contains_chars(&lower, &microsoft) || contains_chars(&lower, &wsl)
}

/// The warning shown when the detected addresses are WSL2-internal.
pub open spec fn wsl2_warning_text() -> Seq<char> {
    "This server is running inside WSL2. The auto-detected address(es) above are WSL2-internal and are usually unreachable from phones on your Wi-Fi. In Windows PowerShell, run `ipconfig` to find your real Wi-Fi/Ethernet adapter IPv4 address, then either restart Hoot with HOOT_PUBLIC_URL=http://<that-ip>:8080, or enable WSL2 'mirrored' networking mode (Windows 11 22H2+: add networkingMode=mirrored under [wsl2] in .wslconfig). You may also need a Windows Firewall inbound rule for this port."@
}

/// The network warning to show: only when no public URL is configured and
/// the kernel version (if it could be read) is that of WSL2.
pub fn wsl2_network_warning(public_url: Option<&str>, proc_version: Option<&str>) -> (r: Option<String>)
    ensures
        r.deep_view() == (if public_url is None && (proc_version matches Some(v) && wsl2_version(v@)) {
            Some(wsl2_warning_text())
        } else {
            None
        }),
{
    if public_url.is_some() {
        return None;
    }
    let wsl = match proc_version {
        Some(v) => is_wsl2_version_string(v),
        None => false,
    };
    if !wsl {
        return None;
    }
    Some(owned("This server is running inside WSL2. The auto-detected address(es) above are WSL2-internal and are usually unreachable from phones on your Wi-Fi. In Windows PowerShell, run `ipconfig` to find your real Wi-Fi/Ethernet adapter IPv4 address, then either restart Hoot with HOOT_PUBLIC_URL=http://<that-ip>:8080, or enable WSL2 'mirrored' networking mode (Windows 11 22H2+: add networkingMode=mirrored under [wsl2] in .wslconfig). You may also need a Windows Firewall inbound rule for this port."))
}

} // verus!
