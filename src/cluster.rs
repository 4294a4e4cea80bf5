//! Cluster topology: which service instance owns which contiguous range of
//! the fixed slot space, derived deterministically from the member addresses.
use vstd::prelude::*;
use vstd::relations::{sorted_by, total_ordering};
use vstd::seq_lib::lemma_sorted_unique;
use vstd::string::*;
use vstd::utf8::encode_utf8;
use crate::encoding::push_bytes;
use crate::frame::{decimal, parse_u64, parse_u64_spec, push_decimal, Frame};

verus! {

/// Number of slots in the key space.
pub const SLOT_COUNT: usize = 16384;

// ---------------------------------------------------------------------
// Ordering of addresses
// ---------------------------------------------------------------------

/// Lexicographic order on addresses, by character code.
pub open spec fn addr_le(a: Seq<char>, b: Seq<char>) -> bool
    decreases a.len(),
{
    if a.len() == 0 {
        true
    } else if b.len() == 0 {
        false
    } else if a[0] == b[0] {
        addr_le(a.drop_first(), b.drop_first())
    } else {
        a[0] < b[0]
    }
}

pub open spec fn addr_order() -> spec_fn(Seq<char>, Seq<char>) -> bool {
    |a: Seq<char>, b: Seq<char>| addr_le(a, b)
}

proof fn lemma_addr_le_refl(a: Seq<char>)
    ensures
        addr_le(a, a),
    decreases a.len(),
{
    if a.len() > 0 {
        lemma_addr_le_refl(a.drop_first());
    }
}

proof fn lemma_addr_le_antisym(a: Seq<char>, b: Seq<char>)
    requires
        addr_le(a, b),
        addr_le(b, a),
    ensures
        a == b,
    decreases a.len(),
{
    if a.len() == 0 {
        assert(a =~= b);
    } else {
        assert(a[0] == b[0]);
        lemma_addr_le_antisym(a.drop_first(), b.drop_first());
        assert(a =~= b) by {
            assert forall|i: int| 0 <= i < a.len() implies a[i] == b[i] by {
                if i > 0 {
                    assert(a[i] == a.drop_first()[i - 1]);
                    assert(b[i] == b.drop_first()[i - 1]);
                }
            }
        }
    }
}

proof fn lemma_addr_le_trans(a: Seq<char>, b: Seq<char>, c: Seq<char>)
    requires
        addr_le(a, b),
        addr_le(b, c),
    ensures
        addr_le(a, c),
    decreases a.len(),
{
    if a.len() > 0 && a[0] == b[0] && b[0] == c[0] {
        lemma_addr_le_trans(a.drop_first(), b.drop_first(), c.drop_first());
    }
}

proof fn lemma_addr_le_total(a: Seq<char>, b: Seq<char>)
    ensures
        addr_le(a, b) || addr_le(b, a),
    decreases a.len(),
{
    if a.len() > 0 && b.len() > 0 && a[0] == b[0] {
        lemma_addr_le_total(a.drop_first(), b.drop_first());
    }
}

/// The address order is a total order.
pub proof fn lemma_addr_order_total()
    ensures
        total_ordering(addr_order()),
{
    assert forall|a: Seq<char>| #[trigger] addr_order()(a, a) by {
        lemma_addr_le_refl(a);
    }
    assert forall|a: Seq<char>, b: Seq<char>|
        #[trigger] addr_order()(a, b) && #[trigger] addr_order()(b, a) implies a == b by {
        lemma_addr_le_antisym(a, b);
    }
    assert forall|a: Seq<char>, b: Seq<char>, c: Seq<char>|
        #[trigger] addr_order()(a, b) && #[trigger] addr_order()(b, c) implies addr_order()(
        a,
        c,
    ) by {
        lemma_addr_le_trans(a, b, c);
    }
    assert forall|a: Seq<char>, b: Seq<char>|
        #[trigger] addr_order()(a, b) || #[trigger] addr_order()(b, a) by {
        lemma_addr_le_total(a, b);
    }
}

pub open spec fn addr_views(s: Seq<String>) -> Seq<Seq<char>> {
    s.map_values(|x: String| x@)
}

/// The addresses in the order that the topology lists them.
pub open spec fn sorted_addrs(addrs: Seq<Seq<char>>) -> Seq<Seq<char>> {
    addrs.sort_by(addr_order())
}

/// Whether `a` is ordered no later than `b`.
fn addr_le_exec(a: &str, b: &str) -> (r: bool)
    ensures
        r == addr_le(a@, b@),
{
    let la = a.unicode_len();
    let lb = b.unicode_len();
    let mut i: usize = 0;
    assert(a@.subrange(0, la as int) =~= a@);
    assert(b@.subrange(0, lb as int) =~= b@);
    while i < la && i < lb
        invariant
            la == a@.len(),
            lb == b@.len(),
            i <= la,
            i <= lb,
            addr_le(a@, b@) == addr_le(
                a@.subrange(i as int, la as int),
                b@.subrange(i as int, lb as int),
            ),
        decreases la - i,
    {
        let ca = a.get_char(i);
        let cb = b.get_char(i);
        assert(a@.subrange(i as int, la as int)[0] == ca);
        assert(b@.subrange(i as int, lb as int)[0] == cb);
        if ca != cb {
            return ca < cb;
        }
        assert(a@.subrange(i as int, la as int).drop_first() =~= a@.subrange(i + 1, la as int));
        assert(b@.subrange(i as int, lb as int).drop_first() =~= b@.subrange(i + 1, lb as int));
        i = i + 1;
    }
    i == la
}

/// Whether two addresses are the same.
fn addr_eq(a: &str, b: &str) -> (r: bool)
    ensures
        r == (a@ == b@),
{
    proof {
        lemma_addr_le_refl(a@);
        if addr_le(a@, b@) && addr_le(b@, a@) {
            lemma_addr_le_antisym(a@, b@);
        }
    }
    addr_le_exec(a, b) && addr_le_exec(b, a)
}

/// The addresses, sorted.
fn sort_addrs(addrs: &[String]) -> (r: Vec<String>)
    ensures
        addr_views(r@) == sorted_addrs(addr_views(addrs@)),
{
    broadcast use vstd::seq_lib::group_to_multiset_ensures;

    proof {
        lemma_addr_order_total();
    }
    let mut r: Vec<String> = Vec::new();
    let mut k: usize = 0;
    while k < addrs.len()
        invariant
            k <= addrs@.len(),
            total_ordering(addr_order()),
            sorted_by(addr_views(r@), addr_order()),
            addr_views(r@).to_multiset() == addr_views(addrs@.subrange(0, k as int)).to_multiset(),
        decreases addrs@.len() - k,
    {
        let x = addrs[k].clone();
        let mut p: usize = 0;
        loop
            invariant
                k < addrs@.len(),
                p <= r@.len(),
                x@ == addrs@[k as int]@,
                forall|j: int| 0 <= j < p ==> addr_le(#[trigger] r@[j]@, x@),
            ensures
                p <= r@.len(),
                p == r@.len() || !addr_le(r@[p as int]@, x@),
                forall|j: int| 0 <= j < p ==> addr_le(#[trigger] r@[j]@, x@),
            decreases r@.len() - p,
        {
            if p >= r.len() {
                break;
            }
            if !addr_le_exec(r[p].as_str(), x.as_str()) {
                break;
            }
            p = p + 1;
        }
        let ghost old_r = addr_views(r@);
        let ghost pre = r@;
        proof {
            if p < r@.len() {
                lemma_addr_le_total(r@[p as int]@, x@);
            }
        }
        r.insert(p, x);
        proof {
            let xv = addrs@[k as int]@;
            assert(addr_views(r@) =~= old_r.insert(p as int, xv));
            assert forall|m: int| 0 <= m < p implies addr_le(#[trigger] old_r[m], xv) by {
                assert(old_r[m] == pre[m]@);
            }
            assert forall|m: int| p <= m < old_r.len() implies addr_le(xv, #[trigger] old_r[m]) by {
                assert(old_r[p as int] == pre[p as int]@);
                if m > p {
                    assert(addr_order()(old_r[p as int], old_r[m]));
                    lemma_addr_le_trans(xv, old_r[p as int], old_r[m]);
                }
            }
            assert forall|i: int, j: int|
                0 <= i < j < addr_views(r@).len() implies #[trigger] addr_order()(
                addr_views(r@)[i],
                addr_views(r@)[j],
            ) by {
                let s = addr_views(r@);
                if j < p {
                    assert(addr_order()(old_r[i], old_r[j]));
                } else if j == p {
                    assert(s[i] == old_r[i]);
                } else if i == p {
                    assert(s[j] == old_r[j - 1]);
                } else if i < p {
                    assert(s[i] == old_r[i]);
                    assert(s[j] == old_r[j - 1]);
                    lemma_addr_le_trans(old_r[i], xv, old_r[j - 1]);
                } else {
                    assert(s[i] == old_r[i - 1]);
                    assert(s[j] == old_r[j - 1]);
                    assert(addr_order()(old_r[i - 1], old_r[j - 1]));
                }
            }
            vstd::seq_lib::to_multiset_insert(old_r, p as int, xv);
            assert(addr_views(addrs@.subrange(0, k + 1)) =~= addr_views(
                addrs@.subrange(0, k as int),
            ).push(xv));
            vstd::seq_lib::to_multiset_build(addr_views(addrs@.subrange(0, k as int)), xv);
        }
        k = k + 1;
    }
    proof {
        let v = addr_views(addrs@);
        assert(addrs@.subrange(0, addrs@.len() as int) =~= addrs@);
        v.lemma_sort_by_ensures(addr_order());
        lemma_sorted_unique(addr_views(r@), v.sort_by(addr_order()), addr_order());
    }
    r
}

/// Putting the same addresses in any order yields the same sorted list.
pub proof fn lemma_sorted_addrs_order_independent(a: Seq<Seq<char>>, b: Seq<Seq<char>>)
    requires
        a.to_multiset() == b.to_multiset(),
    ensures
        sorted_addrs(a) == sorted_addrs(b),
{
    lemma_addr_order_total();
    a.lemma_sort_by_ensures(addr_order());
    b.lemma_sort_by_ensures(addr_order());
    lemma_sorted_unique(a.sort_by(addr_order()), b.sort_by(addr_order()), addr_order());
}

/// Rebuilding from the same member addresses, given in any order, yields
/// the same node table: the same identifiers, addresses and slot ranges.
pub proof fn lemma_rebuild_order_independent(a: Seq<Seq<char>>, b: Seq<Seq<char>>, my: Seq<char>)
    requires
        a.to_multiset() == b.to_multiset(),
    ensures
        cluster_model(a, my) == cluster_model(b, my),
{
    lemma_sorted_addrs_order_independent(a, b);
    vstd::seq_lib::to_multiset_len(a);
    vstd::seq_lib::to_multiset_len(b);
    assert(cluster_model(a, my) =~= cluster_model(b, my));
}

// ---------------------------------------------------------------------
// Slot ranges
// ---------------------------------------------------------------------

pub open spec fn slot_start_of(i: int, n: int) -> int {
    i * (SLOT_COUNT as int / n)
}

/// The last node absorbs the remainder of the division.
pub open spec fn slot_end_of(i: int, n: int) -> int {
    if i == n - 1 {
        SLOT_COUNT as int - 1
    } else {
        (i + 1) * (SLOT_COUNT as int / n) - 1
    }
}

/// Whether some node of `n` owns slot `s`.
pub open spec fn slot_owned(s: int, n: int) -> bool {
    exists|i: int| 0 <= i < n && #[trigger] slot_start_of(i, n) <= s <= slot_end_of(i, n)
}

/// The ranges of `n` nodes are non-empty, contiguous, non-overlapping, and
/// together cover every slot.
pub proof fn lemma_slot_ranges_partition(n: int)
    requires
        1 <= n <= SLOT_COUNT,
    ensures
        slot_start_of(0, n) == 0,
        slot_end_of(n - 1, n) == SLOT_COUNT - 1,
        forall|i: int| 0 <= i < n ==> slot_start_of(i, n) <= #[trigger] slot_end_of(i, n),
        forall|i: int|
            0 <= i < n - 1 ==> #[trigger] slot_start_of(i + 1, n) == slot_end_of(i, n) + 1,
        forall|i: int, j: int|
            0 <= i < j < n ==> #[trigger] slot_end_of(i, n) < #[trigger] slot_start_of(j, n),
        forall|s: int| 0 <= s < SLOT_COUNT ==> #[trigger] slot_owned(s, n),
{
    let w = SLOT_COUNT as int / n;
    assert(w >= 1 && n * w <= SLOT_COUNT) by (nonlinear_arith)
        requires
            1 <= n <= SLOT_COUNT,
            w == SLOT_COUNT as int / n,
    ;
    assert forall|i: int| 0 <= i < n implies slot_start_of(i, n) <= #[trigger] slot_end_of(
        i,
        n,
    ) by {
        assert(i * w <= (n - 1) * w && (n - 1) * w <= n * w - w && i * w <= (i + 1) * w - 1)
            by (nonlinear_arith)
            requires
                0 <= i < n,
                w >= 1,
        ;
    }
    assert forall|i: int, j: int| 0 <= i < j < n implies #[trigger] slot_end_of(i, n)
        < #[trigger] slot_start_of(j, n) by {
        assert((i + 1) * w <= j * w) by (nonlinear_arith)
            requires
                0 <= i < j,
                w >= 1,
        ;
    }
    assert forall|s: int| 0 <= s < SLOT_COUNT implies #[trigger] slot_owned(s, n) by {
        let q = s / w;
        let i = if q >= n {
            n - 1
        } else {
            q
        };
        assert(q * w <= s && s < (q + 1) * w) by (nonlinear_arith)
            requires
                0 <= s,
                w >= 1,
                q == s / w,
        ;
        assert(i * w <= q * w) by (nonlinear_arith)
            requires
                0 <= i <= q,
                w >= 1,
        ;
        assert(slot_start_of(i, n) <= s <= slot_end_of(i, n));
        assert(0 <= i < n);
    }
}

// ---------------------------------------------------------------------
// Addresses
// ---------------------------------------------------------------------

/// Index of the first ':' at or after `from`, or the length.
pub open spec fn colon_from(a: Seq<char>, from: int) -> int
    decreases a.len() - from,
{
    if from < 0 || from >= a.len() {
        a.len() as int
    } else if a[from] == ':' {
        from
    } else {
        colon_from(a, from + 1)
    }
}

pub open spec fn addr_host(a: Seq<char>) -> Seq<char> {
    a.subrange(0, colon_from(a, 0))
}

/// The part between the first ':' and the next one (or the end).
pub open spec fn addr_port_text(a: Seq<char>) -> Seq<char> {
    a.subrange(colon_from(a, 0) + 1, colon_from(a, colon_from(a, 0) + 1))
}

/// An address is `host:port`, with a decimal `u64` port.
pub open spec fn valid_addr(a: Seq<char>) -> bool {
    &&& colon_from(a, 0) < a.len()
    &&& parse_u64_spec(encode_utf8(addr_port_text(a))) is Some
}

pub open spec fn addr_port(a: Seq<char>) -> u64 {
    parse_u64_spec(encode_utf8(addr_port_text(a))).unwrap()
}

proof fn lemma_colon_from_bounds(a: Seq<char>, from: int)
    requires
        0 <= from <= a.len(),
    ensures
        from <= colon_from(a, from) <= a.len(),
    decreases a.len() - from,
{
    if from < a.len() && a[from] != ':' {
        lemma_colon_from_bounds(a, from + 1);
    }
}

fn find_colon(a: &str, from: usize) -> (r: usize)
    requires
        from <= a@.len(),
    ensures
        r == colon_from(a@, from as int),
{
    let n = a.unicode_len();
    let mut i: usize = from;
    while i < n
        invariant
            n == a@.len(),
            from <= i <= n,
            colon_from(a@, from as int) == colon_from(a@, i as int),
        decreases n - i,
    {
        if a.get_char(i) == ':' {
            return i;
        }
        i = i + 1;
    }
    i
}

/// Whether `addr` is a well-formed `host:port` address.
pub fn valid_address(addr: &str) -> (r: bool)
    ensures
        r == valid_addr(addr@),
{
    let n = addr.unicode_len();
    let c = find_colon(addr, 0);
    if c >= n {
        return false;
    }
    let e = find_colon(addr, c + 1);
    proof {
        lemma_colon_from_bounds(addr@, c + 1);
    }
    let port_text = addr.substring_char(c + 1, e);
    match parse_u64(port_text.as_bytes()) {
        Some(_) => true,
        None => false,
    }
}

// ---------------------------------------------------------------------
// Node identifiers
// ---------------------------------------------------------------------

/// The SHA-1 digest of a byte string.
pub uninterp spec fn sha1_digest_of(data: Seq<u8>) -> Seq<u8>;

/// Relies on sha1::Sha1, through digest::Digest::digest: the SHA-1 digest
/// of the input, which is 20 bytes long.
#[verifier::external_body]
fn sha1_digest(data: &[u8]) -> (r: Vec<u8>)
    ensures
        r@ == sha1_digest_of(data@),
        r@.len() == 20,
{
    <sha1::Sha1 as sha1::Digest>::digest(data).to_vec()
}

pub open spec fn hex_char(d: int) -> char {
    seq!['0', '1', '2', '3', '4', '5', '6', '7', '8', '9', 'a', 'b', 'c', 'd', 'e', 'f'][d]
}

/// Two lower-case hex digits per byte, high half first.
pub open spec fn hex_lower(b: Seq<u8>) -> Seq<char> {
    Seq::new(
        2 * b.len(),
        |i: int|
            if i % 2 == 0 {
                hex_char((b[i / 2] / 16) as int)
            } else {
                hex_char((b[i / 2] % 16) as int)
            },
    )
}

/// Relies on hex::encode: two lower-case hex digits for each byte, the
/// high half first.
#[verifier::external_body]
fn hex_encode(data: &[u8]) -> (r: String)
    ensures
        r@ == hex_lower(data@),
{
    hex::encode(data)
}

/// A node's identifier: the hex SHA-1 digest of its address, so that it is
/// the same across restarts.
pub open spec fn node_id_of(addr: Seq<char>) -> Seq<char> {
    hex_lower(sha1_digest_of(encode_utf8(addr)))
}

// ---------------------------------------------------------------------
// Nodes
// ---------------------------------------------------------------------

/// What a node is, as a value.
pub struct NodeView {
    pub addr: Seq<char>,
    pub id: Seq<char>,
    pub ip: Seq<char>,
    pub port: u64,
    pub slot_start: int,
    pub slot_end: int,
    pub role: Seq<char>,
    pub flags: Option<Seq<char>>,
}

#[derive(Debug, Clone)]
pub struct Node {
    addr: String,
    id: String,
    ip: String,
    port: u64,
    slot_start: usize,
    slot_end: usize,
    role: String,
    flags: Option<String>,
}

impl View for Node {
    type V = NodeView;

    closed spec fn view(&self) -> NodeView {
        NodeView {
            addr: self.addr@,
            id: self.id@,
            ip: self.ip@,
            port: self.port,
            slot_start: self.slot_start as int,
            slot_end: self.slot_end as int,
            role: self.role@,
            flags: match self.flags {
                Some(f) => Some(f@),
                None => None,
            },
        }
    }
}

/// The node that the address at place `i` of `n` sorted addresses becomes.
pub open spec fn node_model(addr: Seq<char>, i: int, n: int, my: Seq<char>) -> NodeView {
    NodeView {
        addr: addr,
        id: node_id_of(addr),
        ip: addr_host(addr),
        port: addr_port(addr),
        slot_start: slot_start_of(i, n),
        slot_end: slot_end_of(i, n),
        role: "master"@,
        flags: if addr == my {
            Some("myself"@)
        } else {
            None
        },
    }
}

/// The node table built from a set of member addresses.
pub open spec fn cluster_model(addrs: Seq<Seq<char>>, my: Seq<char>) -> Seq<NodeView> {
    Seq::new(
        addrs.len(),
        |i: int| node_model(sorted_addrs(addrs)[i], i, addrs.len() as int, my),
    )
}

pub open spec fn all_valid(addrs: Seq<Seq<char>>) -> bool {
    forall|i: int| 0 <= i < addrs.len() ==> valid_addr(#[trigger] addrs[i])
}

impl Node {
    pub fn id(&self) -> (r: &str)
        ensures
            r@ == self@.id,
    {
        self.id.as_str()
    }

    pub fn ip(&self) -> (r: &str)
        ensures
            r@ == self@.ip,
    {
        self.ip.as_str()
    }

    pub fn port(&self) -> (r: u64)
        ensures
            r == self@.port,
    {
        self.port
    }

    pub fn slot_start(&self) -> (r: usize)
        ensures
            r == self@.slot_start,
    {
        self.slot_start
    }

    pub fn slot_end(&self) -> (r: usize)
        ensures
            r == self@.slot_end,
    {
        self.slot_end
    }

    pub fn is_myself(&self) -> (r: bool)
        ensures
            r == self@.flags is Some,
    {
        self.flags.is_some()
    }

    fn push_head(&self, out: &mut Vec<u8>)
        ensures
            final(out)@ == old(out)@ + line_head(self@),
    {
        push_str(out, self.id.as_str());
        push_str(out, " ");
        push_str(out, self.ip.as_str());
        push_str(out, ":");
        push_decimal(out, self.port);
        push_str(out, "@0 ");
        assert(final(out)@ =~= old(out)@ + line_head(self@));
    }

    fn push_flags(&self, out: &mut Vec<u8>)
        ensures
            final(out)@ == old(out)@ + flag_and_role(self@),
    {
        match &self.flags {
            Some(f) => {
                push_str(out, f.as_str());
                push_str(out, ",");
                push_str(out, self.role.as_str());
                assert(final(out)@ =~= old(out)@ + flag_and_role(self@));
            },
            None => {
                push_str(out, self.role.as_str());
            },
        }
    }

    fn push_tail(&self, out: &mut Vec<u8>)
        ensures
            final(out)@ == old(out)@ + line_tail(self@),
    {
        push_str(out, " - 0 0 0 connected ");
        push_decimal(out, self.slot_start as u64);
        push_str(out, "-");
        push_decimal(out, self.slot_end as u64);
        assert(final(out)@ =~= old(out)@ + line_tail(self@));
    }

    /// Appends this node's line of the node listing, with its CRLF.
    fn push_line(&self, out: &mut Vec<u8>)
        ensures
            final(out)@ == old(out)@ + node_line(self@) + crlf(),
    {
        self.push_head(out);
        self.push_flags(out);
        self.push_tail(out);
        push_str(out, "\r\n");
        assert(final(out)@ =~= old(out)@ + node_line(self@) + crlf());
    }

    /// A copy of this node.
    pub fn duplicate(&self) -> (r: Node)
        ensures
            r@ == self@,
    {
        let flags = match &self.flags {
            Some(f) => Some(f.clone()),
            None => None,
        };
        Node {
            addr: self.addr.clone(),
            id: self.id.clone(),
            ip: self.ip.clone(),
            port: self.port,
            slot_start: self.slot_start,
            slot_end: self.slot_end,
            role: self.role.clone(),
            flags,
        }
    }

    /// The node for `addr`, at place `i` of `n`.
    fn build(addr: &String, i: usize, n: usize, my_addr: &str) -> (r: Node)
        requires
            valid_addr(addr@),
            i < n <= SLOT_COUNT,
        ensures
            r@ == node_model(addr@, i as int, n as int, my_addr@),
    {
        let a = addr.as_str();
        let len = a.unicode_len();
        let c = find_colon(a, 0);
        let e = find_colon(a, c + 1);
        proof {
            lemma_colon_from_bounds(a@, c + 1);
        }
        let ip = a.substring_char(0, c).to_owned();
        let port = parse_u64(a.substring_char(c + 1, e).as_bytes()).unwrap();
        let id = hex_encode(sha1_digest(a.as_bytes()).as_slice());
        let w = SLOT_COUNT / n;
        assert(w >= 1 && n * w <= SLOT_COUNT && (i + 1) * w <= n * w && i * w <= (i + 1) * w
            && (i + 1) * w >= 1)
            by (nonlinear_arith)
            requires
                1 <= n <= SLOT_COUNT,
                i < n,
                w == SLOT_COUNT as int / n as int,
        ;
        let slot_start = i * w;
        let slot_end = if i == n - 1 {
            SLOT_COUNT - 1
        } else {
            (i + 1) * w - 1
        };
        let flags = if addr_eq(a, my_addr) {
            Some("myself".to_owned())
        } else {
            None
        };
        let r = Node { addr: addr.clone(), id, ip, port, slot_start, slot_end, role: "master".to_owned(), flags };
        assert(r@.flags == node_model(addr@, i as int, n as int, my_addr@).flags);
        r
    }
}

// ---------------------------------------------------------------------
// Topology
// ---------------------------------------------------------------------

/// The node table. A whole table is replaced at once by `update_topo`.
#[derive(Debug, Clone)]
pub struct Cluster {
    nodes: Vec<Node>,
}

impl View for Cluster {
    type V = Seq<NodeView>;

    closed spec fn view(&self) -> Seq<NodeView> {
        self.nodes@.map_values(|n: Node| n@)
    }
}

pub open spec fn crlf() -> Seq<u8> {
    "\r\n".spec_bytes()
}

/// "flags,role" where the node has flags, else "role".
pub open spec fn flag_and_role(n: NodeView) -> Seq<u8> {
    match n.flags {
        Some(f) => encode_utf8(f) + ",".spec_bytes() + encode_utf8(n.role),
        None => encode_utf8(n.role),
    }
}

/// The part of a node line before its flags: "id ip:port@0 ".
pub open spec fn line_head(n: NodeView) -> Seq<u8> {
    encode_utf8(n.id) + " ".spec_bytes() + encode_utf8(n.ip) + ":".spec_bytes() + decimal(
        n.port as nat,
    ) + "@0 ".spec_bytes()
}

/// The part of a node line after its role: " - 0 0 0 connected start-end".
pub open spec fn line_tail(n: NodeView) -> Seq<u8> {
    " - 0 0 0 connected ".spec_bytes() + decimal(n.slot_start as nat) + "-".spec_bytes() + decimal(
        n.slot_end as nat,
    )
}

/// One line of the node listing.
pub open spec fn node_line(n: NodeView) -> Seq<u8> {
    line_head(n) + flag_and_role(n) + line_tail(n)
}

/// The node lines, each ended by CRLF.
pub open spec fn node_lines(s: Seq<NodeView>) -> Seq<u8>
    decreases s.len(),
{
    if s.len() == 0 {
        Seq::empty()
    } else {
        node_lines(s.drop_last()) + node_line(s.last()) + crlf()
    }
}

/// The node listing: the lines joined by CRLF, with a final CRLF.
pub open spec fn nodes_text(s: Seq<NodeView>) -> Seq<u8> {
    if s.len() == 0 {
        crlf()
    } else {
        node_lines(s)
    }
}

/// The summary report for `n` known nodes.
pub open spec fn info_text(n: nat) -> Seq<u8> {
    "cluster_state:ok\r\ncluster_slots_assigned:16384\r\ncluster_slots_ok:16384\r\ncluster_slots_pfail:0\r\ncluster_slots_fail:0\r\ncluster_known_nodes:".spec_bytes()
        + decimal(n) + "\r\ncluster_size:".spec_bytes() + decimal(n)
        + "\r\ncluster_current_epoch:1\r\ncluster_my_epoch:1\r\n".spec_bytes()
}

/// One entry of the slot table: [start, end, [ip, port, id]].
pub open spec fn slot_entry_ok(f: Frame, n: NodeView) -> bool {
    &&& f is Array
    &&& f->Array_0@.len() == 3
    &&& f->Array_0@[0] == Frame::Integer(n.slot_start as i64)
    &&& f->Array_0@[1] == Frame::Integer(n.slot_end as i64)
    &&& f->Array_0@[2] is Array
    &&& f->Array_0@[2]->Array_0@.len() == 3
    &&& f->Array_0@[2]->Array_0@[0] is Bulk
    &&& f->Array_0@[2]->Array_0@[0]->Bulk_0@ == encode_utf8(n.ip)
    &&& f->Array_0@[2]->Array_0@[1] == Frame::Integer(n.port as i64)
    &&& f->Array_0@[2]->Array_0@[2] is Bulk
    &&& f->Array_0@[2]->Array_0@[2]->Bulk_0@ == encode_utf8(n.id)
}

/// Appends the UTF-8 bytes of `s`.
fn push_str(out: &mut Vec<u8>, s: &str)
    ensures
        final(out)@ == old(out)@ + s.spec_bytes(),
{
    push_bytes(out, s.as_bytes());
}

fn string_bytes_of(s: &String) -> (r: Vec<u8>)
    ensures
        r@ == encode_utf8(s@),
{
    let mut r: Vec<u8> = Vec::new();
    push_str(&mut r, s.as_str());
    assert(r@ =~= encode_utf8(s@));
    r
}

impl Cluster {
    pub fn new(nodes: &[Node]) -> (r: Cluster)
        ensures
            r@ == nodes@.map_values(|n: Node| n@),
    {
        let mut v: Vec<Node> = Vec::new();
        let mut i: usize = 0;
        while i < nodes.len()
            invariant
                i <= nodes@.len(),
                v@.len() == i,
                forall|j: int| 0 <= j < i ==> (#[trigger] v@[j])@ == nodes@[j]@,
            decreases nodes@.len() - i,
        {
            let n = nodes[i].duplicate();
            v.push(n);
            i = i + 1;
        }
        assert(v@.map_values(|n: Node| n@) =~= nodes@.map_values(|n: Node| n@));
        Cluster { nodes: v }
    }

    /// The nodes, in slot order.
    pub fn nodes(&self) -> (r: &[Node])
        ensures
            r@.map_values(|n: Node| n@) == self@,
    {
        self.nodes.as_slice()
    }

    /// The topology of a single instance at `addr`.
    pub fn build_myself(addr: &str) -> (r: Self)
        requires
            valid_addr(addr@),
        ensures
            r@ == cluster_model(seq![addr@], addr@),
    {
        let addrs = vec![addr.to_owned()];
        assert(addr_views(addrs@) =~= seq![addr@]);
        Self::build_from_meta(addrs.as_slice(), addr)
    }

    fn build_nodes_from_addrs(addrs: &[String], my_addr: &str) -> (r: Vec<Node>)
        requires
            1 <= addrs@.len() <= SLOT_COUNT,
            all_valid(addr_views(addrs@)),
        ensures
            r@.map_values(|n: Node| n@) == cluster_model(addr_views(addrs@), my_addr@),
    {
        let sorted = sort_addrs(addrs);
        let ghost views = addr_views(addrs@);
        proof {
            broadcast use vstd::seq_lib::group_to_multiset_ensures;

            lemma_addr_order_total();
            views.lemma_sort_by_ensures(addr_order());
            vstd::seq_lib::to_multiset_len(views);
            vstd::seq_lib::to_multiset_len(views.sort_by(addr_order()));
            assert(addr_views(sorted@).len() == views.len());
            assert forall|i: int| 0 <= i < sorted@.len() implies valid_addr(
                #[trigger] sorted@[i]@,
            ) by {
                assert(addr_views(sorted@)[i] == sorted@[i]@);
                assert(addr_views(sorted@).contains(sorted@[i]@));
                assert(views.contains(sorted@[i]@));
                let j = choose|j: int| 0 <= j < views.len() && views[j] == sorted@[i]@;
                assert(valid_addr(views[j]));
            }
        }
        let n = sorted.len();
        let mut nodes: Vec<Node> = Vec::new();
        let mut i: usize = 0;
        while i < n
            invariant
                n == sorted@.len(),
                n == addrs@.len(),
                n <= SLOT_COUNT,
                i <= n,
                addr_views(sorted@) == sorted_addrs(views),
                views == addr_views(addrs@),
                forall|j: int| 0 <= j < n ==> valid_addr(#[trigger] sorted@[j]@),
                nodes@.len() == i,
                forall|j: int|
                    0 <= j < i ==> (#[trigger] nodes@[j])@ == cluster_model(views, my_addr@)[j],
            decreases n - i,
        {
            let node = Node::build(&sorted[i], i, n, my_addr);
            nodes.push(node);
            i = i + 1;
            proof {
                assert(addr_views(sorted@)[i - 1] == sorted@[i - 1]@);
            }
        }
        assert(nodes@.map_values(|x: Node| x@) =~= cluster_model(views, my_addr@));
        nodes
    }

    fn build_from_meta(addrs: &[String], my_addr: &str) -> (r: Self)
        requires
            1 <= addrs@.len() <= SLOT_COUNT,
            all_valid(addr_views(addrs@)),
        ensures
            r@ == cluster_model(addr_views(addrs@), my_addr@),
    {
        let nodes = Self::build_nodes_from_addrs(addrs, my_addr);
        Cluster { nodes }
    }

    /// Replaces the whole table with the one built from `addrs`.
    pub fn update_topo(&mut self, addrs: &[String], my_addr: &str)
        requires
            1 <= addrs@.len() <= SLOT_COUNT,
            all_valid(addr_views(addrs@)),
        ensures
            final(self)@ == cluster_model(addr_views(addrs@), my_addr@),
    {
        let nodes = Self::build_nodes_from_addrs(addrs, my_addr);
        self.nodes = nodes;
    }

    /// Whether `addrs`, as a set, differs from the addresses of the nodes.
    pub fn cluster_member_changed(&self, addrs: &[String]) -> (r: bool)
        ensures
            r == (sorted_addrs(addr_views(addrs@)) != sorted_addrs(
                self@.map_values(|n: NodeView| n.addr),
            )),
    {
        let incoming = sort_addrs(addrs);
        let mut local_unsorted: Vec<String> = Vec::new();
        let mut i: usize = 0;
        while i < self.nodes.len()
            invariant
                i <= self.nodes@.len(),
                local_unsorted@.len() == i,
                forall|j: int|
                    0 <= j < i ==> (#[trigger] local_unsorted@[j])@ == self@[j].addr,
            decreases self.nodes@.len() - i,
        {
            local_unsorted.push(self.nodes[i].addr.clone());
            assert(self@[i as int] == self.nodes@[i as int]@);
            i = i + 1;
        }
        assert(addr_views(local_unsorted@) =~= self@.map_values(|n: NodeView| n.addr));
        let local = sort_addrs(local_unsorted.as_slice());
        if incoming.len() != local.len() {
            assert(addr_views(incoming@).len() != addr_views(local@).len());
            return true;
        }
        let mut j: usize = 0;
        while j < local.len()
            invariant
                incoming@.len() == local@.len(),
                addr_views(incoming@) == sorted_addrs(addr_views(addrs@)),
                addr_views(local@) == sorted_addrs(self@.map_values(|n: NodeView| n.addr)),
                j <= local@.len(),
                forall|k: int| 0 <= k < j ==> incoming@[k]@ == local@[k]@,
            decreases local@.len() - j,
        {
            if !(incoming[j] == local[j]) {
                assert(addr_views(incoming@)[j as int] != addr_views(local@)[j as int]);
                return true;
            }
            j = j + 1;
        }
        assert(addr_views(incoming@) =~= addr_views(local@));
        false
    }

    /// The node listing, one line per node.
    pub fn cluster_nodes(&self) -> (r: Frame)
        ensures
            r is Bulk,
            r->Bulk_0@ == nodes_text(self@),
    {
        let mut out: Vec<u8> = Vec::new();
        if self.nodes.len() == 0 {
            push_str(&mut out, "\r\n");
            return Frame::Bulk(out);
        }
        let mut i: usize = 0;
        while i < self.nodes.len()
            invariant
                i <= self.nodes@.len(),
                out@ == node_lines(self@.subrange(0, i as int)),
            decreases self.nodes@.len() - i,
        {
            let node = &self.nodes[i];
            let ghost before = out@;
            node.push_line(&mut out);
            proof {
                assert(self@.subrange(0, i + 1).drop_last() =~= self@.subrange(0, i as int));
                assert(self@.subrange(0, i + 1).last() == node@);
                assert(self@[i as int] == node@);
            }
            i = i + 1;
        }
        assert(self@.subrange(0, i as int) =~= self@);
        Frame::Bulk(out)
    }

    /// The slot table: for each node, its range and endpoint.
    pub fn cluster_slots(&self) -> (r: Frame)
        ensures
            r is Array,
            r->Array_0@.len() == self@.len(),
            forall|i: int| 0 <= i < self@.len() ==> slot_entry_ok(#[trigger] r->Array_0@[i], self@[i]),
    {
        let mut ranges: Vec<Frame> = Vec::new();
        let mut i: usize = 0;
        while i < self.nodes.len()
            invariant
                i <= self.nodes@.len(),
                ranges@.len() == i,
                forall|j: int| 0 <= j < i ==> slot_entry_ok(#[trigger] ranges@[j], self@[j]),
            decreases self.nodes@.len() - i,
        {
            let node = &self.nodes[i];
            assert(self@[i as int] == node@);
            let mut info: Vec<Frame> = Vec::new();
            info.push(Frame::Bulk(string_bytes_of(&node.ip)));
            info.push(Frame::Integer(node.port as i64));
            info.push(Frame::Bulk(string_bytes_of(&node.id)));
            let mut range: Vec<Frame> = Vec::new();
            range.push(Frame::Integer(node.slot_start as i64));
            range.push(Frame::Integer(node.slot_end as i64));
            range.push(Frame::Array(info));
            ranges.push(Frame::Array(range));
            i = i + 1;
        }
        Frame::Array(ranges)
    }

    /// The summary report: slot count, known nodes and cluster size.
    pub fn cluster_info(&self) -> (r: Frame)
        ensures
            r is Bulk,
            r->Bulk_0@ == info_text(self@.len()),
    {
        let n = self.nodes.len();
        let mut out: Vec<u8> = Vec::new();
        push_str(
            &mut out,
            "cluster_state:ok\r\ncluster_slots_assigned:16384\r\ncluster_slots_ok:16384\r\ncluster_slots_pfail:0\r\ncluster_slots_fail:0\r\ncluster_known_nodes:",
        );
        push_decimal(&mut out, n as u64);
        push_str(&mut out, "\r\ncluster_size:");
        push_decimal(&mut out, n as u64);
        push_str(&mut out, "\r\ncluster_current_epoch:1\r\ncluster_my_epoch:1\r\n");
        assert(out@ =~= info_text(self@.len()));
        Frame::Bulk(out)
    }

    /// The slot range of the first node flagged as this instance, if any.
    pub fn myself_owned_slots(&self) -> (r: Option<(usize, usize)>)
        ensures
            r is None <==> forall|i: int| 0 <= i < self@.len() ==> (#[trigger] self@[i]).flags is None,
            r is Some ==> exists|i: int|
                0 <= i < self@.len() && (#[trigger] self@[i]).flags is Some && (forall|j: int|
                    0 <= j < i ==> (#[trigger] self@[j]).flags is None) && r.unwrap() == (
                    self@[i].slot_start as usize,
                    self@[i].slot_end as usize,
                ),
    {
        let mut i: usize = 0;
        while i < self.nodes.len()
            invariant
                i <= self.nodes@.len(),
                forall|j: int| 0 <= j < i ==> (#[trigger] self@[j]).flags is None,
            decreases self.nodes@.len() - i,
        {
            if self.nodes[i].flags.is_some() {
                assert(self@[i as int].flags is Some);
                return Some((self.nodes[i].slot_start, self.nodes[i].slot_end));
            }
            assert(self@[i as int].flags is None);
            i = i + 1;
        }
        None
    }
}

} // verus!
