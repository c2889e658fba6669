//! IP addresses: their bits, their text, and the networks they stand in.

use vstd::arithmetic::power2::pow2;
use vstd::prelude::*;

use crate::text::{
    a_single_text_is_joined_as_it_is, all_digits, chars, decimal, decimal_digits_are_a_numeral,
    digit_of, digit_value, joined, joined_parts_are_joined, lacks, lemma_decimal_reads_back,
    lemma_first_piece, lemma_in_some_piece, lemma_numeral, lemma_one_piece, lemma_pieces_of_joined,
    number, numeral, parse_uint, pieces, pieces_make_up_the_text, push_decimal, push_numeral,
    slices, split, whole_number, ParseIntError,
};

verus! {

/// An IPv4 address.
#[derive(Clone, Copy, Debug, PartialEq, Eq, Structural)]
pub struct Ipv4Addr {
    /// The four octets as one number, the first octet highest.
    pub bits: u32,
}

/// An IPv6 address.
#[derive(Clone, Copy, Debug, PartialEq, Eq, Structural)]
pub struct Ipv6Addr {
    /// The eight segments as one number, the first segment highest.
    pub bits: u128,
}

/// An IP address.
#[derive(Clone, Copy, Debug, PartialEq, Eq, Structural)]
pub enum IpAddr {
    V4(Ipv4Addr),
    V6(Ipv6Addr),
}

// ---------------------------------------------------------------------------
// IPv4

impl Ipv4Addr {
    /// The octet at place `i`.
    pub open spec fn octet(self, i: int) -> nat {
        if i == 0 {
            self.bits as nat / 0x100_0000
        } else if i == 1 {
            self.bits as nat / 0x1_0000 % 256
        } else if i == 2 {
            self.bits as nat / 256 % 256
        } else {
            self.bits as nat % 256
        }
    }

    /// The address in dotted decimal notation.
    pub open spec fn text(self) -> Seq<char> {
        decimal(self.octet(0)).push('.') + decimal(self.octet(1)).push('.') + decimal(
            self.octet(2),
        ).push('.') + decimal(self.octet(3))
    }

    /// The address `a.b.c.d`.
    pub fn new(a: u8, b: u8, c: u8, d: u8) -> (r: Ipv4Addr)
        ensures
            r.bits == a * 0x100_0000 + b * 0x1_0000 + c * 0x100 + d,
            r.octet(0) == a,
            r.octet(1) == b,
            r.octet(2) == c,
            r.octet(3) == d,
    {
        proof {
            lemma_octets(a as nat, b as nat, c as nat, d as nat);
        }
        Ipv4Addr {
            bits: (a as u32) * 0x100_0000 + (b as u32) * 0x1_0000 + (c as u32) * 0x100 + (
            d as u32),
        }
    }

    /// The four octets.
    pub fn octets(&self) -> (r: (u8, u8, u8, u8))
        ensures
            r.0 == self.octet(0),
            r.1 == self.octet(1),
            r.2 == self.octet(2),
            r.3 == self.octet(3),
    {
        (
            (self.bits / 0x100_0000) as u8,
            (self.bits / 0x1_0000 % 256) as u8,
            (self.bits / 256 % 256) as u8,
            (self.bits % 256) as u8,
        )
    }

    /// Appends the address in dotted decimal notation to `out`.
    pub fn push_text(&self, out: &mut String)
        ensures
            final(out)@ == old(out)@ + self.text(),
    {
        let (a, b, c, d) = self.octets();
        push_decimal(out, a as u64);
        out.push('.');
        push_decimal(out, b as u64);
        out.push('.');
        push_decimal(out, c as u64);
        out.push('.');
        push_decimal(out, d as u64);
        assert(out@ =~= old(out)@ + self.text());
    }

    /// The address in dotted decimal notation.
    pub fn to_text(&self) -> (r: String)
        ensures
            r@ == self.text(),
    {
        let mut out = String::new();
        self.push_text(&mut out);
        assert(out@ =~= self.text());
        out
    }
}

/// The octets of the number that they make up.
proof fn lemma_octets(a: nat, b: nat, c: nat, d: nat)
    requires
        a < 256,
        b < 256,
        c < 256,
        d < 256,
    ensures
        (a * 0x100_0000 + b * 0x1_0000 + c * 0x100 + d) / 0x100_0000 == a,
        (a * 0x100_0000 + b * 0x1_0000 + c * 0x100 + d) / 0x1_0000 % 256 == b,
        (a * 0x100_0000 + b * 0x1_0000 + c * 0x100 + d) / 256 % 256 == c,
        (a * 0x100_0000 + b * 0x1_0000 + c * 0x100 + d) % 256 == d,
{
    let n = a * 0x100_0000 + b * 0x1_0000 + c * 0x100 + d;
    let ab = a * 256 + b;
    let abc = ab * 256 + c;
    vstd::arithmetic::div_mod::lemma_fundamental_div_mod_converse(
        n as int,
        0x100_0000,
        a as int,
        (b * 0x1_0000 + c * 0x100 + d) as int,
    );
    vstd::arithmetic::div_mod::lemma_fundamental_div_mod_converse(
        n as int,
        0x1_0000,
        ab as int,
        (c * 0x100 + d) as int,
    );
    vstd::arithmetic::div_mod::lemma_fundamental_div_mod_converse(
        n as int,
        256,
        abc as int,
        d as int,
    );
    vstd::arithmetic::div_mod::lemma_fundamental_div_mod_converse(
        ab as int,
        256,
        a as int,
        b as int,
    );
    vstd::arithmetic::div_mod::lemma_fundamental_div_mod_converse(
        abc as int,
        256,
        ab as int,
        c as int,
    );
}

/// Whether `s` is an octet in decimal notation, without superfluous zeros.
pub open spec fn is_octet(s: Seq<char>) -> bool {
    &&& 1 <= s.len() <= 3
    &&& all_digits(s, 10)
    &&& number(s, 10) <= 255
    &&& s[0] == '0' ==> s.len() == 1
}

/// The address that `s` names in dotted decimal notation.
pub open spec fn ipv4_of(s: Seq<char>) -> Option<Ipv4Addr> {
    let p = pieces(s, '.');
    if p.len() == 4 && is_octet(p[0]) && is_octet(p[1]) && is_octet(p[2]) && is_octet(p[3]) {
        Some(
            Ipv4Addr {
                bits: (number(p[0], 10) * 0x100_0000 + number(p[1], 10) * 0x1_0000 + number(
                    p[2],
                    10,
                ) * 0x100 + number(p[3], 10)) as u32,
            },
        )
    } else {
        None
    }
}

/// The number that the digits `s` stand for, where there are at most `max_len` of them.
fn digits(s: &[char], base: u32, max_len: usize) -> (r: Option<u32>)
    requires
        2 <= base <= 16,
        max_len <= 4,
    ensures
        match r {
            Some(n) => {
                &&& 1 <= s@.len() <= max_len
                &&& all_digits(s@, base as nat)
                &&& n == number(s@, base as nat)
                &&& n <= 0xffff
            },
            None => !(1 <= s@.len() <= max_len && all_digits(s@, base as nat)),
        },
{
    if s.len() == 0 || s.len() > max_len {
        return None;
    }
    let mut n: u32 = 0;
    let mut i: usize = 0;
    let mut bound: u32 = 1;
    while i < s.len()
        invariant
            i <= s.len() <= max_len <= 4,
            2 <= base <= 16,
            n < bound,
            i == 0 ==> bound == 1,
            i == 1 ==> bound == 16,
            i == 2 ==> bound == 256,
            i == 3 ==> bound == 4096,
            i == 4 ==> bound == 65536,
            n == number(s@.take(i as int), base as nat),
            forall|j: int| 0 <= j < i ==> #[trigger] digit_value(s@[j], base as nat) is Some,
        decreases s.len() - i,
    {
        match digit_of(s[i], base) {
            None => {
                assert(!all_digits(s@, base as nat)) by {
                    assert(digit_value(s@[i as int], base as nat) is None);
                }
                return None;
            },
            Some(d) => {
                proof {
                    assert(s@.take(i + 1).drop_last() =~= s@.take(i as int));
                    assert(n * base + d < bound * 16) by (nonlinear_arith)
                        requires
                            n < bound,
                            d < base,
                            base <= 16,
                    ;
                    assert(n * base <= n * 16) by (nonlinear_arith)
                        requires
                            base <= 16,
                            n >= 0,
                    ;
                }
                n = n * base + d;
                bound = bound * 16;
            },
        }
        i = i + 1;
    }
    assert(s@.take(i as int) =~= s@);
    Some(n)
}

/// An octet in decimal notation.
fn octet(s: &[char]) -> (r: Option<u8>)
    ensures
        match r {
            Some(n) => is_octet(s@) && n == number(s@, 10),
            None => !is_octet(s@),
        },
{
    match digits(s, 10, 3) {
        None => None,
        Some(n) => {
            if n > 255 || (s[0] == '0' && s.len() > 1) {
                None
            } else {
                Some(n as u8)
            }
        },
    }
}

/// The address that `s` names in dotted decimal notation.
pub fn parse_ipv4(s: &[char]) -> (r: Option<Ipv4Addr>)
    ensures
        r == ipv4_of(s@),
{
    let p = split(s, '.');
    proof {
        assert(pieces(s@, '.').len() == p@.len());
        assert forall|i: int| 0 <= i < p@.len() implies pieces(s@, '.')[i] == p@[i]@ by {
            assert(slices(p@)[i] == p@[i]@);
        }
    }
    if p.len() != 4 {
        return None;
    }
    let a = octet(p[0]);
    let b = octet(p[1]);
    let c = octet(p[2]);
    let d = octet(p[3]);
    match (a, b, c, d) {
        (Some(a), Some(b), Some(c), Some(d)) => Some(Ipv4Addr::new(a, b, c, d)),
        _ => None,
    }
}

// ---------------------------------------------------------------------------
// IPv6

/// The number whose digits to the base 65536 are `s`.
pub open spec fn join16(s: Seq<u16>) -> nat
    decreases s.len(),
{
    if s.len() == 0 {
        0
    } else {
        join16(s.drop_last()) * 0x1_0000 + s.last() as nat
    }
}

/// The last `k` digits of `n` to the base 65536.
pub open spec fn split16(n: nat, k: nat) -> Seq<u16>
    decreases k,
{
    if k == 0 {
        seq![]
    } else {
        split16(n / 0x1_0000, (k - 1) as nat).push((n % 0x1_0000) as u16)
    }
}

/// `n` zeros.
pub open spec fn zeros(n: nat) -> Seq<u16> {
    Seq::new(n, |i: int| 0u16)
}

/// Whether the segments from `start` on, `len` of them, are all zero.
pub open spec fn zero_run(s: Seq<u16>, start: int, len: int) -> bool {
    &&& 0 <= start
    &&& 0 <= len
    &&& start + len <= s.len()
    &&& forall|i: int| start <= i < start + len ==> s[i] == 0
}

/// Whether this is the longest run of zeros, and the first of the longest.
pub open spec fn longest_zero_run(s: Seq<u16>, start: int, len: int) -> bool {
    &&& zero_run(s, start, len)
    &&& forall|a: int, n: int| #[trigger]
        zero_run(s, a, n) && n > 0 ==> n < len || (n == len && start <= a)
}

/// Segments in hexadecimal notation, with colons between them.
pub open spec fn groups_text(s: Seq<u16>) -> Seq<char> {
    joined(s.map_values(|g: u16| numeral(g as nat, 16)), seq![':'])
}

/// Segments in hexadecimal notation, where two colons stand for the first of the longest
/// runs of zeros, unless none is longer than one segment.
pub open spec fn compressed_text(s: Seq<u16>) -> Seq<char> {
    let (start, len) = choose|start: int, len: int| #[trigger] longest_zero_run(s, start, len);
    if len > 1 {
        groups_text(s.take(start)) + seq![':', ':'] + groups_text(s.skip(start + len))
    } else {
        groups_text(s)
    }
}

impl Ipv6Addr {
    /// The eight segments.
    pub open spec fn segments(self) -> Seq<u16> {
        split16(self.bits as nat, 8)
    }

    /// The IPv4 address that `::ffff:a.b.c.d` maps.
    pub open spec fn mapped(self) -> Option<Ipv4Addr> {
        if self.bits as nat / 0x1_0000_0000 == 0xffff {
            Some(Ipv4Addr { bits: (self.bits as nat % 0x1_0000_0000) as u32 })
        } else {
            None
        }
    }

    /// The address in its canonical notation.
    pub open spec fn text(self) -> Seq<char> {
        match self.mapped() {
            Some(v4) => seq![':', ':', 'f', 'f', 'f', 'f', ':'] + v4.text(),
            None => compressed_text(self.segments()),
        }
    }

    /// The IPv4 address that `::ffff:a.b.c.d` maps.
    pub fn to_ipv4_mapped(&self) -> (r: Option<Ipv4Addr>)
        ensures
            r == self.mapped(),
    {
        if self.bits / 0x1_0000_0000 == 0xffff {
            Some(Ipv4Addr { bits: (self.bits % 0x1_0000_0000) as u32 })
        } else {
            None
        }
    }
}

/// Whether `s` is a segment in hexadecimal notation.
pub open spec fn is_group(s: Seq<char>) -> bool {
    1 <= s.len() <= 4 && all_digits(s, 16)
}

/// The segments that `p` names, where each is one in hexadecimal notation.
pub open spec fn plain_groups(p: Seq<Seq<char>>) -> Option<Seq<u16>> {
    if forall|i: int| 0 <= i < p.len() ==> #[trigger] is_group(p[i]) {
        Some(p.map_values(|g: Seq<char>| number(g, 16) as u16))
    } else {
        None
    }
}

/// The two segments that an IPv4 address fills.
pub open spec fn v4_groups(a: Ipv4Addr) -> Seq<u16> {
    seq![(a.bits / 0x1_0000) as u16, (a.bits % 0x1_0000) as u16]
}

/// The segments that `s` names, with colons between them. Where `v4` holds, an IPv4
/// address may stand for the last two.
pub open spec fn groups_of(s: Seq<char>, v4: bool) -> Option<Seq<u16>> {
    let p = pieces(s, ':');
    if s.len() == 0 {
        Some(seq![])
    } else if v4 && ipv4_of(p.last()) is Some {
        match plain_groups(p.drop_last()) {
            Some(g) => Some(g + v4_groups(ipv4_of(p.last())->0)),
            None => None,
        }
    } else {
        plain_groups(p)
    }
}

/// Where two colons first stand in `s`; the length of `s` where they stand nowhere.
pub open spec fn gap(s: Seq<char>) -> int
    decreases s.len(),
{
    if s.len() < 2 {
        s.len() as int
    } else if s[0] == ':' && s[1] == ':' {
        0
    } else {
        1 + gap(s.skip(1))
    }
}

/// The eight segments that `s` names. Two colons may stand, once, for the zeros that are
/// missing, at least one.
pub open spec fn segments_of(s: Seq<char>) -> Option<Seq<u16>> {
    let g = gap(s);
    if g == s.len() {
        match groups_of(s, true) {
            Some(all) => if all.len() == 8 {
                Some(all)
            } else {
                None
            },
            None => None,
        }
    } else {
        match (groups_of(s.take(g), false), groups_of(s.skip(g + 2), true)) {
            (Some(head), Some(tail)) => if head.len() + tail.len() <= 7 {
                Some(head + zeros((8 - head.len() - tail.len()) as nat) + tail)
            } else {
                None
            },
            _ => None,
        }
    }
}

/// The address that `s` names in IPv6's notation.
pub open spec fn ipv6_of(s: Seq<char>) -> Option<Ipv6Addr> {
    match segments_of(s) {
        Some(g) => Some(Ipv6Addr { bits: join16(g) as u128 }),
        None => None,
    }
}

/// The address that `s` names, of either family.
pub open spec fn ip_of(s: Seq<char>) -> Option<IpAddr> {
    match ipv4_of(s) {
        Some(a) => Some(IpAddr::V4(a)),
        None => match ipv6_of(s) {
            Some(a) => Some(IpAddr::V6(a)),
            None => None,
        },
    }
}

/// 65536 to the power `k`.
spec fn pow16(k: nat) -> nat
    decreases k,
{
    if k == 0 {
        1
    } else {
        0x1_0000 * pow16((k - 1) as nat)
    }
}

proof fn lemma_pow16_8()
    ensures
        pow16(8) == 0x1_0000_0000_0000_0000_0000_0000_0000_0000,
{
    reveal_with_fuel(pow16, 9);
}

proof fn lemma_join16_bound(s: Seq<u16>)
    ensures
        join16(s) < pow16(s.len()),
    decreases s.len(),
{
    if s.len() > 0 {
        lemma_join16_bound(s.drop_last());
    }
}

proof fn lemma_split_join(s: Seq<u16>)
    ensures
        split16(join16(s), s.len()) == s,
    decreases s.len(),
{
    if s.len() == 0 {
        assert(s =~= seq![]);
    } else {
        lemma_split_join(s.drop_last());
        let n = join16(s);
        assert(n / 0x1_0000 == join16(s.drop_last()));
        assert(n % 0x1_0000 == s.last() as nat);
        assert(split16(n, s.len()) =~= s);
    }
}

proof fn lemma_join_split(n: nat, k: nat)
    requires
        n < pow16(k),
    ensures
        join16(split16(n, k)) == n,
        split16(n, k).len() == k,
    decreases k,
{
    if k > 0 {
        lemma_join_split(n / 0x1_0000, (k - 1) as nat);
        let s = split16(n, k);
        assert(s.drop_last() =~= split16(n / 0x1_0000, (k - 1) as nat));
    }
}

/// The eight segments of an address, which they make up.
proof fn lemma_segments(a: Ipv6Addr)
    ensures
        a.segments().len() == 8,
        join16(a.segments()) == a.bits,
{
    lemma_pow16_8();
    lemma_join_split(a.bits as nat, 8);
}

/// The last `k` digits of `n` to the base 65536.
fn low_segments(n: u128, k: usize) -> (r: Vec<u16>)
    ensures
        r@ == split16(n as nat, k as nat),
    decreases k,
{
    if k == 0 {
        Vec::new()
    } else {
        let mut v = low_segments(n / 0x1_0000, k - 1);
        v.push((n % 0x1_0000) as u16);
        v
    }
}

/// The number whose digits to the base 65536 are `s`.
fn bits_of(s: &Vec<u16>) -> (r: u128)
    requires
        s.len() <= 8,
    ensures
        r == join16(s@),
{
    let mut n: u128 = 0;
    let mut i: usize = 0;
    while i < s.len()
        invariant
            i <= s.len() <= 8,
            n == join16(s@.take(i as int)),
        decreases s.len() - i,
    {
        proof {
            assert(s@.take(i + 1).drop_last() =~= s@.take(i as int));
            lemma_join16_bound(s@.take(i + 1));
            lemma_pow16_8();
            lemma_pow16_grows((i + 1) as nat, 8);
        }
        n = n * 0x1_0000 + s[i] as u128;
        i = i + 1;
    }
    assert(s@.take(i as int) =~= s@);
    n
}

proof fn lemma_pow16_grows(a: nat, b: nat)
    requires
        a <= b,
    ensures
        pow16(a) <= pow16(b),
    decreases b - a,
{
    if a < b {
        lemma_pow16_grows(a, (b - 1) as nat);
    }
}

/// The segments that `p` names, where each is one in hexadecimal notation.
fn parse_plain_groups(p: &[&[char]]) -> (r: Option<Vec<u16>>)
    ensures
        match r {
            Some(g) => plain_groups(slices(p@)) == Some(g@),
            None => plain_groups(slices(p@)) is None,
        },
{
    let mut out: Vec<u16> = Vec::new();
    let mut i: usize = 0;
    while i < p.len()
        invariant
            i <= p.len(),
            out.len() == i,
            forall|j: int| 0 <= j < i ==> #[trigger] is_group(slices(p@)[j]),
            forall|j: int| 0 <= j < i ==> #[trigger] out@[j] == number(slices(p@)[j], 16) as u16,
        decreases p.len() - i,
    {
        assert(slices(p@)[i as int] == p@[i as int]@);
        match digits(p[i], 16, 4) {
            None => {
                assert(!is_group(slices(p@)[i as int]));
                return None;
            },
            Some(n) => {
                out.push(n as u16);
            },
        }
        i = i + 1;
    }
    assert(out@ =~= slices(p@).map_values(|g: Seq<char>| number(g, 16) as u16));
    Some(out)
}

/// The segments that `s` names, with colons between them.
fn parse_groups(s: &[char], v4: bool) -> (r: Option<Vec<u16>>)
    ensures
        match r {
            Some(g) => groups_of(s@, v4) == Some(g@),
            None => groups_of(s@, v4) is None,
        },
{
    if s.len() == 0 {
        return Some(Vec::new());
    }
    let p = split(s, ':');
    let n: usize = p.len();
    assert(slices(p@).last() == p@[n - 1]@);
    if v4 {
        if let Some(a) = parse_ipv4(p[n - 1]) {
            let front: &[&[char]] = &p.as_slice()[0..n - 1];
            assert(slices(front@) =~= slices(p@).drop_last());
            return match parse_plain_groups(front) {
                None => None,
                Some(g) => {
                    let mut g = g;
                    let ghost before = g@;
                    g.push((a.bits / 0x1_0000) as u16);
                    g.push((a.bits % 0x1_0000) as u16);
                    assert(g@ =~= before + v4_groups(a));
                    Some(g)
                },
            };
        }
    }
    parse_plain_groups(p.as_slice())
}

/// Where two colons first stand in `s`.
fn find_gap(s: &[char]) -> (r: usize)
    ensures
        r == gap(s@),
        r <= s.len(),
        r < s.len() ==> r + 2 <= s.len(),
{
    let mut i: usize = 0;
    assert(s@.skip(0) =~= s@);
    while s.len() - i >= 2
        invariant
            i <= s.len(),
            gap(s@) == i + gap(s@.skip(i as int)),
        decreases s.len() - i,
    {
        if s[i] == ':' && s[i + 1] == ':' {
            return i;
        }
        assert(s@.skip(i as int).skip(1) =~= s@.skip(i + 1));
        i = i + 1;
    }
    s.len()
}

/// The address that `s` names in IPv6's notation.
pub fn parse_ipv6(s: &[char]) -> (r: Option<Ipv6Addr>)
    ensures
        r == ipv6_of(s@),
{
    let g: usize = find_gap(s);
    if g == s.len() {
        return match parse_groups(s, true) {
            Some(all) => if all.len() == 8 {
                Some(Ipv6Addr { bits: bits_of(&all) })
            } else {
                None
            },
            None => None,
        };
    }
    let before: &[char] = &s[0..g];
    let behind: &[char] = &s[g + 2..s.len()];
    assert(before@ =~= s@.take(g as int));
    assert(behind@ =~= s@.skip(g + 2));
    let head = parse_groups(before, false);
    let tail = parse_groups(behind, true);
    match (head, tail) {
        (Some(head), Some(tail)) => {
            if head.len() > 7 || tail.len() > 7 - head.len() {
                return None;
            }
            let mut all = head;
            let mut missing: usize = 8 - all.len() - tail.len();
            let ghost n = missing;
            let ghost start = all@;
            assert(all@ =~= start + zeros(0));
            while missing > 0
                invariant
                    missing <= n,
                    all@ == start + zeros((n - missing) as nat),
                decreases missing,
            {
                all.push(0);
                missing = missing - 1;
                assert(all@ =~= start + zeros((n - missing) as nat));
            }
            let mut tail = tail;
            all.append(&mut tail);
            Some(Ipv6Addr { bits: bits_of(&all) })
        },
        _ => None,
    }
}

/// The address that `s` names, of either family.
pub fn parse_ip(s: &[char]) -> (r: Option<IpAddr>)
    ensures
        r == ip_of(s@),
{
    match parse_ipv4(s) {
        Some(a) => Some(IpAddr::V4(a)),
        None => match parse_ipv6(s) {
            Some(a) => Some(IpAddr::V6(a)),
            None => None,
        },
    }
}

// ---------------------------------------------------------------------------
// The text of an address

/// How many zeros stand in `s` directly before place `k`.
spec fn tail_zeros(s: Seq<u16>, k: int) -> int
    decreases k,
{
    if 0 < k <= s.len() && s[k - 1] == 0 {
        1 + tail_zeros(s, k - 1)
    } else {
        0
    }
}

/// Whether this is the first of the longest runs of zeros before place `k`.
spec fn longest_before(s: Seq<u16>, k: int, start: int, len: int) -> bool {
    &&& zero_run(s, start, len)
    &&& start + len <= k
    &&& forall|a: int, n: int| #[trigger]
        zero_run(s, a, n) && n > 0 && a + n <= k ==> n < len || (n == len && start <= a)
}

proof fn lemma_tail_zeros(s: Seq<u16>, k: int)
    requires
        0 <= k <= s.len(),
    ensures
        0 <= tail_zeros(s, k) <= k,
        zero_run(s, k - tail_zeros(s, k), tail_zeros(s, k)),
        tail_zeros(s, k) < k ==> s[k - tail_zeros(s, k) - 1] != 0,
    decreases k,
{
    if 0 < k && s[k - 1] == 0 {
        lemma_tail_zeros(s, k - 1);
    }
}

proof fn lemma_longest_step(s: Seq<u16>, k: int, start: int, len: int)
    requires
        0 <= k < s.len(),
        longest_before(s, k, start, len),
    ensures
        tail_zeros(s, k + 1) > len ==> longest_before(
            s,
            k + 1,
            k + 1 - tail_zeros(s, k + 1),
            tail_zeros(s, k + 1),
        ),
        tail_zeros(s, k + 1) <= len ==> longest_before(s, k + 1, start, len),
{
    let t = tail_zeros(s, k + 1);
    lemma_tail_zeros(s, k + 1);
    assert forall|a: int, n: int| #[trigger]
        zero_run(s, a, n) && n > 0 && a + n == k + 1 implies n <= t by {
        if n > t {
            assert(s[k + 1 - t - 1] == 0);
        }
    }
}

proof fn lemma_longest_exists(s: Seq<u16>, k: int)
    requires
        0 <= k <= s.len(),
    ensures
        exists|start: int, len: int| longest_before(s, k, start, len),
    decreases k,
{
    if k == 0 {
        assert(longest_before(s, 0, 0, 0));
    } else {
        let j = k - 1;
        lemma_longest_exists(s, j);
        let (start, len) = choose|start: int, len: int| longest_before(s, j, start, len);
        lemma_longest_step(s, j, start, len);
    }
}

proof fn lemma_longest_unique(s: Seq<u16>, a: int, n: int, b: int, m: int)
    requires
        longest_zero_run(s, a, n),
        longest_zero_run(s, b, m),
    ensures
        n == m,
        n > 0 ==> a == b,
{
}

/// The chosen run in [`compressed_text`] is the first of the longest runs of zeros.
proof fn lemma_compressed_run(s: Seq<u16>)
    ensures
        exists|start: int, len: int| #[trigger] longest_zero_run(s, start, len),
{
    lemma_longest_exists(s, s.len() as int);
    let (start, len) = choose|start: int, len: int|
        longest_before(s, s.len() as int, start, len);
    assert(longest_zero_run(s, start, len));
}

/// Appends segments in hexadecimal notation to `out`, with colons between them.
fn push_groups(out: &mut String, s: &[u16])
    ensures
        final(out)@ == old(out)@ + groups_text(s@),
{
    let ghost items = s@.map_values(|g: u16| numeral(g as nat, 16));
    let ghost sep = seq![':'];
    let mut i: usize = 0;
    assert(out@ =~= old(out)@ + joined(items.take(0), sep));
    while i < s.len()
        invariant
            i <= s.len(),
            sep == seq![':'],
            items == s@.map_values(|g: u16| numeral(g as nat, 16)),
            out@ == old(out)@ + joined(items.take(i as int), sep),
        decreases s.len() - i,
    {
        if i > 0 {
            out.push(':');
        }
        push_numeral(out, s[i] as u64, 16);
        proof {
            let whole = items.take(i + 1);
            assert(whole.drop_last() =~= items.take(i as int));
            assert(whole.last() == numeral(s@[i as int] as nat, 16));
            if i == 0 {
                assert(items.take(0) =~= seq![]);
            }
            assert(out@ =~= old(out)@ + joined(whole, sep));
        }
        i = i + 1;
    }
    assert(items.take(i as int) =~= items);
}

impl Ipv6Addr {
    /// Appends the address in its canonical notation to `out`.
    pub fn push_text(&self, out: &mut String)
        ensures
            final(out)@ == old(out)@ + self.text(),
    {
        if let Some(v4) = self.to_ipv4_mapped() {
            out.append("::ffff:");
            proof {
                reveal_strlit("::ffff:");
                assert("::ffff:"@ =~= seq![':', ':', 'f', 'f', 'f', 'f', ':']);
            }
            v4.push_text(out);
            assert(out@ =~= old(out)@ + self.text());
            return;
        }
        let s = low_segments(self.bits, 8);
        proof {
            lemma_segments(*self);
        }
        let mut start: usize = 0;
        let mut len: usize = 0;
        let mut run: usize = 0;
        let mut i: usize = 0;
        while i < 8
            invariant
                i <= 8,
                s@.len() == 8,
                run <= i,
                len <= i,
                start <= i,
                run == tail_zeros(s@, i as int),
                longest_before(s@, i as int, start as int, len as int),
            decreases 8 - i,
        {
            proof {
                lemma_longest_step(s@, i as int, start as int, len as int);
                lemma_tail_zeros(s@, i + 1);
            }
            if s[i] == 0 {
                run = run + 1;
            } else {
                run = 0;
            }
            if run > len {
                start = i + 1 - run;
                len = run;
            }
            i = i + 1;
        }
        proof {
            assert(longest_zero_run(s@, start as int, len as int));
            let (a, n) = choose|a: int, n: int| #[trigger] longest_zero_run(s@, a, n);
            lemma_longest_unique(s@, start as int, len as int, a, n);
        }
        if len > 1 {
            let head: &[u16] = &s.as_slice()[0..start];
            let tail: &[u16] = &s.as_slice()[start + len..8];
            push_groups(out, head);
            out.push(':');
            out.push(':');
            push_groups(out, tail);
            proof {
                assert(head@ =~= s@.take(start as int));
                assert(tail@ =~= s@.skip(start + len));
                assert(out@ =~= old(out)@ + self.text());
            }
        } else {
            push_groups(out, s.as_slice());
        }
    }
}

impl IpAddr {
    /// The address in its canonical notation.
    pub open spec fn text(self) -> Seq<char> {
        match self {
            IpAddr::V4(a) => a.text(),
            IpAddr::V6(a) => a.text(),
        }
    }

    /// An IPv6 address that maps an IPv4 address, as that address; any other as it is.
    pub open spec fn canonical(self) -> IpAddr {
        match self {
            IpAddr::V4(a) => self,
            IpAddr::V6(a) => match a.mapped() {
                Some(v4) => IpAddr::V4(v4),
                None => self,
            },
        }
    }

    /// The order of addresses: IPv4 before IPv6, and by their bits within a family.
    pub open spec fn before(self, other: IpAddr) -> bool {
        match (self, other) {
            (IpAddr::V4(a), IpAddr::V4(b)) => a.bits < b.bits,
            (IpAddr::V6(a), IpAddr::V6(b)) => a.bits < b.bits,
            (IpAddr::V4(_), IpAddr::V6(_)) => true,
            (IpAddr::V6(_), IpAddr::V4(_)) => false,
        }
    }

    /// Appends the address in its canonical notation to `out`.
    pub fn push_text(&self, out: &mut String)
        ensures
            final(out)@ == old(out)@ + self.text(),
    {
        match self {
            IpAddr::V4(a) => a.push_text(out),
            IpAddr::V6(a) => a.push_text(out),
        }
    }

    /// The address in its canonical notation.
    pub fn to_text(&self) -> (r: String)
        ensures
            r@ == self.text(),
    {
        let mut out = String::new();
        self.push_text(&mut out);
        assert(out@ =~= self.text());
        out
    }

    /// An IPv6 address that maps an IPv4 address, as that address; any other as it is.
    pub fn to_canonical(&self) -> (r: IpAddr)
        ensures
            r == self.canonical(),
    {
        match self {
            IpAddr::V4(a) => IpAddr::V4(*a),
            IpAddr::V6(a) => match a.to_ipv4_mapped() {
                Some(v4) => IpAddr::V4(v4),
                None => IpAddr::V6(*a),
            },
        }
    }

    /// Whether this address stands before `other`.
    pub fn is_before(&self, other: &IpAddr) -> (r: bool)
        ensures
            r == self.before(*other),
    {
        match (self, other) {
            (IpAddr::V4(a), IpAddr::V4(b)) => a.bits < b.bits,
            (IpAddr::V6(a), IpAddr::V6(b)) => a.bits < b.bits,
            (IpAddr::V4(_), IpAddr::V6(_)) => true,
            (IpAddr::V6(_), IpAddr::V4(_)) => false,
        }
    }
}

// ---------------------------------------------------------------------------
// Networks

/// Whether the first `len` of the `width` bits of two addresses are the same. A length
/// above the width asks for all bits.
pub open spec fn same_prefix(a: nat, b: nat, width: nat, len: nat) -> bool {
    if len >= width {
        a == b
    } else {
        a / pow2((width - len) as nat) == b / pow2((width - len) as nat)
    }
}

/// Whether `ip` stands in the network that `subnet` names in CIDR notation: an address, a
/// slash, and how many of its leading bits count. What follows a second slash is ignored.
/// A text that is no such notation names no network.
pub open spec fn in_subnet(ip: IpAddr, subnet: Seq<char>) -> bool {
    let p = pieces(subnet, '/');
    let len = whole_number(
        if p.len() > 1 {
            p[1]
        } else {
            seq![]
        },
        u32::MAX as nat,
    );
    match (ip.canonical(), ip_of(p[0]), len) {
        (IpAddr::V4(a), Some(IpAddr::V4(net)), Ok(len)) => same_prefix(
            a.bits as nat,
            net.bits as nat,
            32,
            len,
        ),
        (IpAddr::V6(a), Some(IpAddr::V6(net)), Ok(len)) => same_prefix(
            a.bits as nat,
            net.bits as nat,
            128,
            len,
        ),
        _ => false,
    }
}

fn same_prefix_v4(a: u32, b: u32, len: u32) -> (r: bool)
    ensures
        r == same_prefix(a as nat, b as nat, 32, len as nat),
{
    if len >= 32 {
        return a == b;
    }
    if len == 0 {
        proof {
            vstd::arithmetic::power2::lemma2_to64();
            vstd::arithmetic::div_mod::lemma_basic_div(a as int, pow2(32) as int);
            vstd::arithmetic::div_mod::lemma_basic_div(b as int, pow2(32) as int);
        }
        return true;
    }
    let shift: u32 = 32 - len;
    proof {
        vstd::bits::lemma_u32_shr_is_div(a, shift);
        vstd::bits::lemma_u32_shr_is_div(b, shift);
    }
    (a >> shift) == (b >> shift)
}

fn same_prefix_v6(a: u128, b: u128, len: u32) -> (r: bool)
    ensures
        r == same_prefix(a as nat, b as nat, 128, len as nat),
{
    if len >= 128 {
        return a == b;
    }
    if len == 0 {
        proof {
            vstd::arithmetic::power2::lemma2_to64();
            vstd::arithmetic::power2::lemma_pow2_adds(64, 64);
            vstd::arithmetic::div_mod::lemma_basic_div(a as int, pow2(128) as int);
            vstd::arithmetic::div_mod::lemma_basic_div(b as int, pow2(128) as int);
        }
        return true;
    }
    let shift: u128 = (128 - len) as u128;
    proof {
        vstd::bits::lemma_u128_shr_is_div(a, shift);
        vstd::bits::lemma_u128_shr_is_div(b, shift);
    }
    (a >> shift) == (b >> shift)
}

/// Whether `ip` stands in the network that `subnet` names in CIDR notation.
pub fn ip_in_subnet(ip: IpAddr, subnet: &str) -> (r: bool)
    ensures
        r == in_subnet(ip, subnet@),
{
    let text = chars(subnet);
    let p = split(text.as_slice(), '/');
    let none: Vec<char> = Vec::new();
    assert(slices(p@)[0] == p@[0]@);
    let len_text: &[char] = if p.len() > 1 {
        assert(slices(p@)[1] == p@[1]@);
        p[1]
    } else {
        assert(none@ =~= seq![]);
        none.as_slice()
    };
    let net = parse_ip(p[0]);
    let len = parse_uint(len_text, u32::MAX);
    match (ip.to_canonical(), net, len) {
        (IpAddr::V4(a), Some(IpAddr::V4(net)), Ok(len)) => same_prefix_v4(a.bits, net.bits, len),
        (IpAddr::V6(a), Some(IpAddr::V6(net)), Ok(len)) => same_prefix_v6(a.bits, net.bits, len),
        _ => false,
    }
}

/// Whether an address is a host's own or a private network's: loopback, private and
/// link-local addresses, and the range for benchmarks, 198.18.0.0/15.
pub open spec fn local(ip: IpAddr) -> bool {
    match ip {
        IpAddr::V4(a) => {
            ||| a.octet(0) == 127
            ||| a.octet(0) == 10
            ||| a.octet(0) == 172 && 16 <= a.octet(1) <= 31
            ||| a.octet(0) == 192 && a.octet(1) == 168
            ||| a.octet(0) == 169 && a.octet(1) == 254
            ||| a.octet(0) == 198 && 18 <= a.octet(1) <= 19
        },
        IpAddr::V6(a) => {
            let first = a.bits as nat / 0x1_0000_0000_0000_0000_0000_0000_0000;
            ||| a.bits == 1
            ||| 0xfc00 <= first <= 0xfdff
            ||| 0xfe80 <= first <= 0xfebf
        },
    }
}

/// Whether an address is a host's own or a private network's.
pub fn is_local_ip(ip: IpAddr) -> (r: bool)
    ensures
        r == local(ip),
{
    match ip {
        IpAddr::V4(a) => {
            let (first, second, _, _) = a.octets();
            first == 127 || first == 10 || (first == 172 && 16 <= second && second <= 31) || (first
                == 192 && second == 168) || (first == 169 && second == 254) || (first == 198 && (
            second == 18 || second == 19))
        },
        IpAddr::V6(a) => {
            let first: u128 = a.bits / 0x1_0000_0000_0000_0000_0000_0000_0000;
            a.bits == 1 || (0xfc00 <= first && first <= 0xfdff) || (0xfe80 <= first && first
                <= 0xfebf)
        },
    }
}

// ---------------------------------------------------------------------------
// Laws

proof fn lemma_decimal_octet(n: nat)
    requires
        n <= 255,
    ensures
        is_octet(decimal(n)),
        number(decimal(n), 10) == n,
        lacks(decimal(n), '.'),
        lacks(decimal(n), ':'),
{
    lemma_numeral(n, 10);
    let s = decimal(n);
    assert forall|i: int| 0 <= i < s.len() implies s[i] != '.' && s[i] != ':' by {
        assert(digit_value(s[i], 10) is Some);
    }
    reveal_with_fuel(numeral, 4);
    assert(s.len() <= 3);
    if s[0] == '0' {
        assert(n == 0);
    }
}

proof fn lemma_hex_group(n: nat)
    requires
        n <= 0xffff,
    ensures
        is_group(numeral(n, 16)),
        number(numeral(n, 16), 16) == n,
        lacks(numeral(n, 16), '.'),
        lacks(numeral(n, 16), ':'),
{
    lemma_numeral(n, 16);
    let s = numeral(n, 16);
    assert forall|i: int| 0 <= i < s.len() implies s[i] != '.' && s[i] != ':' by {
        assert(digit_value(s[i], 16) is Some);
    }
    reveal_with_fuel(numeral, 5);
}

/// The octets of an address make it up.
proof fn lemma_ipv4_bits(a: Ipv4Addr)
    ensures
        a.octet(0) * 0x100_0000 + a.octet(1) * 0x1_0000 + a.octet(2) * 0x100 + a.octet(3) == a.bits,
        a.octet(0) <= 255,
        a.octet(1) <= 255,
        a.octet(2) <= 255,
        a.octet(3) <= 255,
{
    let n = a.bits as nat;
    let abc = n / 256;
    let ab = abc / 256;
    assert(n == abc * 256 + n % 256);
    assert(abc == ab * 256 + abc % 256);
    assert(ab == ab / 256 * 256 + ab % 256);
    assert(n / 0x1_0000 == ab);
    assert(n / 0x100_0000 == ab / 256);
}

/// Whether only dots and decimal digits stand in `s`.
spec fn dotted(s: Seq<char>) -> bool {
    forall|i: int| 0 <= i < s.len() ==> #[trigger] s[i] == '.' || digit_value(s[i], 10) is Some
}

proof fn lemma_dotted_octet(n: nat)
    requires
        n <= 255,
    ensures
        dotted(decimal(n)),
        dotted(decimal(n).push('.')),
{
    lemma_numeral(n, 10);
    let s = decimal(n);
    assert forall|i: int| 0 <= i < s.len() implies #[trigger] s[i] == '.' || digit_value(
        s[i],
        10,
    ) is Some by {
        assert(digit_value(s[i], 10) is Some);
    }
    let t = s.push('.');
    assert forall|i: int| 0 <= i < t.len() implies #[trigger] t[i] == '.' || digit_value(
        t[i],
        10,
    ) is Some by {
        if i < s.len() {
            assert(t[i] == s[i]);
        }
    }
}

proof fn lemma_dotted_joins(s: Seq<char>, t: Seq<char>)
    requires
        dotted(s),
        dotted(t),
    ensures
        dotted(s + t),
{
    let u = s + t;
    assert forall|i: int| 0 <= i < u.len() implies #[trigger] u[i] == '.' || digit_value(
        u[i],
        10,
    ) is Some by {
        if i < s.len() {
            assert(u[i] == s[i]);
        } else {
            assert(u[i] == t[i - s.len()]);
        }
    }
}

/// The text of an IPv4 address reads back as that address. Neither a colon nor a slash stands
/// in it.
pub proof fn ipv4_text_reads_back(a: Ipv4Addr)
    ensures
        ipv4_of(a.text()) == Some(a),
        lacks(a.text(), ':'),
        lacks(a.text(), '/'),
{
    let (o0, o1, o2, o3) = (a.octet(0), a.octet(1), a.octet(2), a.octet(3));
    lemma_ipv4_bits(a);
    lemma_decimal_octet(o0);
    lemma_decimal_octet(o1);
    lemma_decimal_octet(o2);
    lemma_decimal_octet(o3);
    let t3 = decimal(o3);
    let t2 = decimal(o2).push('.') + t3;
    let t1 = decimal(o1).push('.') + t2;
    let t0 = decimal(o0).push('.') + t1;
    assert(a.text() =~= t0);
    lemma_one_piece(t3, '.');
    lemma_first_piece(decimal(o2), '.', t3);
    lemma_first_piece(decimal(o1), '.', t2);
    lemma_first_piece(decimal(o0), '.', t1);
    let p = pieces(t0, '.');
    assert(p =~= seq![decimal(o0), decimal(o1), decimal(o2), decimal(o3)]);
    lemma_dotted_octet(o0);
    lemma_dotted_octet(o1);
    lemma_dotted_octet(o2);
    lemma_dotted_octet(o3);
    lemma_dotted_joins(decimal(o2).push('.'), t3);
    lemma_dotted_joins(decimal(o1).push('.'), t2);
    lemma_dotted_joins(decimal(o0).push('.'), t1);
}

/// No line feed stands in the text of an IPv4 address.
pub proof fn ipv4_text_is_one_line(a: Ipv4Addr)
    ensures
        lacks(a.text(), '\n'),
{
    let (o0, o1, o2, o3) = (a.octet(0), a.octet(1), a.octet(2), a.octet(3));
    lemma_ipv4_bits(a);
    lemma_dotted_octet(o0);
    lemma_dotted_octet(o1);
    lemma_dotted_octet(o2);
    lemma_dotted_octet(o3);
    lemma_dotted_joins(decimal(o0).push('.'), decimal(o1).push('.'));
    lemma_dotted_joins(decimal(o0).push('.') + decimal(o1).push('.'), decimal(o2).push('.'));
    lemma_dotted_joins(
        decimal(o0).push('.') + decimal(o1).push('.') + decimal(o2).push('.'),
        decimal(o3),
    );
}

/// The hexadecimal notations of segments.
spec fn group_items(s: Seq<u16>) -> Seq<Seq<char>> {
    s.map_values(|g: u16| numeral(g as nat, 16))
}

/// Whether two colons stand nowhere in `s`, and no colon at its end.
spec fn closed_groups(s: Seq<char>) -> bool {
    &&& s.len() > 0 ==> s.last() != ':'
    &&& forall|i: int| 0 <= i < s.len() - 1 ==> s[i] != ':' || #[trigger] s[i + 1] != ':'
}

proof fn lemma_groups_text_closed(items: Seq<Seq<char>>)
    requires
        forall|i: int|
            0 <= i < items.len() ==> (#[trigger] items[i]).len() > 0 && lacks(items[i], ':'),
    ensures
        closed_groups(joined(items, seq![':'])),
        items.len() > 0 ==> joined(items, seq![':']).len() > 0,
    decreases items.len(),
{
    if items.len() > 0 {
        let last = items.last();
        assert(last == items[items.len() - 1]);
        assert(last.len() > 0 && lacks(last, ':'));
        assert(last[last.len() - 1] != ':');
        if items.len() > 1 {
            let front = items.drop_last();
            assert forall|i: int| 0 <= i < front.len() implies (#[trigger] front[i]).len() > 0
                && lacks(front[i], ':') by {
                assert(front[i] == items[i]);
            }
            lemma_groups_text_closed(front);
            let h = joined(front, seq![':']);
            let s = joined(items, seq![':']);
            assert(s =~= h + seq![':'] + last);
            assert forall|i: int| 0 <= i < s.len() - 1 implies s[i] != ':' || #[trigger] s[i + 1]
                != ':' by {
                if i < h.len() - 1 {
                    assert(s[i] == h[i] && s[i + 1] == h[i + 1]);
                } else if i == h.len() - 1 {
                    assert(s[i] == h.last());
                } else {
                    assert(s[i + 1] == last[i - h.len()]);
                }
            }
        }
    }
}

proof fn lemma_no_gap(s: Seq<char>)
    requires
        closed_groups(s),
    ensures
        gap(s) == s.len(),
    decreases s.len(),
{
    if s.len() >= 2 {
        assert(s[0] != ':' || s[0int + 1] != ':');
        let t = s.skip(1);
        assert forall|i: int| 0 <= i < t.len() - 1 implies t[i] != ':' || #[trigger] t[i + 1]
            != ':' by {
            let j = i + 1;
            assert(s[j] != ':' || s[j + 1] != ':');
        }
        lemma_no_gap(t);
    }
}

proof fn lemma_gap(s: Seq<char>, rest: Seq<char>)
    requires
        closed_groups(s),
    ensures
        gap(s + seq![':', ':'] + rest) == s.len(),
    decreases s.len(),
{
    let whole = s + seq![':', ':'] + rest;
    if s.len() > 0 {
        assert(whole[0] == s[0]);
        if s.len() == 1 {
            assert(s.last() == s[0]);
        } else {
            assert(whole[1] == s[0int + 1]);
        }
        let t = s.skip(1);
        assert forall|i: int| 0 <= i < t.len() - 1 implies t[i] != ':' || #[trigger] t[i + 1]
            != ':' by {
            let j = i + 1;
            assert(s[j] != ':' || s[j + 1] != ':');
        }
        lemma_gap(t, rest);
        assert(whole.skip(1) =~= t + seq![':', ':'] + rest);
    }
}

/// Segments in hexadecimal notation read back.
proof fn lemma_groups_read_back(s: Seq<u16>, v4: bool)
    ensures
        groups_of(groups_text(s), v4) == Some(s),
        closed_groups(groups_text(s)),
{
    let items = group_items(s);
    assert forall|i: int| 0 <= i < items.len() implies is_group(#[trigger] items[i]) && number(
        items[i],
        16,
    ) == s[i] as nat && lacks(items[i], ':') && lacks(items[i], '.') by {
        lemma_hex_group(s[i] as nat);
    }
    lemma_groups_text_closed(items);
    if s.len() == 0 {
        assert(s =~= seq![]);
    } else {
        lemma_pieces_of_joined(items, ':');
        lemma_one_piece(items.last(), '.');
        assert(items.map_values(|g: Seq<char>| number(g, 16) as u16) =~= s);
    }
}

/// The notation of eight segments, with a run of zeros left out, reads back.
proof fn lemma_compressed_reads_back(s: Seq<u16>)
    requires
        s.len() == 8,
    ensures
        segments_of(compressed_text(s)) == Some(s),
{
    let (start, len) = choose|start: int, len: int| #[trigger] longest_zero_run(s, start, len);
    lemma_compressed_run(s);
    if len > 1 {
        let head = s.take(start);
        let tail = s.skip(start + len);
        let t = compressed_text(s);
        lemma_groups_read_back(head, false);
        lemma_groups_read_back(tail, true);
        lemma_gap(groups_text(head), groups_text(tail));
        let g = groups_text(head).len() as int;
        assert(t.take(g) =~= groups_text(head));
        assert(t.skip(g + 2) =~= groups_text(tail));
        assert(head + zeros((8 - head.len() - tail.len()) as nat) + tail =~= s);
    } else {
        lemma_groups_read_back(s, true);
        lemma_no_gap(groups_text(s));
    }
}

/// What follows the two colons in the notation that shows a mapped IPv4 address.
proof fn lemma_mapped_groups(v4: Ipv4Addr)
    ensures
        groups_of(seq!['f', 'f', 'f', 'f', ':'] + v4.text(), true) == Some(
            seq![0xffffu16] + v4_groups(v4),
        ),
{
    ipv4_text_reads_back(v4);
    let ffff = seq!['f', 'f', 'f', 'f'];
    let rest = seq!['f', 'f', 'f', 'f', ':'] + v4.text();
    assert(rest =~= ffff.push(':') + v4.text());
    lemma_first_piece(ffff, ':', v4.text());
    lemma_one_piece(v4.text(), ':');
    let p = pieces(rest, ':');
    assert(p =~= seq![ffff, v4.text()]);
    let front = p.drop_last();
    assert(front =~= seq![ffff]);
    assert(is_group(front[0]));
    lemma_ffff();
    let numbers = front.map_values(|g: Seq<char>| number(g, 16) as u16);
    assert(numbers[0] == 0xffffu16);
    assert(numbers =~= seq![0xffffu16]);
    assert(plain_groups(front) == Some(numbers));
}

/// The segments of an address that maps an IPv4 address.
proof fn lemma_mapped_segments(a: Ipv6Addr)
    requires
        a.mapped() is Some,
    ensures
        a.segments() == zeros(5) + (seq![0xffffu16] + v4_groups(a.mapped()->0)),
{
    let v4 = a.mapped()->0;
    lemma_join_zeros(5);
    let hi = (v4.bits / 0x1_0000) as u16;
    let lo = (v4.bits % 0x1_0000) as u16;
    let s6 = zeros(5).push(0xffffu16);
    let s7 = s6.push(hi);
    let s8 = s7.push(lo);
    assert(s6.drop_last() =~= zeros(5));
    assert(s7.drop_last() =~= s6);
    assert(s8.drop_last() =~= s7);
    assert(join16(s6) == 0xffff);
    assert(join16(s7) == 0xffff * 0x1_0000 + hi);
    assert(join16(s8) == a.bits);
    lemma_split_join(s8);
    assert(zeros(5) + (seq![0xffffu16] + v4_groups(v4)) =~= s8);
}

/// The notation that shows a mapped IPv4 address reads back.
proof fn lemma_mapped_reads_back(a: Ipv6Addr)
    requires
        a.mapped() is Some,
    ensures
        segments_of(a.text()) == Some(a.segments()),
{
    let v4 = a.mapped()->0;
    let t = a.text();
    let rest = seq!['f', 'f', 'f', 'f', ':'] + v4.text();
    let tail = seq![0xffffu16] + v4_groups(v4);
    lemma_mapped_groups(v4);
    lemma_mapped_segments(a);
    assert(t[0] == ':' && t[1] == ':');
    assert(gap(t) == 0);
    assert(t.take(0) =~= seq![]);
    assert(t.skip(2) =~= rest);
    let none: Seq<u16> = seq![];
    assert(groups_of(t.take(0), false) == Some(none));
    assert(none + zeros(5) + tail =~= zeros(5) + tail);
}

proof fn lemma_ffff()
    ensures
        number(seq!['f', 'f', 'f', 'f'], 16) == 0xffff,
{
    let s = seq!['f', 'f', 'f', 'f'];
    assert(s.drop_last() =~= seq!['f', 'f', 'f']);
    assert(s.drop_last().drop_last() =~= seq!['f', 'f']);
    assert(s.drop_last().drop_last().drop_last() =~= seq!['f']);
    assert(s.drop_last().drop_last().drop_last().drop_last() =~= seq![]);
    reveal_with_fuel(number, 5);
}

proof fn lemma_join_zeros(n: nat)
    ensures
        join16(zeros(n)) == 0,
    decreases n,
{
    if n > 0 {
        lemma_join_zeros((n - 1) as nat);
        assert(zeros(n).drop_last() =~= zeros((n - 1) as nat));
    }
}

/// The text of an address reads back as that address.
pub proof fn ip_text_reads_back(ip: IpAddr)
    ensures
        ip_of(ip.text()) == Some(ip),
{
    match ip {
        IpAddr::V4(a) => {
            ipv4_text_reads_back(a);
        },
        IpAddr::V6(a) => {
            lemma_segments(a);
            match a.mapped() {
                Some(v4) => {
                    lemma_mapped_reads_back(a);
                },
                None => {
                    lemma_compressed_reads_back(a.segments());
                },
            }
            assert(ipv6_of(a.text()) == Some(a));
            lemma_ipv6_is_not_ipv4(a);
        },
    }
}

/// No colon stands in dotted decimal notation.
proof fn lemma_ipv4_has_no_colon(t: Seq<char>)
    requires
        ipv4_of(t) is Some,
    ensures
        lacks(t, ':'),
{
    let p = pieces(t, '.');
    assert forall|i: int| 0 <= i < t.len() implies t[i] != ':' by {
        if t[i] != '.' {
            lemma_in_some_piece(t, '.', i);
            let (k, j) = choose|k: int, j: int|
                0 <= k < p.len() && 0 <= j < p[k].len() && #[trigger] p[k][j] == t[i];
            assert(is_octet(p[k]));
            assert(digit_value(p[k][j], 10) is Some);
        }
    }
}

/// The text of an IPv6 address is no IPv4 address: a colon stands in it.
proof fn lemma_ipv6_is_not_ipv4(a: Ipv6Addr)
    ensures
        ipv4_of(a.text()) is None,
{
    let t = a.text();
    lemma_segments(a);
    if ipv4_of(t) is Some {
        lemma_ipv4_has_no_colon(t);
        if a.mapped() is Some {
            assert(t[0] == ':');
        } else {
            let s = a.segments();
            let (start, len) = choose|start: int, len: int| #[trigger]
                longest_zero_run(s, start, len);
            if len > 1 {
                assert(t[groups_text(s.take(start)).len() as int] == ':');
            } else {
                let items = group_items(s);
                let front = joined(items.drop_last(), seq![':']);
                assert(t =~= front + seq![':'] + items.last());
                assert(t[front.len() as int] == ':');
            }
        }
    }
}

/// The text of an IPv4 address is its four octets in decimal notation, highest first, with dots
/// between them.
pub proof fn ipv4_text_shows_the_octets(a: Ipv4Addr, o0: nat, o1: nat, o2: nat, o3: nat)
    requires
        o0 < 256,
        o1 < 256,
        o2 < 256,
        o3 < 256,
        a.bits == o0 * 0x100_0000 + o1 * 0x1_0000 + o2 * 0x100 + o3,
    ensures
        a.text() == joined(
            seq![decimal(o0), decimal(o1), decimal(o2), decimal(o3)],
            seq!['.'],
        ),
{
    lemma_octets(o0, o1, o2, o3);
    let (d0, d1, d2, d3) = (decimal(o0), decimal(o1), decimal(o2), decimal(o3));
    let dot = seq!['.'];
    joined_parts_are_joined(seq![d0], seq![d1], dot);
    joined_parts_are_joined(seq![d0, d1], seq![d2], dot);
    joined_parts_are_joined(seq![d0, d1, d2], seq![d3], dot);
    a_single_text_is_joined_as_it_is(d0, dot);
    a_single_text_is_joined_as_it_is(d1, dot);
    a_single_text_is_joined_as_it_is(d2, dot);
    a_single_text_is_joined_as_it_is(d3, dot);
    assert(seq![d0] + seq![d1] =~= seq![d0, d1]);
    assert(seq![d0, d1] + seq![d2] =~= seq![d0, d1, d2]);
    assert(seq![d0, d1, d2] + seq![d3] =~= seq![d0, d1, d2, d3]);
    assert(a.text() =~= d0 + dot + d1 + dot + d2 + dot + d3);
}

/// A text names an IPv4 address if and only if it is the text of that address.
pub proof fn ipv4_addresses_have_one_text(s: Seq<char>, a: Ipv4Addr)
    ensures
        ipv4_of(s) == Some(a) <==> s == a.text(),
{
    ipv4_text_reads_back(a);
    if ipv4_of(s) == Some(a) {
        let p = pieces(s, '.');
        pieces_make_up_the_text(s, '.');
        decimal_digits_are_a_numeral(p[0]);
        decimal_digits_are_a_numeral(p[1]);
        decimal_digits_are_a_numeral(p[2]);
        decimal_digits_are_a_numeral(p[3]);
        assert(p =~= seq![p[0], p[1], p[2], p[3]]);
        let (o0, o1, o2, o3) = (
            number(p[0], 10),
            number(p[1], 10),
            number(p[2], 10),
            number(p[3], 10),
        );
        ipv4_text_shows_the_octets(a, o0, o1, o2, o3);
    }
}

/// The network of an IPv4 address and a length holds the IPv4 addresses that share its first
/// bits: those that are the same once the other bits are taken off.
pub proof fn ipv4_networks_hold_what_shares_their_prefix(
    ip: Ipv4Addr,
    net: Ipv4Addr,
    len: nat,
)
    requires
        len <= 32,
    ensures
        in_subnet(IpAddr::V4(ip), net.text() + "/"@ + decimal(len)) <==> {
            let block = pow2((32 - len) as nat);
            ip.bits as nat - ip.bits as nat % block == net.bits as nat - net.bits as nat % block
        },
{
    let (a, b) = (ip.bits as nat, net.bits as nat);
    let block = pow2((32 - len) as nat);
    lemma_reads_as_network(IpAddr::V4(net), len);
    vstd::arithmetic::power2::lemma_pow2_pos((32 - len) as nat);
    lemma_same_block(a, b, block);
    if len == 32 {
        vstd::arithmetic::power2::lemma2_to64();
        assert(block == 1);
    }
}

/// The network of an IPv6 address and a length holds the IPv6 addresses that share its first
/// bits, but for those that map an IPv4 address.
pub proof fn ipv6_networks_hold_what_shares_their_prefix(
    ip: Ipv6Addr,
    net: Ipv6Addr,
    len: nat,
)
    requires
        len <= 128,
        ip.bits as nat / 0x1_0000_0000 != 0xffff,
    ensures
        in_subnet(IpAddr::V6(ip), net.text() + "/"@ + decimal(len)) <==> {
            let block = pow2((128 - len) as nat);
            ip.bits as nat - ip.bits as nat % block == net.bits as nat - net.bits as nat % block
        },
{
    let (a, b) = (ip.bits as nat, net.bits as nat);
    let block = pow2((128 - len) as nat);
    lemma_reads_as_network(IpAddr::V6(net), len);
    vstd::arithmetic::power2::lemma_pow2_pos((128 - len) as nat);
    lemma_same_block(a, b, block);
    if len == 128 {
        vstd::arithmetic::power2::lemma2_to64();
        assert(block == 1);
    }
}

proof fn lemma_same_block(a: nat, b: nat, block: nat)
    requires
        block > 0,
    ensures
        a / block == b / block <==> a - a % block == b - b % block,
{
    vstd::arithmetic::div_mod::lemma_fundamental_div_mod(a as int, block as int);
    vstd::arithmetic::div_mod::lemma_fundamental_div_mod(b as int, block as int);
    let (x, y) = ((a / block) as int, (b / block) as int);
    let n = block as int;
    if n * x == n * y {
        assert(x == y) by (nonlinear_arith)
            requires
                n * x == n * y,
                n > 0,
        ;
    }
}

/// No slash stands in the text of an address.
proof fn lemma_text_lacks_slash(ip: IpAddr)
    ensures
        lacks(ip.text(), '/'),
{
    match ip {
        IpAddr::V4(a) => {
            ipv4_text_reads_back(a);
        },
        IpAddr::V6(a) => {
            lemma_segments(a);
            match a.mapped() {
                Some(v4) => {
                    ipv4_text_reads_back(v4);
                    let t = a.text();
                    assert forall|i: int| 0 <= i < t.len() implies t[i] != '/' by {
                        if i >= 7 {
                            assert(t[i] == v4.text()[i - 7]);
                        }
                    }
                },
                None => {
                    let s = a.segments();
                    let (start, len) = choose|start: int, len: int| #[trigger]
                        longest_zero_run(s, start, len);
                    lemma_compressed_run(s);
                    lemma_groups_lack_slash(s);
                    if len > 1 {
                        lemma_groups_lack_slash(s.take(start));
                        lemma_groups_lack_slash(s.skip(start + len));
                        let (x, y) = (groups_text(s.take(start)), groups_text(s.skip(start + len)));
                        let t = a.text();
                        assert(t =~= x + seq![':', ':'] + y);
                        assert forall|i: int| 0 <= i < t.len() implies t[i] != '/' by {
                            if i < x.len() {
                                assert(t[i] == x[i]);
                            } else if i >= x.len() + 2 {
                                assert(t[i] == y[i - x.len() - 2]);
                            }
                        }
                    }
                },
            }
        },
    }
}

proof fn lemma_groups_lack_slash(s: Seq<u16>)
    ensures
        lacks(groups_text(s), '/'),
    decreases s.len(),
{
    let items = group_items(s);
    let sep = seq![':'];
    if s.len() > 0 {
        let n = s.last() as nat;
        lemma_numeral(n, 16);
        let last = numeral(n, 16);
        assert forall|i: int| 0 <= i < last.len() implies last[i] != '/' by {
            assert(digit_value(last[i], 16) is Some);
        }
        assert(items.last() == last);
        let front = s.drop_last();
        lemma_groups_lack_slash(front);
        assert(items.drop_last() =~= group_items(front));
        let t = groups_text(s);
        if s.len() > 1 {
            let x = groups_text(front);
            assert(t =~= x + sep + last);
            assert forall|i: int| 0 <= i < t.len() implies t[i] != '/' by {
                if i < x.len() {
                    assert(t[i] == x[i]);
                } else if i > x.len() {
                    assert(t[i] == last[i - x.len() - 1]);
                }
            }
        }
    }
}

/// An address, a slash and a length read as these two.
proof fn lemma_reads_as_network(net: IpAddr, len: nat)
    requires
        len <= u32::MAX,
    ensures
        pieces(net.text() + "/"@ + decimal(len), '/') == seq![net.text(), decimal(len)],
        ip_of(net.text()) == Some(net),
        whole_number(decimal(len), u32::MAX as nat) == Ok::<nat, ParseIntError>(len),
{
    reveal_strlit("/");
    lemma_text_lacks_slash(net);
    ip_text_reads_back(net);
    lemma_decimal_reads_back(len, u32::MAX as nat);
    lemma_numeral(len, 10);
    let digits = decimal(len);
    assert forall|i: int| 0 <= i < digits.len() implies digits[i] != '/' by {
        assert(digit_value(digits[i], 10) is Some);
    }
    lemma_one_piece(digits, '/');
    lemma_first_piece(net.text(), '/', digits);
    assert(net.text() + "/"@ + digits =~= net.text().push('/') + digits);
    assert(seq![net.text()] + seq![digits] =~= seq![net.text(), digits]);
}

/// A text without a slash, and one that no address or no number of bits stands in, names no
/// network. What family an address has counts; one that maps an IPv4 address counts as that one.
pub proof fn other_texts_name_no_network(ip: IpAddr, net: Seq<char>, len: Seq<char>)
    requires
        lacks(net, '/'),
        lacks(len, '/'),
    ensures
        !in_subnet(ip, net),
        ip_of(net) is None || whole_number(len, u32::MAX as nat) is Err ==> !in_subnet(
            ip,
            net.push('/') + len,
        ),
        (ip.canonical() is V4) != (ip_of(net) matches Some(IpAddr::V4(_))) ==> !in_subnet(
            ip,
            net.push('/') + len,
        ),
        in_subnet(ip, net.push('/') + len) == in_subnet(ip.canonical(), net.push('/') + len),
{
    lemma_one_piece(net, '/');
    lemma_one_piece(len, '/');
    lemma_first_piece(net, '/', len);
    let p = pieces(net.push('/') + len, '/');
    assert(p =~= seq![net, len]);
    assert(ip.canonical().canonical() == ip.canonical());
}

/// An address maps an IPv4 address if and only if its first 80 bits are zero and the next 16 are
/// one; the IPv4 address is in the last 32.
pub proof fn mapped_addresses(bits: u128, v4: Ipv4Addr)
    ensures
        IpAddr::V6(Ipv6Addr { bits }).canonical() == IpAddr::V4(v4) <==> bits == 0xffff_0000_0000
            + v4.bits,
        IpAddr::V4(v4).canonical() == IpAddr::V4(v4),
        IpAddr::V6(Ipv6Addr { bits }).canonical() is V6 ==> IpAddr::V6(
            Ipv6Addr { bits },
        ).canonical() == IpAddr::V6(Ipv6Addr { bits }),
{
    let n = bits as nat;
    if n == 0xffff_0000_0000 + v4.bits {
        assert(n / 0x1_0000_0000 == 0xffff);
        assert(n % 0x1_0000_0000 == v4.bits);
    }
}

/// The addresses that are taken for local ones are those of these networks: loopback, private
/// and link-local addresses, and the range for benchmarks.
pub proof fn local_addresses_by_their_networks(a: Ipv4Addr, b: Ipv6Addr)
    ensures
        local(IpAddr::V4(a)) <==> {
            let n = a.bits as nat;
            ||| 0x7f00_0000 <= n <= 0x7fff_ffff
            ||| 0x0a00_0000 <= n <= 0x0aff_ffff
            ||| 0xac10_0000 <= n <= 0xac1f_ffff
            ||| 0xc0a8_0000 <= n <= 0xc0a8_ffff
            ||| 0xa9fe_0000 <= n <= 0xa9fe_ffff
            ||| 0xc612_0000 <= n <= 0xc613_ffff
        },
        local(IpAddr::V6(b)) <==> {
            let n = b.bits as nat;
            ||| n == 1
            ||| 0xfc00_0000_0000_0000_0000_0000_0000_0000 <= n
                <= 0xfdff_ffff_ffff_ffff_ffff_ffff_ffff_ffff
            ||| 0xfe80_0000_0000_0000_0000_0000_0000_0000 <= n
                <= 0xfebf_ffff_ffff_ffff_ffff_ffff_ffff_ffff
        },
{
    lemma_ipv4_bits(a);
    let n = b.bits as nat;
    let q = n / 0x1_0000_0000_0000_0000_0000_0000_0000;
    let r = n % 0x1_0000_0000_0000_0000_0000_0000_0000;
    assert(n == q * 0x1_0000_0000_0000_0000_0000_0000_0000 + r);
    assert(r < 0x1_0000_0000_0000_0000_0000_0000_0000);
}

/// Of two addresses one stands before the other, or they are the same; IPv4 addresses stand
/// before IPv6 addresses, and lower ones before higher ones; what stands before one stands before
/// those behind it.
pub proof fn addresses_have_an_order(a: IpAddr, b: IpAddr, c: IpAddr)
    ensures
        a == b || a.before(b) || b.before(a),
        !(a.before(b) && b.before(a)),
        !a.before(a),
        a.before(b) && b.before(c) ==> a.before(c),
        a is V4 && b is V6 ==> a.before(b),
        a matches IpAddr::V4(x) && b matches IpAddr::V4(y) && x.bits < y.bits ==> a.before(b),
        a matches IpAddr::V6(x) && b matches IpAddr::V6(y) && x.bits < y.bits ==> a.before(b),
{
}

/// Whether each text is one to four hexadecimal digits.
pub open spec fn are_groups(p: Seq<Seq<char>>) -> bool {
    forall|i: int| 0 <= i < p.len() ==> 1 <= (#[trigger] p[i]).len() <= 4 && all_digits(p[i], 16)
}

/// The numbers that groups of hexadecimal digits stand for.
pub open spec fn group_numbers(p: Seq<Seq<char>>) -> Seq<u16> {
    p.map_values(|g: Seq<char>| number(g, 16) as u16)
}

proof fn lemma_groups_are_read(p: Seq<Seq<char>>, v4: bool)
    requires
        are_groups(p),
    ensures
        groups_of(joined(p, seq![':']), v4) == Some(group_numbers(p)),
        closed_groups(joined(p, seq![':'])),
{
    assert forall|i: int| 0 <= i < p.len() implies (#[trigger] p[i]).len() > 0 && lacks(p[i], ':')
        && lacks(p[i], '.') by {
        assert forall|j: int| 0 <= j < p[i].len() implies p[i][j] != ':' && p[i][j] != '.' by {
            assert(digit_value(p[i][j], 16) is Some);
        }
    }
    lemma_groups_text_closed(p);
    if p.len() == 0 {
        assert(group_numbers(p) =~= seq![]);
    } else {
        lemma_pieces_of_joined(p, ':');
        let last = p[p.len() - 1];
        lemma_one_piece(last, '.');
        assert forall|i: int| 0 <= i < p.len() implies #[trigger] is_group(p[i]) by {}
    }
}

/// Eight groups of hexadecimal digits with colons between them name the address whose segments
/// they stand for. Another number of groups names none.
pub proof fn eight_groups_name_an_ipv6_address(p: Seq<Seq<char>>)
    requires
        are_groups(p),
        p.len() > 0,
    ensures
        segments_of(joined(p, seq![':'])) == if p.len() == 8 {
            Some(group_numbers(p))
        } else {
            None
        },
{
    lemma_groups_are_read(p, true);
    lemma_no_gap(joined(p, seq![':']));
}

/// Two colons between groups of hexadecimal digits stand for the zeros that are missing. Where
/// none is missing, the text names no address.
pub proof fn two_colons_stand_for_missing_zeros(head: Seq<Seq<char>>, tail: Seq<Seq<char>>)
    requires
        are_groups(head),
        are_groups(tail),
    ensures
        ({
            let missing = 8 - head.len() - tail.len();
            segments_of(joined(head, seq![':']) + seq![':', ':'] + joined(tail, seq![':'])) == if missing
                >= 1 {
                Some(
                    group_numbers(head) + Seq::new(missing as nat, |i: int| 0u16) + group_numbers(
                        tail,
                    ),
                )
            } else {
                None
            }
        }),
{
    let (a, b) = (joined(head, seq![':']), joined(tail, seq![':']));
    lemma_groups_are_read(head, false);
    lemma_groups_are_read(tail, true);
    lemma_gap(a, b);
    let t = a + seq![':', ':'] + b;
    let g = a.len() as int;
    assert(t.take(g) =~= a);
    assert(t.skip(g + 2) =~= b);
    let missing = 8 - head.len() - tail.len();
    if missing >= 1 {
        assert(zeros(missing as nat) =~= Seq::new(missing as nat, |i: int| 0u16));
    }
}

/// The segments of an address make it up, the first one highest.
pub proof fn segments_make_up_the_address(s: Seq<char>, g: Seq<u16>, x: u16)
    ensures
        ipv6_of(s) is Some <==> segments_of(s) is Some,
        segments_of(s) matches Some(all) ==> ipv6_of(s) == Some(
            Ipv6Addr { bits: join16(all) as u128 },
        ),
        join16(seq![]) == 0,
        join16(g.push(x)) == join16(g) * 0x1_0000 + x,
        ip_of(s) == match (ipv4_of(s), ipv6_of(s)) {
            (Some(a), _) => Some(IpAddr::V4(a)),
            (None, Some(a)) => Some(IpAddr::V6(a)),
            (None, None) => None,
        },
{
    assert(g.push(x).drop_last() =~= g);
}

/// Whether segments from `start` on, `len` of them and at least one, are zero.
pub open spec fn all_zero(s: Seq<u16>, start: int, len: int) -> bool {
    0 <= start && 0 < len && start + len <= s.len() && forall|i: int|
        start <= i < start + len ==> #[trigger] s[i] == 0
}

/// In the notation of an IPv6 address two colons stand for the longest run of zero segments, and
/// for the first one of several; a single zero segment is written out.
pub proof fn the_longest_zeros_are_left_out(a: Ipv6Addr, start: int, len: int)
    requires
        a.mapped() is None,
        all_zero(a.segments(), start, len),
        forall|b: int, n: int| #[trigger]
            all_zero(a.segments(), b, n) ==> n < len || (n == len && start <= b),
    ensures
        ({
            let s = a.segments();
            a.text() == if len > 1 {
                groups_text(s.take(start)) + seq![':', ':'] + groups_text(s.skip(start + len))
            } else {
                groups_text(s)
            }
        }),
{
    let s = a.segments();
    assert forall|b: int, n: int| #[trigger] zero_run(s, b, n) && n > 0 implies n < len || (n == len
        && start <= b) by {
        assert(all_zero(s, b, n));
    }
    assert(longest_zero_run(s, start, len));
    let (b, n) = choose|start: int, len: int| #[trigger] longest_zero_run(s, start, len);
    lemma_longest_unique(s, start, len, b, n);
}

/// An IPv6 address without a zero segment is its eight segments.
pub proof fn without_zeros_all_segments_are_written(a: Ipv6Addr)
    requires
        a.mapped() is None,
        forall|i: int| 0 <= i < 8 ==> #[trigger] a.segments()[i] != 0,
        a.segments().len() == 8,
    ensures
        a.text() == groups_text(a.segments()),
{
    let s = a.segments();
    lemma_compressed_run(s);
    let (b, n) = choose|start: int, len: int| #[trigger] longest_zero_run(s, start, len);
    if n > 0 {
        assert(s[b] == 0);
    }
}

/// Segments are written as hexadecimal numerals with colons between them.
pub proof fn segments_are_hexadecimal_numerals(s: Seq<u16>, g: u16)
    ensures
        groups_text(seq![g]) == numeral(g as nat, 16),
        s.len() > 0 ==> groups_text(s.push(g)) == groups_text(s) + seq![':'] + numeral(
            g as nat,
            16,
        ),
{
    let f = |g: u16| numeral(g as nat, 16);
    assert(seq![g].map_values(f) =~= seq![numeral(g as nat, 16)]);
    let items = s.push(g).map_values(f);
    assert(items.drop_last() =~= s.map_values(f));
    assert(items.last() == numeral(g as nat, 16));
}

/// An address that maps an IPv4 address shows the latter in dotted decimal notation.
pub proof fn mapped_addresses_show_ipv4(a: Ipv6Addr, v4: Ipv4Addr)
    requires
        a.bits as nat == 0xffff_0000_0000 + v4.bits as nat,
    ensures
        a.text() == "::ffff:"@ + v4.text(),
{
    reveal_strlit("::ffff:");
    let n = a.bits as nat;
    vstd::arithmetic::div_mod::lemma_fundamental_div_mod_converse(
        n as int,
        0x1_0000_0000,
        0xffff,
        v4.bits as int,
    );
    assert(a.mapped() == Some(v4));
    assert("::ffff:"@ =~= seq![':', ':', 'f', 'f', 'f', 'f', ':']);
}

/// An IPv4 address in dotted decimal notation may stand for the last two of eight groups.
pub proof fn an_ipv4_address_may_end_an_ipv6_address(p: Seq<Seq<char>>, v4: Ipv4Addr)
    requires
        are_groups(p),
        p.len() > 0,
    ensures
        ({
            let s = joined(p, seq![':']) + seq![':'] + v4.text();
            let last = seq![(v4.bits / 0x1_0000) as u16, (v4.bits % 0x1_0000) as u16];
            segments_of(s) == if p.len() == 6 {
                Some(group_numbers(p) + last)
            } else {
                None
            }
        }),
{
    let colon = seq![':'];
    let t = v4.text();
    let s = joined(p, colon) + colon + t;
    ipv4_text_reads_back(v4);
    lemma_ipv4_has_no_colon(t);
    lemma_groups_are_read(p, false);
    let all = p.push(t);
    assert(all.drop_last() =~= p);
    assert(joined(all, colon) =~= s);
    assert forall|i: int| 0 <= i < all.len() implies (#[trigger] all[i]).len() > 0 && lacks(
        all[i],
        ':',
    ) by {
        if i < p.len() {
            assert(all[i] == p[i]);
            assert forall|j: int| 0 <= j < p[i].len() implies p[i][j] != ':' by {
                assert(digit_value(p[i][j], 16) is Some);
            }
        }
    }
    lemma_pieces_of_joined(all, ':');
    assert forall|i: int| 0 <= i < p.len() implies #[trigger] is_group(p[i]) by {}
    assert(pieces(s, ':') == all);
    assert(groups_of(s, true) == Some(group_numbers(p) + v4_groups(v4)));
    lemma_groups_text_closed(all);
    lemma_no_gap(s);
}

/// Whether texts can stand between colons: none is empty, and no colon stands in one.
pub open spec fn between_colons(p: Seq<Seq<char>>) -> bool {
    forall|i: int| 0 <= i < p.len() ==> (#[trigger] p[i]).len() > 0 && lacks(p[i], ':')
}

/// Whether a text is one to four hexadecimal digits.
pub open spec fn is_hexadecimal_group(s: Seq<char>) -> bool {
    1 <= s.len() <= 4 && all_digits(s, 16)
}

/// A text between colons that is no group of one to four hexadecimal digits names no segment:
/// with it, and without a dot, the whole names no IPv6 address. Before two colons nothing but
/// groups may stand, an IPv4 address neither.
pub proof fn other_groups_name_no_ipv6_address(
    p: Seq<Seq<char>>,
    tail: Seq<Seq<char>>,
    k: int,
)
    requires
        between_colons(p),
        between_colons(tail),
        0 <= k < p.len(),
        !is_hexadecimal_group(p[k]),
    ensures
        (forall|i: int| 0 <= i < p.len() ==> lacks(#[trigger] p[i], '.')) ==> segments_of(
            joined(p, seq![':']),
        ) is None,
        segments_of(joined(p, seq![':']) + seq![':', ':'] + joined(tail, seq![':'])) is None,
{
    let (a, b) = (joined(p, seq![':']), joined(tail, seq![':']));
    lemma_groups_text_closed(p);
    lemma_pieces_of_joined(p, ':');
    assert(!is_group(p[k]));
    assert(plain_groups(p) is None);
    let last = p[p.len() - 1];
    if forall|i: int| 0 <= i < p.len() ==> lacks(#[trigger] p[i], '.') {
        lemma_no_gap(a);
        lemma_one_piece(last, '.');
        assert(ipv4_of(p.last()) is None);
        assert(groups_of(a, true) is None);
    }
    lemma_gap(a, b);
    let t = a + seq![':', ':'] + b;
    assert(t.take(a.len() as int) =~= a);
}

/// A network whose length is that of an address, or above it, holds its address alone.
pub proof fn longer_networks_hold_one_address(
    ip: IpAddr,
    a: Ipv4Addr,
    b: Ipv6Addr,
    len: nat,
)
    requires
        len <= u32::MAX,
    ensures
        len >= 32 ==> (in_subnet(ip, a.text() + "/"@ + decimal(len)) <==> ip.canonical()
            == IpAddr::V4(a)),
        len >= 128 ==> (in_subnet(ip, b.text() + "/"@ + decimal(len)) <==> ip.canonical()
            == IpAddr::V6(b)),
{
    lemma_reads_as_network(IpAddr::V4(a), len);
    lemma_reads_as_network(IpAddr::V6(b), len);
}

} // verus!
