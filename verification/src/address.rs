//! Internet addresses in their usual text forms: dotted decimal for
//! version 4, colon-separated hexadecimal groups for version 6.

use crate::text::{
    all_digits, chars_of, decimal_text, digits_only, digits_value, is_digit,
    lemma_decimal_text_reads_back, lemma_split_first, lemma_split_one, push_decimal, read_digits,
    split, split_chars, Order,
};
use vstd::prelude::*;
use vstd::string::StringExecFns;

verus! {

/// A version 4 address: four octets, the first one first.
#[derive(Clone, Copy, Debug)]
pub struct Ipv4Address {
    pub octets: [u8; 4],
}

impl View for Ipv4Address {
    type V = Seq<u8>;

    open spec fn view(&self) -> Seq<u8> {
        self.octets@
    }
}

/// What a text reads as one octet: one to three digits, without a leading
/// zero unless it is the only digit, and at most 255.
pub open spec fn octet_spec(s: Seq<char>) -> Option<u8> {
    if 1 <= s.len() <= 3 && all_digits(s) && (s.len() > 1 ==> s[0] != '0') && digits_value(s)
        <= 255 {
        Some(digits_value(s) as u8)
    } else {
        None
    }
}

/// What a text reads as a version 4 address: four octets with points
/// between them.
pub open spec fn parse_ipv4_spec(s: Seq<char>) -> Option<Seq<u8>> {
    let p = split(s, '.');
    if p.len() == 4 && octet_spec(p[0]) is Some && octet_spec(p[1]) is Some && octet_spec(p[2])
        is Some && octet_spec(p[3]) is Some {
        Some(
            seq![
                octet_spec(p[0])->0,
                octet_spec(p[1])->0,
                octet_spec(p[2])->0,
                octet_spec(p[3])->0,
            ],
        )
    } else {
        None
    }
}

/// A version 4 address written out.
pub open spec fn ipv4_shown(a: Seq<u8>) -> Seq<char> {
    decimal_text(a[0] as nat) + seq!['.'] + decimal_text(a[1] as nat) + seq!['.'] + decimal_text(
        a[2] as nat,
    ) + seq!['.'] + decimal_text(a[3] as nat)
}

/// Order of two rows of octets from place `k` on: the first place where
/// they differ decides.
pub open spec fn octets_order(a: Seq<u8>, b: Seq<u8>, k: int) -> Order
    decreases a.len() - k,
{
    if k < 0 || k >= a.len() {
        Order::Equal
    } else if a[k] < b[k] {
        Order::Less
    } else if a[k] > b[k] {
        Order::Greater
    } else {
        octets_order(a, b, k + 1)
    }
}

/// Two rows of octets of one length are equal in order exactly when they
/// agree from `k` on.
pub proof fn lemma_octets_order_equal(a: Seq<u8>, b: Seq<u8>, k: int)
    requires
        a.len() == b.len(),
        0 <= k <= a.len(),
    ensures
        octets_order(a, b, k) == Order::Equal <==> a.skip(k) == b.skip(k),
    decreases a.len() - k,
{
    if k < a.len() {
        lemma_octets_order_equal(a, b, k + 1);
        assert(a.skip(k)[0] == a[k] && b.skip(k)[0] == b[k]);
        if a.skip(k + 1) == b.skip(k + 1) && a[k] == b[k] {
            assert(a.skip(k) =~= seq![a[k]] + a.skip(k + 1));
            assert(b.skip(k) =~= seq![b[k]] + b.skip(k + 1));
        }
        if a.skip(k) == b.skip(k) {
            assert(a.skip(k + 1) =~= a.skip(k).skip(1));
            assert(b.skip(k + 1) =~= b.skip(k).skip(1));
        }
    } else {
        assert(a.skip(k) =~= b.skip(k));
    }
}

/// The text of a number below 256 reads as that octet.
pub proof fn lemma_octet_reads_back(n: u8)
    ensures
        octet_spec(decimal_text(n as nat)) == Some(n),
        forall|i: int| 0 <= i < decimal_text(n as nat).len() ==> decimal_text(n as nat)[i] != '.',
{
    let t = decimal_text(n as nat);
    lemma_decimal_text_reads_back(n as nat);
    lemma_decimal_text_reads_back((n / 10) as nat);
    lemma_decimal_text_reads_back((n / 100) as nat);
    reveal_with_fuel(decimal_text, 3);
    assert(t.len() <= 3);
    assert forall|i: int| 0 <= i < t.len() implies t[i] != '.' by {
        assert(is_digit(t[i]));
    }
}

/// A version 4 address reads back from what it shows.
pub proof fn lemma_ipv4_shown_reads_back(a: Seq<u8>)
    requires
        a.len() == 4,
    ensures
        parse_ipv4_spec(ipv4_shown(a)) == Some(a),
{
    let t0 = decimal_text(a[0] as nat);
    let t1 = decimal_text(a[1] as nat);
    let t2 = decimal_text(a[2] as nat);
    let t3 = decimal_text(a[3] as nat);
    lemma_octet_reads_back(a[0]);
    lemma_octet_reads_back(a[1]);
    lemma_octet_reads_back(a[2]);
    lemma_octet_reads_back(a[3]);
    let r2 = t2 + seq!['.'] + t3;
    let r1 = t1 + seq!['.'] + r2;
    assert(ipv4_shown(a) =~= t0 + seq!['.'] + r1);
    lemma_split_first(t0, r1, '.');
    lemma_split_first(t1, r2, '.');
    lemma_split_first(t2, t3, '.');
    lemma_split_one(t3, '.');
    let p = split(ipv4_shown(a), '.');
    assert(p =~= seq![t0, t1, t2, t3]);
    assert(parse_ipv4_spec(ipv4_shown(a))->0 =~= a);
}

/// Reads one octet from `chars[from..to]`.
fn read_octet(chars: &Vec<char>, from: usize, to: usize) -> (r: Option<u8>)
    requires
        from <= to <= chars.len(),
    ensures
        r == octet_spec(chars@.subrange(from as int, to as int)),
{
    let ghost run = chars@.subrange(from as int, to as int);
    if to - from < 1 || to - from > 3 {
        return None;
    }
    if !digits_only(chars, from, to) {
        return None;
    }
    assert(run[0] == chars@[from as int]);
    if to - from > 1 && chars[from] == '0' {
        return None;
    }
    match read_digits(chars, from, to) {
        Some(v) => if v <= 255 {
            Some(v as u8)
        } else {
            None
        },
        None => None,
    }
}

impl Ipv4Address {
    /// Reads a version 4 address from a text.
    pub fn parse(s: &str) -> (r: Option<Ipv4Address>)
        ensures
            match r {
                Some(a) => parse_ipv4_spec(s@) == Some(a@),
                None => parse_ipv4_spec(s@) is None,
            },
    {
        let chars = chars_of(s);
        let n = chars.len();
        assert(chars@.subrange(0, n as int) =~= s@);
        let pieces = split_chars(&chars, 0, n, '.');
        if pieces.len() != 4 {
            return None;
        }
        let a = read_octet(&chars, pieces[0].0, pieces[0].1);
        let b = read_octet(&chars, pieces[1].0, pieces[1].1);
        let c = read_octet(&chars, pieces[2].0, pieces[2].1);
        let d = read_octet(&chars, pieces[3].0, pieces[3].1);
        match (a, b, c, d) {
            (Some(a), Some(b), Some(c), Some(d)) => {
                let r = Ipv4Address { octets: [a, b, c, d] };
                assert(r@ =~= seq![a, b, c, d]);
                Some(r)
            },
            _ => None,
        }
    }

    /// Writes the address out in dotted decimal.
    pub fn show(&self) -> (r: String)
        ensures
            r@ == ipv4_shown(self@),
    {
        let mut out = String::new();
        proof {
            reveal_strlit(".");
        }
        push_decimal(self.octets[0] as u64, &mut out);
        out.append(".");
        push_decimal(self.octets[1] as u64, &mut out);
        out.append(".");
        push_decimal(self.octets[2] as u64, &mut out);
        out.append(".");
        push_decimal(self.octets[3] as u64, &mut out);
        assert(out@ =~= ipv4_shown(self@));
        out
    }

    /// Compares two addresses octet by octet.
    pub fn compare(&self, other: &Ipv4Address) -> (r: Order)
        ensures
            r == octets_order(self@, other@, 0),
    {
        let mut k: usize = 0;
        while k < 4
            invariant
                k <= 4,
                octets_order(self@, other@, 0) == octets_order(self@, other@, k as int),
            decreases 4 - k,
        {
            let x = self.octets[k];
            let y = other.octets[k];
            if x < y {
                return Order::Less;
            }
            if x > y {
                return Order::Greater;
            }
            k += 1;
        }
        Order::Equal
    }
}

/// A version 6 address: eight groups of sixteen bits, the first one first.
#[derive(Clone, Copy, Debug)]
pub struct Ipv6Address {
    pub groups: [u16; 8],
}

impl View for Ipv6Address {
    type V = Seq<u16>;

    open spec fn view(&self) -> Seq<u16> {
        self.groups@
    }
}

/// Whether `c` is a hexadecimal digit, in either case.
pub open spec fn is_hex(c: char) -> bool {
    is_digit(c) || ('a' <= c && c <= 'f') || ('A' <= c && c <= 'F')
}

/// Whether `s` is made of hexadecimal digits only.
pub open spec fn all_hex(s: Seq<char>) -> bool {
    forall|i: int| 0 <= i < s.len() ==> is_hex(#[trigger] s[i])
}

/// The number that the hexadecimal digit `c` stands for.
pub open spec fn hex_digit_value(c: char) -> nat {
    if is_digit(c) {
        (c as u32 - '0' as u32) as nat
    } else if 'a' <= c && c <= 'f' {
        (c as u32 - 'a' as u32 + 10) as nat
    } else {
        (c as u32 - 'A' as u32 + 10) as nat
    }
}

/// The lower-case hexadecimal digit that stands for `d`, for `d` below 16.
pub open spec fn hex_char(d: nat) -> char {
    if d < 10 {
        crate::text::digit_char(d)
    } else if d == 10 {
        'a'
    } else if d == 11 {
        'b'
    } else if d == 12 {
        'c'
    } else if d == 13 {
        'd'
    } else if d == 14 {
        'e'
    } else {
        'f'
    }
}

/// The number that a run of hexadecimal digits spells; 0 for the empty run.
pub open spec fn hex_value(s: Seq<char>) -> nat
    decreases s.len(),
{
    if s.len() == 0 {
        0
    } else {
        hex_value(s.drop_last()) * 16 + hex_digit_value(s.last())
    }
}

/// The shortest run of lower-case hexadecimal digits that spells `n`.
pub open spec fn hex_text(n: nat) -> Seq<char>
    decreases n,
{
    if n < 16 {
        seq![hex_char(n)]
    } else {
        hex_text(n / 16).push(hex_char(n % 16))
    }
}

/// What a text reads as one group: one to four hexadecimal digits.
pub open spec fn group_spec(s: Seq<char>) -> Option<u16> {
    if 1 <= s.len() <= 4 && all_hex(s) {
        Some(hex_value(s) as u16)
    } else {
        None
    }
}

/// Whether every piece reads as a group.
pub open spec fn all_groups(p: Seq<Seq<char>>) -> bool {
    forall|i: int| 0 <= i < p.len() ==> group_spec(#[trigger] p[i]) is Some
}

/// The groups that the pieces read as.
pub open spec fn groups_of(p: Seq<Seq<char>>) -> Seq<u16> {
    Seq::new(p.len(), |i: int| group_spec(p[i])->0)
}

/// The place of the first empty piece, or the number of pieces where none
/// is empty.
pub open spec fn first_empty(p: Seq<Seq<char>>) -> int
    decreases p.len(),
{
    if p.len() == 0 {
        0
    } else if p[0].len() == 0 {
        0
    } else {
        1 + first_empty(p.skip(1))
    }
}

/// What a text reads as a version 6 address. Either eight groups with
/// colons between them; or fewer, with `::` once in place of one or more
/// groups of zero, at the start, at the end or between two groups.
pub open spec fn parse_ipv6_spec(s: Seq<char>) -> Option<Seq<u16>> {
    let p = split(s, ':');
    let n = p.len() as int;
    let lead = n >= 3 && p[0].len() == 0 && p[1].len() == 0;
    let trail = n >= 3 && p[n - 1].len() == 0 && p[n - 2].len() == 0;
    let r = p.subrange(
        if lead {
            1
        } else {
            0
        },
        if trail {
            n - 1
        } else {
            n
        },
    );
    let gap = first_empty(r);
    if (p[0].len() == 0 && !lead) || (p[n - 1].len() == 0 && !trail) {
        None
    } else if gap >= r.len() {
        if r.len() == 8 && all_groups(r) {
            Some(groups_of(r))
        } else {
            None
        }
    } else if r.len() <= 8 && all_groups(r.take(gap)) && all_groups(r.skip(gap + 1)) {
        Some(
            groups_of(r.take(gap)) + Seq::new((9 - r.len()) as nat, |i: int| 0u16) + groups_of(
                r.skip(gap + 1),
            ),
        )
    } else {
        None
    }
}

/// The groups from place `k` on written out in full, with colons between
/// them.
pub open spec fn groups_shown(a: Seq<u16>, k: int) -> Seq<char>
    decreases a.len() - k,
{
    if k < 0 || k >= a.len() {
        Seq::<char>::empty()
    } else if k == a.len() - 1 {
        hex_text(a[k] as nat)
    } else {
        hex_text(a[k] as nat) + seq![':'] + groups_shown(a, k + 1)
    }
}

/// A version 6 address written out: all eight groups, none left out.
pub open spec fn ipv6_shown(a: Seq<u16>) -> Seq<char> {
    groups_shown(a, 0)
}

/// Order of two rows of groups from place `k` on: the first place where
/// they differ decides.
pub open spec fn groups_order(a: Seq<u16>, b: Seq<u16>, k: int) -> Order
    decreases a.len() - k,
{
    if k < 0 || k >= a.len() {
        Order::Equal
    } else if a[k] < b[k] {
        Order::Less
    } else if a[k] > b[k] {
        Order::Greater
    } else {
        groups_order(a, b, k + 1)
    }
}

/// Two rows of groups of one length are equal in order exactly when they
/// agree from `k` on.
pub proof fn lemma_groups_order_equal(a: Seq<u16>, b: Seq<u16>, k: int)
    requires
        a.len() == b.len(),
        0 <= k <= a.len(),
    ensures
        groups_order(a, b, k) == Order::Equal <==> a.skip(k) == b.skip(k),
    decreases a.len() - k,
{
    if k < a.len() {
        lemma_groups_order_equal(a, b, k + 1);
        assert(a.skip(k)[0] == a[k] && b.skip(k)[0] == b[k]);
        if a.skip(k + 1) == b.skip(k + 1) && a[k] == b[k] {
            assert(a.skip(k) =~= seq![a[k]] + a.skip(k + 1));
            assert(b.skip(k) =~= seq![b[k]] + b.skip(k + 1));
        }
        if a.skip(k) == b.skip(k) {
            assert(a.skip(k + 1) =~= a.skip(k).skip(1));
            assert(b.skip(k + 1) =~= b.skip(k).skip(1));
        }
    } else {
        assert(a.skip(k) =~= b.skip(k));
    }
}

/// A run of hexadecimal digits spells less than 16 to the power of its
/// length, so up to four digits fit sixteen bits.
pub proof fn lemma_hex_value_bound(s: Seq<char>)
    requires
        all_hex(s),
        s.len() <= 4,
    ensures
        s.len() == 0 ==> hex_value(s) == 0,
        s.len() == 1 ==> hex_value(s) < 16,
        s.len() == 2 ==> hex_value(s) < 256,
        s.len() == 3 ==> hex_value(s) < 4096,
        s.len() == 4 ==> hex_value(s) < 65536,
    decreases s.len(),
{
    if s.len() > 0 {
        let t = s.drop_last();
        assert forall|i: int| 0 <= i < t.len() implies is_hex(#[trigger] t[i]) by {
            assert(t[i] == s[i]);
        }
        lemma_hex_value_bound(t);
        assert(is_hex(s.last()));
    }
}

/// Where the first empty piece is found, `first_empty` points.
pub proof fn lemma_first_empty_found(p: Seq<Seq<char>>, k: int)
    requires
        0 <= k <= p.len(),
        forall|i: int| 0 <= i < k ==> (#[trigger] p[i]).len() != 0,
        k < p.len() ==> p[k].len() == 0,
    ensures
        first_empty(p) == k,
    decreases p.len(),
{
    if p.len() > 0 && p[0].len() != 0 {
        assert forall|i: int| 0 <= i < k - 1 implies (#[trigger] p.skip(1)[i]).len() != 0 by {
            assert(p.skip(1)[i] == p[i + 1]);
        }
        lemma_first_empty_found(p.skip(1), k - 1);
    }
}

/// The value of one hexadecimal digit, if `c` is one.
fn hex_digit(c: char) -> (r: Option<u32>)
    ensures
        r is Some <==> is_hex(c),
        r matches Some(v) ==> v == hex_digit_value(c) && v < 16,
{
    if c >= '0' && c <= '9' {
        Some(c as u32 - '0' as u32)
    } else if c >= 'a' && c <= 'f' {
        Some(c as u32 - 'a' as u32 + 10)
    } else if c >= 'A' && c <= 'F' {
        Some(c as u32 - 'A' as u32 + 10)
    } else {
        None
    }
}

/// Reads one group from `chars[from..to]`.
fn read_group(chars: &Vec<char>, from: usize, to: usize) -> (r: Option<u16>)
    requires
        from <= to <= chars.len(),
    ensures
        r == group_spec(chars@.subrange(from as int, to as int)),
{
    let ghost run = chars@.subrange(from as int, to as int);
    if to - from < 1 || to - from > 4 {
        return None;
    }
    let mut acc: u32 = 0;
    let mut i: usize = from;
    while i < to
        invariant
            from <= i <= to <= chars.len(),
            to - from <= 4,
            run == chars@.subrange(from as int, to as int),
            all_hex(run.take(i - from)),
            acc == hex_value(run.take(i - from)),
            acc < 65536,
        decreases to - i,
    {
        let c = chars[i];
        assert(run[i - from] == c);
        match hex_digit(c) {
            Some(d) => {
                proof {
                    let next = run.take(i - from + 1);
                    assert(next.drop_last() =~= run.take(i - from));
                    assert(next.last() == c);
                    assert forall|k: int| 0 <= k < next.len() implies is_hex(
                        #[trigger] next[k],
                    ) by {
                        if k < i - from {
                            assert(run.take(i - from)[k] == next[k]);
                        }
                    }
                    lemma_hex_value_bound(run.take(i - from));
                    lemma_hex_value_bound(next);
                }
                acc = acc * 16 + d;
            },
            None => {
                assert(!is_hex(run[i - from]));
                return None;
            },
        }
        i += 1;
    }
    assert(run.take(to - from) =~= run);
    Some(acc as u16)
}

/// The texts of `pieces[from..to]`, each a stretch of `chars`.
pub open spec fn piece_texts(chars: Seq<char>, pieces: Seq<(usize, usize)>, from: int, to: int) -> Seq<
    Seq<char>,
> {
    Seq::new((to - from) as nat, |i: int| chars.subrange(pieces[from + i].0 as int, pieces[from + i].1 as int))
}

/// Reads the pieces `pieces[from..to]` as groups; `None` where one of them
/// is no group.
fn read_groups(chars: &Vec<char>, pieces: &Vec<(usize, usize)>, from: usize, to: usize) -> (r:
    Option<Vec<u16>>)
    requires
        from <= to <= pieces.len(),
        forall|i: int| 0 <= i < pieces.len() ==> (#[trigger] pieces[i]).0 <= pieces[i].1 <= chars.len(),
    ensures
        match r {
            Some(v) => all_groups(piece_texts(chars@, pieces@, from as int, to as int)) && v@
                == groups_of(piece_texts(chars@, pieces@, from as int, to as int)),
            None => !all_groups(piece_texts(chars@, pieces@, from as int, to as int)),
        },
{
    let ghost texts = piece_texts(chars@, pieces@, from as int, to as int);
    let mut out: Vec<u16> = Vec::new();
    let mut j: usize = from;
    while j < to
        invariant
            from <= j <= to <= pieces.len(),
            forall|i: int| 0 <= i < pieces.len() ==> (#[trigger] pieces[i]).0 <= pieces[i].1 <= chars.len(),
            texts == piece_texts(chars@, pieces@, from as int, to as int),
            out.len() == j - from,
            forall|i: int|
                0 <= i < j - from ==> group_spec(#[trigger] texts[i]) is Some && out@[i]
                    == group_spec(texts[i])->0,
        decreases to - j,
    {
        let piece = pieces[j];
        assert(texts[j - from] == chars@.subrange(piece.0 as int, piece.1 as int));
        match read_group(chars, piece.0, piece.1) {
            Some(v) => {
                out.push(v);
            },
            None => {
                return None;
            },
        }
        j += 1;
    }
    assert(out@ =~= groups_of(texts));
    Some(out)
}

/// Eight groups: those of `before`, then `zeros` groups of zero, then those
/// of `after`.
fn assemble(before: &Vec<u16>, zeros: usize, after: &Vec<u16>) -> (r: [u16; 8])
    requires
        before.len() + zeros + after.len() == 8,
    ensures
        r@ == before@ + Seq::new(zeros as nat, |i: int| 0u16) + after@,
{
    let mut groups: [u16; 8] = [0, 0, 0, 0, 0, 0, 0, 0];
    let mut i: usize = 0;
    while i < before.len()
        invariant
            i <= before.len() <= 8,
            forall|k: int| 0 <= k < i ==> groups@[k] == before@[k],
            forall|k: int| i <= k < 8 ==> groups@[k] == 0,
        decreases before.len() - i,
    {
        groups[i] = before[i];
        i += 1;
    }
    let shift = before.len() + zeros;
    let mut j: usize = 0;
    while j < after.len()
        invariant
            j <= after.len(),
            shift == before.len() + zeros,
            shift + after.len() == 8,
            forall|k: int| 0 <= k < before.len() ==> groups@[k] == before@[k],
            forall|k: int| before.len() <= k < shift ==> groups@[k] == 0,
            forall|k: int| 0 <= k < j ==> groups@[shift + k] == after@[k],
        decreases after.len() - j,
    {
        groups[shift + j] = after[j];
        j += 1;
    }
    assert(groups@ =~= before@ + Seq::new(zeros as nat, |i: int| 0u16) + after@);
    groups
}

/// The first piece of `pieces[lo..hi]` that is empty; `hi` where none is.
fn find_gap(pieces: &Vec<(usize, usize)>, lo: usize, hi: usize) -> (gap: usize)
    requires
        lo <= hi <= pieces.len(),
    ensures
        lo <= gap <= hi,
        forall|i: int| lo <= i < gap ==> (#[trigger] pieces[i]).0 != pieces[i].1,
        gap < hi ==> pieces[gap as int].0 == pieces[gap as int].1,
{
    let mut gap: usize = lo;
    while gap < hi && pieces[gap].1 != pieces[gap].0
        invariant
            lo <= gap <= hi <= pieces.len(),
            forall|i: int| lo <= i < gap ==> (#[trigger] pieces[i]).0 != pieces[i].1,
        decreases hi - gap,
    {
        gap += 1;
    }
    gap
}

impl Ipv6Address {
    /// Reads a version 6 address from a text.
    pub fn parse(s: &str) -> (r: Option<Ipv6Address>)
        ensures
            match r {
                Some(a) => parse_ipv6_spec(s@) == Some(a@),
                None => parse_ipv6_spec(s@) is None,
            },
    {
        let chars = chars_of(s);
        let n = chars.len();
        assert(chars@.subrange(0, n as int) =~= s@);
        let pieces = split_chars(&chars, 0, n, ':');
        let m = pieces.len();
        let ghost p = split(s@, ':');
        proof {
            crate::text::lemma_split_pieces(s@, ':');
            assert forall|i: int| 0 <= i < m implies (#[trigger] p[i]).len() == pieces[i].1
                - pieces[i].0 by {
                assert(chars@.subrange(pieces[i].0 as int, pieces[i].1 as int) == p[i]);
            }
        }
        let lead = m >= 3 && pieces[0].1 == pieces[0].0 && pieces[1].1 == pieces[1].0;
        let trail = m >= 3 && pieces[m - 1].1 == pieces[m - 1].0 && pieces[m - 2].1 == pieces[m
            - 2].0;
        if (pieces[0].1 == pieces[0].0 && !lead) || (pieces[m - 1].1 == pieces[m - 1].0
            && !trail) {
            return None;
        }
        let lo: usize = if lead {
            1
        } else {
            0
        };
        let hi: usize = if trail {
            m - 1
        } else {
            m
        };
        let ghost r = p.subrange(lo as int, hi as int);
        let gap = find_gap(&pieces, lo, hi);
        proof {
            assert forall|i: int| 0 <= i < gap - lo implies (#[trigger] r[i]).len() != 0 by {
                assert(r[i] == p[lo + i]);
                assert(pieces[lo + i].0 != pieces[lo + i].1);
            }
            if gap < hi {
                assert(r[gap - lo] == p[gap as int]);
            }
            lemma_first_empty_found(r, gap - lo);
        }
        if hi - lo > 8 || (gap == hi && hi - lo != 8) {
            return None;
        }
        let first_after: usize = if gap == hi {
            hi
        } else {
            gap + 1
        };
        let zeros: usize = if gap == hi {
            0
        } else {
            9 - (hi - lo)
        };
        proof {
            assert(piece_texts(chars@, pieces@, lo as int, gap as int) =~= r.take(gap - lo));
            if gap < hi {
                assert(piece_texts(chars@, pieces@, first_after as int, hi as int) =~= r.skip(
                    gap - lo + 1,
                ));
            } else {
                assert(r.take(gap - lo) =~= r);
            }
        }
        let before = match read_groups(&chars, &pieces, lo, gap) {
            Some(v) => v,
            None => {
                return None;
            },
        };
        let after = match read_groups(&chars, &pieces, first_after, hi) {
            Some(v) => v,
            None => {
                return None;
            },
        };
        let result = Ipv6Address { groups: assemble(&before, zeros, &after) };
        proof {
            if gap == hi {
                assert(after@ =~= Seq::<u16>::empty());
                assert(result@ =~= groups_of(r));
            }
        }
        Some(result)
    }

    /// Compares two addresses group by group.
    pub fn compare(&self, other: &Ipv6Address) -> (r: Order)
        ensures
            r == groups_order(self@, other@, 0),
    {
        let mut k: usize = 0;
        while k < 8
            invariant
                k <= 8,
                groups_order(self@, other@, 0) == groups_order(self@, other@, k as int),
            decreases 8 - k,
        {
            let x = self.groups[k];
            let y = other.groups[k];
            if x < y {
                return Order::Less;
            }
            if x > y {
                return Order::Greater;
            }
            k += 1;
        }
        Order::Equal
    }
}

/// The text of a number reads back as that number in hexadecimal.
pub proof fn lemma_hex_text_reads_back(n: nat)
    ensures
        hex_text(n).len() >= 1,
        all_hex(hex_text(n)),
        hex_value(hex_text(n)) == n,
        forall|i: int| 0 <= i < hex_text(n).len() ==> hex_text(n)[i] != ':',
        n < 16 ==> hex_text(n).len() == 1,
        16 <= n < 256 ==> hex_text(n).len() == 2,
        256 <= n < 4096 ==> hex_text(n).len() == 3,
        4096 <= n < 65536 ==> hex_text(n).len() == 4,
    decreases n,
{
    let t = hex_text(n);
    if n < 16 {
        assert(t.drop_last() =~= Seq::<char>::empty());
        assert(hex_value(t.drop_last()) == 0);
        assert(t.last() == hex_char(n));
    } else {
        lemma_hex_text_reads_back(n / 16);
        let h = hex_text(n / 16);
        assert(t.drop_last() =~= h);
        assert(t.last() == hex_char(n % 16));
        assert forall|i: int| 0 <= i < t.len() implies is_hex(#[trigger] t[i]) && t[i] != ':' by {
            if i < h.len() {
                assert(t[i] == h[i]);
                assert(is_hex(h[i]));
            }
        }
    }
}

/// The groups written out split at the colons into the texts of the groups.
pub proof fn lemma_groups_shown_split(a: Seq<u16>, k: int)
    requires
        0 <= k < a.len(),
    ensures
        split(groups_shown(a, k), ':') == Seq::new(
            (a.len() - k) as nat,
            |i: int| hex_text(a[k + i] as nat),
        ),
    decreases a.len() - k,
{
    let t = hex_text(a[k] as nat);
    lemma_hex_text_reads_back(a[k] as nat);
    let want = Seq::new((a.len() - k) as nat, |i: int| hex_text(a[k + i] as nat));
    if k == a.len() - 1 {
        lemma_split_one(t, ':');
        assert(seq![t] =~= want);
    } else {
        lemma_groups_shown_split(a, k + 1);
        lemma_split_first(t, groups_shown(a, k + 1), ':');
        let rest = Seq::new((a.len() - k - 1) as nat, |i: int| hex_text(a[k + 1 + i] as nat));
        assert(seq![t] + rest =~= want);
    }
}

/// A version 6 address reads back from what it shows.
pub proof fn lemma_ipv6_shown_reads_back(a: Seq<u16>)
    requires
        a.len() == 8,
    ensures
        parse_ipv6_spec(ipv6_shown(a)) == Some(a),
{
    lemma_groups_shown_split(a, 0);
    let p = split(ipv6_shown(a), ':');
    assert(p.len() == 8);
    assert forall|i: int| 0 <= i < 8 implies (#[trigger] p[i]).len() != 0 && group_spec(p[i])
        == Some(a[i]) by {
        lemma_hex_text_reads_back(a[i] as nat);
    }
    let r = p.subrange(0, 8);
    assert(r =~= p);
    lemma_first_empty_found(p, 8);
    assert(groups_of(p) =~= a);
}

/// The one-character text of the hexadecimal digit for `d`.
fn hex_digit_text(d: u16) -> (r: &'static str)
    requires
        d < 16,
    ensures
        r@ == seq![hex_char(d as nat)],
{
    if d < 10 {
        crate::text::digit_text(d as u64)
    } else {
        proof {
            reveal_strlit("a");
            reveal_strlit("b");
            reveal_strlit("c");
            reveal_strlit("d");
            reveal_strlit("e");
            reveal_strlit("f");
        }
        let r = if d == 10 {
            "a"
        } else if d == 11 {
            "b"
        } else if d == 12 {
            "c"
        } else if d == 13 {
            "d"
        } else if d == 14 {
            "e"
        } else {
            "f"
        };
        assert(r@ =~= seq![hex_char(d as nat)]);
        r
    }
}

/// Appends the hexadecimal text of `n` to `out`.
fn push_hex(n: u16, out: &mut String)
    ensures
        final(out)@ == old(out)@ + hex_text(n as nat),
    decreases n,
{
    if n >= 16 {
        push_hex(n / 16, out);
    }
    out.append(hex_digit_text(n % 16));
    proof {
        if n >= 16 {
            assert(hex_text(n as nat) =~= hex_text((n / 16) as nat) + seq![
                hex_char((n % 16) as nat),
            ]);
        }
    }
}

impl Ipv6Address {
    /// Writes the address out: eight groups in lower-case hexadecimal.
    pub fn show(&self) -> (r: String)
        ensures
            r@ == ipv6_shown(self@),
    {
        let mut out = String::new();
        let mut k: usize = 0;
        assert(out@ + groups_shown(self@, 0) =~= groups_shown(self@, 0));
        while k < 8
            invariant
                k <= 8,
                self@.len() == 8,
                groups_shown(self@, 0) == out@ + groups_shown(self@, k as int),
            decreases 8 - k,
        {
            let ghost was = out@;
            push_hex(self.groups[k], &mut out);
            if k < 7 {
                proof {
                    reveal_strlit(":");
                }
                out.append(":");
                assert(out@ + groups_shown(self@, k + 1) =~= was + groups_shown(self@, k as int));
            } else {
                assert(out@ + groups_shown(self@, k + 1) =~= was + groups_shown(self@, k as int));
            }
            k += 1;
        }
        assert(out@ + groups_shown(self@, 8) =~= out@);
        out
    }
}

/// `first_empty` lies within the pieces.
pub proof fn lemma_first_empty_bounds(p: Seq<Seq<char>>)
    ensures
        0 <= first_empty(p) <= p.len(),
    decreases p.len(),
{
    if p.len() > 0 && p[0].len() != 0 {
        lemma_first_empty_bounds(p.skip(1));
    }
}

/// An address that was read has eight groups.
pub proof fn lemma_ipv6_parsed_len(s: Seq<char>)
    ensures
        parse_ipv6_spec(s) matches Some(a) ==> a.len() == 8,
{
    let p = split(s, ':');
    let n = p.len() as int;
    crate::text::lemma_split_pieces(s, ':');
    let lead = n >= 3 && p[0].len() == 0 && p[1].len() == 0;
    let trail = n >= 3 && p[n - 1].len() == 0 && p[n - 2].len() == 0;
    let r = p.subrange(
        if lead {
            1
        } else {
            0
        },
        if trail {
            n - 1
        } else {
            n
        },
    );
    lemma_first_empty_bounds(r);
}

} // verus!
