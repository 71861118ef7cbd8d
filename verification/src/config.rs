use vstd::prelude::*;
use crate::peer::PeerId;

verus! {

/// Node configuration, immutable after load.
#[derive(PartialEq, Debug)]
pub struct Config {
    pub local_addr: PeerId,
    pub contact_nodes: Vec<PeerId>,
    pub active_random_walk_length: u8,
    pub passive_random_walk_length: u8,
    pub active_view_size: usize,
    pub passive_view_size: usize,
    pub shuffle_period_seconds: u8,
    pub shuffle_active_view_count: u8,
    pub shuffle_passive_view_count: u8,
    pub shuffle_walk_length: u8,
}

impl Config {
    /// What the engine needs of a configuration: views can hold at least one
    /// peer, shuffle samples fit their views, and a shuffle's node list
    /// (self plus both samples) fits behind the wire's one-byte length.
    pub open spec fn wf(self) -> bool {
        &&& self.active_view_size >= 1
        &&& self.passive_view_size >= 1
        &&& self.shuffle_active_view_count as int <= self.active_view_size as int
        &&& self.shuffle_passive_view_count as int <= self.passive_view_size as int
        &&& 1 + self.shuffle_active_view_count as int + self.shuffle_passive_view_count as int
            <= 255
    }
}


/// Failure to parse a configuration text.
#[derive(Clone, Copy, PartialEq, Eq, Structural, Debug)]
pub enum ConfigError {
    Malformed,
}

/// Mathematical image of a `Config`: the contact list as a sequence.
pub struct ConfigView {
    pub local_addr: PeerId,
    pub contact_nodes: Seq<PeerId>,
    pub active_random_walk_length: u8,
    pub passive_random_walk_length: u8,
    pub active_view_size: usize,
    pub passive_view_size: usize,
    pub shuffle_period_seconds: u8,
    pub shuffle_active_view_count: u8,
    pub shuffle_passive_view_count: u8,
    pub shuffle_walk_length: u8,
}

impl View for Config {
    type V = ConfigView;

    open spec fn view(&self) -> ConfigView {
        ConfigView {
            local_addr: self.local_addr,
            contact_nodes: self.contact_nodes@,
            active_random_walk_length: self.active_random_walk_length,
            passive_random_walk_length: self.passive_random_walk_length,
            active_view_size: self.active_view_size,
            passive_view_size: self.passive_view_size,
            shuffle_period_seconds: self.shuffle_period_seconds,
            shuffle_active_view_count: self.shuffle_active_view_count,
            shuffle_passive_view_count: self.shuffle_passive_view_count,
            shuffle_walk_length: self.shuffle_walk_length,
        }
    }
}

// ---------------------------------------------------------------------------
// The accepted grammar, as specification functions. A file is seven
// newline-separated lines; a line may end in one carriage return, which is
// ignored. Numbers are one to three decimal digits within `u8`; ports allow
// up to five digits within `u16`; an address is `A.B.C.D:P`; the contact
// line is a comma-separated list of addresses, or empty.
// ---------------------------------------------------------------------------

/// First index at or after `from` holding `c`, or the length.
pub open spec fn find_byte(s: Seq<u8>, c: u8, from: int) -> int
    decreases s.len() - from,
{
    if from < 0 || from >= s.len() {
        s.len() as int
    } else if s[from] == c {
        from
    } else {
        find_byte(s, c, from + 1)
    }
}

pub open spec fn is_digit(b: u8) -> bool {
    48 <= b <= 57
}

pub open spec fn all_digits(s: Seq<u8>) -> bool {
    forall|i: int| 0 <= i < s.len() ==> is_digit(s[i])
}

/// The number the digit string denotes.
pub open spec fn digits_val(s: Seq<u8>) -> int
    decreases s.len(),
{
    if s.len() == 0 {
        0
    } else {
        digits_val(s.drop_last()) * 10 + (s.last() - 48)
    }
}

pub open spec fn spec_parse_u8(s: Seq<u8>) -> Option<u8> {
    if 1 <= s.len() <= 3 && all_digits(s) && digits_val(s) <= 255 {
        Some(digits_val(s) as u8)
    } else {
        None
    }
}

pub open spec fn spec_parse_u16(s: Seq<u8>) -> Option<u16> {
    if 1 <= s.len() <= 5 && all_digits(s) && digits_val(s) <= 65535 {
        Some(digits_val(s) as u16)
    } else {
        None
    }
}

/// An address `A.B.C.D:P`, split at the first three dots and the colon after
/// them.
pub open spec fn spec_parse_peer(s: Seq<u8>) -> Option<PeerId> {
    let i1 = find_byte(s, 46, 0);
    let i2 = find_byte(s, 46, i1 + 1);
    let i3 = find_byte(s, 46, i2 + 1);
    let ic = find_byte(s, 58, i3 + 1);
    if i1 < s.len() && i2 < s.len() && i3 < s.len() && ic < s.len() {
        match (
            spec_parse_u8(s.subrange(0, i1)),
            spec_parse_u8(s.subrange(i1 + 1, i2)),
            spec_parse_u8(s.subrange(i2 + 1, i3)),
            spec_parse_u8(s.subrange(i3 + 1, ic)),
            spec_parse_u16(s.subrange(ic + 1, s.len() as int)),
        ) {
            (Some(a), Some(b), Some(c), Some(d), Some(port)) => Some(
                PeerId { ip0: a, ip1: b, ip2: c, ip3: d, port },
            ),
            _ => None,
        }
    } else {
        None
    }
}

/// A comma-separated list of addresses; the empty string is the empty list.
pub open spec fn spec_parse_peer_list(s: Seq<u8>) -> Option<Seq<PeerId>>
    decreases s.len(),
{
    if s.len() == 0 {
        Some(Seq::empty())
    } else {
        let i = find_byte(s, 44, 0);
        if i >= s.len() {
            match spec_parse_peer(s) {
                Some(p) => Some(seq![p]),
                None => None,
            }
        } else if 0 <= i {
            match spec_parse_peer(s.subrange(0, i)) {
                Some(p) => match spec_parse_peer_list(s.skip(i + 1)) {
                    Some(rest) => Some(seq![p] + rest),
                    None => None,
                },
                None => None,
            }
        } else {
            None
        }
    }
}

/// A line with one trailing carriage return stripped.
pub open spec fn strip_cr(s: Seq<u8>) -> Seq<u8> {
    if s.len() > 0 && s.last() == 13 {
        s.drop_last()
    } else {
        s
    }
}

/// `A,B` where both halves are digits.
pub open spec fn spec_parse_u8_pair(s: Seq<u8>) -> Option<(u8, u8)> {
    let i = find_byte(s, 44, 0);
    if i < s.len() {
        match (spec_parse_u8(s.subrange(0, i)), spec_parse_u8(s.skip(i + 1))) {
            (Some(a), Some(b)) => Some((a, b)),
            _ => None,
        }
    } else {
        None
    }
}

/// The seven lines of a configuration text, in file order.
pub open spec fn spec_parse_config(s: Seq<u8>) -> Option<ConfigView> {
    let e1 = find_byte(s, 10, 0);
    let e2 = find_byte(s, 10, e1 + 1);
    let e3 = find_byte(s, 10, e2 + 1);
    let e4 = find_byte(s, 10, e3 + 1);
    let e5 = find_byte(s, 10, e4 + 1);
    let e6 = find_byte(s, 10, e5 + 1);
    let e7 = find_byte(s, 10, e6 + 1);
    if e1 < s.len() && e2 < s.len() && e3 < s.len() && e4 < s.len() && e5 < s.len() && e6
        < s.len() {
        let l1 = strip_cr(s.subrange(0, e1));
        let l2 = strip_cr(s.subrange(e1 + 1, e2));
        let l3 = strip_cr(s.subrange(e2 + 1, e3));
        let l4 = strip_cr(s.subrange(e3 + 1, e4));
        let l5 = strip_cr(s.subrange(e4 + 1, e5));
        let l6 = strip_cr(s.subrange(e5 + 1, e6));
        let l7 = strip_cr(s.subrange(e6 + 1, e7));
        match (
            spec_parse_peer(l1),
            spec_parse_peer_list(l2),
            spec_parse_u8_pair(l3),
            spec_parse_u8_pair(l4),
            spec_parse_u8(l5),
            spec_parse_u8_pair(l6),
            spec_parse_u8(l7),
        ) {
            (
                Some(local),
                Some(contacts),
                Some((arwl, prwl)),
                Some((av, pv)),
                Some(period),
                Some((sac, spc)),
                Some(swl),
            ) => Some(
                ConfigView {
                    local_addr: local,
                    contact_nodes: contacts,
                    active_random_walk_length: arwl,
                    passive_random_walk_length: prwl,
                    active_view_size: av as usize,
                    passive_view_size: pv as usize,
                    shuffle_period_seconds: period,
                    shuffle_active_view_count: sac,
                    shuffle_passive_view_count: spc,
                    shuffle_walk_length: swl,
                },
            ),
            _ => None,
        }
    } else {
        None
    }
}

/// What `spec_parse_config` yields must also satisfy the engine's `wf`.
pub open spec fn config_view_wf(c: ConfigView) -> bool {
    &&& c.active_view_size >= 1
    &&& c.passive_view_size >= 1
    &&& c.shuffle_active_view_count as int <= c.active_view_size as int
    &&& c.shuffle_passive_view_count as int <= c.passive_view_size as int
    &&& 1 + c.shuffle_active_view_count as int + c.shuffle_passive_view_count as int <= 255
}


// ---------------------------------------------------------------------------
// Executable parsing, each function exact against its grammar function.
// ---------------------------------------------------------------------------

/// First index in `v[start..end]` at or after `from` holding `c`, relative
/// to `start`; the window length when absent.
fn find_in(v: &Vec<u8>, start: usize, end: usize, c: u8, from: usize) -> (r: usize)
    requires
        start <= end <= v@.len(),
    ensures
        r as int == find_byte(v@.subrange(start as int, end as int), c, from as int),
        r <= end - start,
        from <= end - start ==> from <= r,
{
    let ghost sub = v@.subrange(start as int, end as int);
    let mut i: usize = from;
    if i > end - start {
        proof {
            assert(find_byte(sub, c, from as int) == sub.len());
        }
        return end - start;
    }
    while i < end - start
        invariant
            start <= end <= v@.len(),
            sub == v@.subrange(start as int, end as int),
            from <= i <= end - start,
            find_byte(sub, c, from as int) == find_byte(sub, c, i as int),
        decreases end - start - i,
    {
        if v[start + i] == c {
            proof {
                assert(sub[i as int] == c);
            }
            return i;
        }
        proof {
            assert(sub[i as int] != c);
        }
        i = i + 1;
    }
    end - start
}

/// Digit strings up to five digits denote at most 99999.
proof fn lemma_digits_bound(s: Seq<u8>)
    requires
        all_digits(s),
        s.len() <= 5,
    ensures
        0 <= digits_val(s),
        s.len() <= 1 ==> digits_val(s) <= 9,
        s.len() <= 2 ==> digits_val(s) <= 99,
        s.len() <= 3 ==> digits_val(s) <= 999,
        s.len() <= 4 ==> digits_val(s) <= 9999,
        s.len() <= 5 ==> digits_val(s) <= 99999,
    decreases s.len(),
{
    if s.len() > 0 {
        let pre = s.drop_last();
        assert(all_digits(pre));
        lemma_digits_bound(pre);
    }
}

/// A decimal `u8`: one to three digits.
fn parse_u8_range(v: &Vec<u8>, start: usize, end: usize) -> (r: Option<u8>)
    requires
        start <= end <= v@.len(),
    ensures
        r == spec_parse_u8(v@.subrange(start as int, end as int)),
{
    let ghost sub = v@.subrange(start as int, end as int);
    let n = end - start;
    if n < 1 || n > 3 {
        return Option::None;
    }
    let mut acc: u32 = 0;
    let mut i: usize = 0;
    while i < n
        invariant
            start <= end <= v@.len(),
            sub == v@.subrange(start as int, end as int),
            1 <= n <= 3,
            n == sub.len(),
            i <= n,
            all_digits(sub.subrange(0, i as int)),
            acc == digits_val(sub.subrange(0, i as int)),
            acc <= 999,
        decreases n - i,
    {
        let b = v[start + i];
        proof {
            assert(sub[i as int] == b);
        }
        if b < 48 || b > 57 {
            proof {
                assert(!is_digit(sub[i as int]));
            }
            return Option::None;
        }
        proof {
            assert(sub.subrange(0, i + 1).drop_last() =~= sub.subrange(0, i as int));
            assert(sub.subrange(0, i + 1).last() == b);
            assert(all_digits(sub.subrange(0, i + 1)));
            lemma_digits_bound(sub.subrange(0, i + 1));
        }
        acc = acc * 10 + ((b - 48) as u32);
        i = i + 1;
    }
    proof {
        assert(sub.subrange(0, n as int) =~= sub);
    }
    if acc > 255 {
        return Option::None;
    }
    Option::Some(acc as u8)
}

/// A decimal `u16`: one to five digits.
fn parse_u16_range(v: &Vec<u8>, start: usize, end: usize) -> (r: Option<u16>)
    requires
        start <= end <= v@.len(),
    ensures
        r == spec_parse_u16(v@.subrange(start as int, end as int)),
{
    let ghost sub = v@.subrange(start as int, end as int);
    let n = end - start;
    if n < 1 || n > 5 {
        return Option::None;
    }
    let mut acc: u32 = 0;
    let mut i: usize = 0;
    while i < n
        invariant
            start <= end <= v@.len(),
            sub == v@.subrange(start as int, end as int),
            1 <= n <= 5,
            n == sub.len(),
            i <= n,
            all_digits(sub.subrange(0, i as int)),
            acc == digits_val(sub.subrange(0, i as int)),
            acc <= 99999,
        decreases n - i,
    {
        let b = v[start + i];
        proof {
            assert(sub[i as int] == b);
        }
        if b < 48 || b > 57 {
            proof {
                assert(!is_digit(sub[i as int]));
            }
            return Option::None;
        }
        proof {
            assert(sub.subrange(0, i + 1).drop_last() =~= sub.subrange(0, i as int));
            assert(sub.subrange(0, i + 1).last() == b);
            assert(all_digits(sub.subrange(0, i + 1)));
            lemma_digits_bound(sub.subrange(0, i + 1));
        }
        acc = acc * 10 + ((b - 48) as u32);
        i = i + 1;
    }
    proof {
        assert(sub.subrange(0, n as int) =~= sub);
    }
    if acc > 65535 {
        return Option::None;
    }
    Option::Some(acc as u16)
}

/// An address `A.B.C.D:P` in `v[start..end]`.
fn parse_peer_range(v: &Vec<u8>, start: usize, end: usize) -> (r: Option<PeerId>)
    requires
        start <= end <= v@.len(),
    ensures
        r == spec_parse_peer(v@.subrange(start as int, end as int)),
{
    let ghost sub = v@.subrange(start as int, end as int);
    let n = end - start;
    let i1 = find_in(v, start, end, 46, 0);
    let i2 = if i1 < n {
        find_in(v, start, end, 46, i1 + 1)
    } else {
        n
    };
    let i3 = if i2 < n {
        find_in(v, start, end, 46, i2 + 1)
    } else {
        n
    };
    let ic = if i3 < n {
        find_in(v, start, end, 58, i3 + 1)
    } else {
        n
    };
    if i1 >= n || i2 >= n || i3 >= n || ic >= n {
        proof {
            if find_byte(sub, 46, 0) < sub.len() && find_byte(sub, 46, find_byte(sub, 46, 0) + 1)
                < sub.len() && find_byte(sub, 46, find_byte(sub, 46, find_byte(sub, 46, 0) + 1) + 1)
                < sub.len() {
            }
        }
        return Option::None;
    }
    proof {
        assert(sub.subrange(0, i1 as int) =~= v@.subrange(start as int, (start + i1) as int));
        assert(sub.subrange(i1 + 1, i2 as int) =~= v@.subrange(
            (start + i1 + 1) as int,
            (start + i2) as int,
        ));
        assert(sub.subrange(i2 + 1, i3 as int) =~= v@.subrange(
            (start + i2 + 1) as int,
            (start + i3) as int,
        ));
        assert(sub.subrange(i3 + 1, ic as int) =~= v@.subrange(
            (start + i3 + 1) as int,
            (start + ic) as int,
        ));
        assert(sub.subrange(ic + 1, sub.len() as int) =~= v@.subrange(
            (start + ic + 1) as int,
            end as int,
        ));
    }
    let a = parse_u8_range(v, start, start + i1);
    let b = parse_u8_range(v, start + i1 + 1, start + i2);
    let c = parse_u8_range(v, start + i2 + 1, start + i3);
    let d = parse_u8_range(v, start + i3 + 1, start + ic);
    let port = parse_u16_range(v, start + ic + 1, end);
    match (a, b, c, d, port) {
        (
            Option::Some(a),
            Option::Some(b),
            Option::Some(c),
            Option::Some(d),
            Option::Some(port),
        ) => Option::Some(PeerId { ip0: a, ip1: b, ip2: c, ip3: d, port }),
        _ => Option::None,
    }
}

/// A comma-separated address list in `v[start..end]`; empty means empty.
fn parse_peer_list_range(v: &Vec<u8>, start: usize, end: usize) -> (r: Option<Vec<PeerId>>)
    requires
        start <= end <= v@.len(),
    ensures
        match r {
            Option::Some(ns) => spec_parse_peer_list(v@.subrange(start as int, end as int))
                == Some(ns@),
            Option::None => spec_parse_peer_list(v@.subrange(start as int, end as int)) is None,
        },
{
    let mut acc: Vec<PeerId> = Vec::new();
    let mut cur = start;
    while cur < end
        invariant
            start <= cur <= end <= v@.len(),
            spec_parse_peer_list(v@.subrange(start as int, end as int)) == (match
                spec_parse_peer_list(v@.subrange(cur as int, end as int)) {
                Some(rest) => Some(acc@ + rest),
                None => None,
            }),
        decreases end - cur,
    {
        let ghost subcur = v@.subrange(cur as int, end as int);
        let i = find_in(v, cur, end, 44, 0);
        if i == end - cur {
            proof {
                assert(subcur =~= v@.subrange(cur as int, end as int));
            }
            match parse_peer_range(v, cur, end) {
                Option::Some(p) => {
                    let ghost pre = acc@;
                    acc.push(p);
                    proof {
                        assert(spec_parse_peer_list(subcur) == Some(seq![p]));
                        assert(pre + seq![p] =~= acc@);
                    }
                    return Option::Some(acc);
                },
                Option::None => {
                    return Option::None;
                },
            }
        } else {
            proof {
                assert(subcur.subrange(0, i as int) =~= v@.subrange(
                    cur as int,
                    (cur + i) as int,
                ));
                assert(subcur.skip(i + 1) =~= v@.subrange((cur + i + 1) as int, end as int));
            }
            match parse_peer_range(v, cur, cur + i) {
                Option::Some(p) => {
                    let ghost pre = acc@;
                    acc.push(p);
                    proof {
                        assert(acc@ =~= pre + seq![p]);
                        let tail = spec_parse_peer_list(
                            v@.subrange((cur + i + 1) as int, end as int),
                        );
                        if let Some(rest) = tail {
                            assert(pre + (seq![p] + rest) =~= (pre + seq![p]) + rest);
                        }
                    }
                    cur = cur + i + 1;
                },
                Option::None => {
                    return Option::None;
                },
            }
        }
    }
    proof {
        let emp = v@.subrange(cur as int, end as int);
        assert(emp.len() == 0);
        assert(spec_parse_peer_list(emp) == Some(Seq::<PeerId>::empty()));
        assert(acc@ + Seq::<PeerId>::empty() =~= acc@);
    }
    Option::Some(acc)
}

/// `A,B` with both halves decimal `u8`s.
fn parse_u8_pair_range(v: &Vec<u8>, start: usize, end: usize) -> (r: Option<(u8, u8)>)
    requires
        start <= end <= v@.len(),
    ensures
        r == spec_parse_u8_pair(v@.subrange(start as int, end as int)),
{
    let ghost sub = v@.subrange(start as int, end as int);
    let n = end - start;
    let i = find_in(v, start, end, 44, 0);
    if i >= n {
        return Option::None;
    }
    proof {
        assert(sub.subrange(0, i as int) =~= v@.subrange(start as int, (start + i) as int));
        assert(sub.skip(i + 1) =~= v@.subrange((start + i + 1) as int, end as int));
    }
    let a = parse_u8_range(v, start, start + i);
    let b = parse_u8_range(v, start + i + 1, end);
    match (a, b) {
        (Option::Some(a), Option::Some(b)) => Option::Some((a, b)),
        _ => Option::None,
    }
}

impl Config {
    /// Parses a configuration text: seven newline-separated lines in the
    /// fixed order local address; contact nodes; `arwl,prwl`; view sizes;
    /// shuffle period; shuffle sample counts; shuffle walk length. Succeeds
    /// exactly when the text matches the grammar (`spec_parse_config`) and
    /// the parsed values satisfy the engine's constraints.
    #[verifier::rlimit(100)]
    pub fn load_config(contents: &Vec<u8>) -> (r: core::result::Result<Config, ConfigError>)
        ensures
            match r {
                core::result::Result::Ok(c) => spec_parse_config(contents@) == Some(c@) && c.wf(),
                core::result::Result::Err(e) => e == ConfigError::Malformed && match
                    spec_parse_config(contents@) {
                    Some(cv) => !config_view_wf(cv),
                    None => true,
                },
            },
    {
        let v = contents;
        let len = v.len();
        proof {
            assert(v@.subrange(0, len as int) =~= v@);
        }
        let e1 = find_in(v, 0, len, 10, 0);
        let e2 = if e1 < len {
            find_in(v, 0, len, 10, e1 + 1)
        } else {
            len
        };
        let e3 = if e2 < len {
            find_in(v, 0, len, 10, e2 + 1)
        } else {
            len
        };
        let e4 = if e3 < len {
            find_in(v, 0, len, 10, e3 + 1)
        } else {
            len
        };
        let e5 = if e4 < len {
            find_in(v, 0, len, 10, e4 + 1)
        } else {
            len
        };
        let e6 = if e5 < len {
            find_in(v, 0, len, 10, e5 + 1)
        } else {
            len
        };
        let e7 = if e6 < len {
            find_in(v, 0, len, 10, e6 + 1)
        } else {
            len
        };
        if e1 >= len || e2 >= len || e3 >= len || e4 >= len || e5 >= len || e6 >= len {
            return core::result::Result::Err(ConfigError::Malformed);
        }
        let (s1, t1) = line_bounds(v, 0, e1);
        let (s2, t2) = line_bounds(v, e1 + 1, e2);
        let (s3, t3) = line_bounds(v, e2 + 1, e3);
        let (s4, t4) = line_bounds(v, e3 + 1, e4);
        let (s5, t5) = line_bounds(v, e4 + 1, e5);
        let (s6, t6) = line_bounds(v, e5 + 1, e6);
        let (s7, t7) = line_bounds(v, e6 + 1, e7);
        let local = parse_peer_range(v, s1, t1);
        let contacts = parse_peer_list_range(v, s2, t2);
        let walk = parse_u8_pair_range(v, s3, t3);
        let sizes = parse_u8_pair_range(v, s4, t4);
        let period = parse_u8_range(v, s5, t5);
        let counts = parse_u8_pair_range(v, s6, t6);
        let swl = parse_u8_range(v, s7, t7);
        match (local, contacts, walk, sizes, period, counts, swl) {
            (
                Option::Some(local),
                Option::Some(contacts),
                Option::Some((arwl, prwl)),
                Option::Some((av, pv)),
                Option::Some(period),
                Option::Some((sac, spc)),
                Option::Some(swl),
            ) => {
                if av < 1 || pv < 1 || sac > av || spc > pv || 1 + sac as usize + spc as usize
                    > 255 {
                    return core::result::Result::Err(ConfigError::Malformed);
                }
                let c = Config {
                    local_addr: local,
                    contact_nodes: contacts,
                    active_random_walk_length: arwl,
                    passive_random_walk_length: prwl,
                    active_view_size: av as usize,
                    passive_view_size: pv as usize,
                    shuffle_period_seconds: period,
                    shuffle_active_view_count: sac,
                    shuffle_passive_view_count: spc,
                    shuffle_walk_length: swl,
                };
                core::result::Result::Ok(c)
            },
            _ => core::result::Result::Err(ConfigError::Malformed),
        }
    }
}

/// The bounds of a line body within `v[a..b]`, with one trailing carriage
/// return stripped.
fn line_bounds(v: &Vec<u8>, a: usize, b: usize) -> (r: (usize, usize))
    requires
        a <= b <= v@.len(),
    ensures
        r.0 == a && a <= r.1 <= b,
        v@.subrange(r.0 as int, r.1 as int) == strip_cr(v@.subrange(a as int, b as int)),
{
    let ghost sub = v@.subrange(a as int, b as int);
    if b > a && v[b - 1] == 13 {
        proof {
            assert(sub.last() == 13);
            assert(sub.drop_last() =~= v@.subrange(a as int, b - 1));
        }
        (a, b - 1)
    } else {
        proof {
            if sub.len() > 0 {
                assert(sub.last() == v@[b - 1]);
            }
        }
        (a, b)
    }
}

} // verus!
