use vstd::prelude::*;
use vstd::bytes::*;
use vstd::slice::slice_subrange;

verus! {

// Byte-level framing: little-endian integers, length-prefixed byte strings and
// counted lists of them.

/// The bytes of `s` from position `k` on.
pub open spec fn rest(s: Seq<u8>, k: nat) -> Seq<u8> {
    s.subrange(k as int, s.len() as int)
}

pub open spec fn enc_u16(x: u16) -> Seq<u8> {
    spec_u16_to_le_bytes(x)
}

pub open spec fn enc_u32(x: u32) -> Seq<u8> {
    spec_u32_to_le_bytes(x)
}

pub open spec fn enc_u64(x: u64) -> Seq<u8> {
    spec_u64_to_le_bytes(x)
}

/// A byte string: its length as a `u32`, then its bytes.
pub open spec fn enc_bytes(x: Seq<u8>) -> Seq<u8> {
    enc_u32(x.len() as u32) + x
}

/// Byte strings one after the other, without a count.
pub open spec fn enc_items(xs: Seq<Seq<u8>>) -> Seq<u8>
    decreases xs.len(),
{
    if xs.len() == 0 {
        Seq::empty()
    } else {
        enc_items(xs.drop_last()) + enc_bytes(xs.last())
    }
}

/// A list of byte strings: the count as a `u32`, then the strings.
pub open spec fn enc_list(xs: Seq<Seq<u8>>) -> Seq<u8> {
    enc_u32(xs.len() as u32) + enc_items(xs)
}

/// Pairs of byte strings one after the other, without a count.
pub open spec fn enc_pair_items(ps: Seq<(Seq<u8>, Seq<u8>)>) -> Seq<u8>
    decreases ps.len(),
{
    if ps.len() == 0 {
        Seq::empty()
    } else {
        enc_pair_items(ps.drop_last()) + enc_bytes(ps.last().0) + enc_bytes(ps.last().1)
    }
}

/// A list of pairs of byte strings: the count as a `u32`, then the pairs.
pub open spec fn enc_pairs(ps: Seq<(Seq<u8>, Seq<u8>)>) -> Seq<u8> {
    enc_u32(ps.len() as u32) + enc_pair_items(ps)
}

pub open spec fn parse_u16(s: Seq<u8>) -> Option<(u16, nat)> {
    if s.len() >= 2 {
        Some((spec_u16_from_le_bytes(s.subrange(0, 2)), 2))
    } else {
        None
    }
}

pub open spec fn parse_u32(s: Seq<u8>) -> Option<(u32, nat)> {
    if s.len() >= 4 {
        Some((spec_u32_from_le_bytes(s.subrange(0, 4)), 4))
    } else {
        None
    }
}

pub open spec fn parse_u64(s: Seq<u8>) -> Option<(u64, nat)> {
    if s.len() >= 8 {
        Some((spec_u64_from_le_bytes(s.subrange(0, 8)), 8))
    } else {
        None
    }
}

pub open spec fn parse_bytes(s: Seq<u8>) -> Option<(Seq<u8>, nat)> {
    match parse_u32(s) {
        Some((n, k)) => if k + n <= s.len() {
            Some((s.subrange(k as int, k + n), (k + n) as nat))
        } else {
            None
        },
        None => None,
    }
}

/// Parse `n` byte strings one after the other.
pub open spec fn parse_items(s: Seq<u8>, n: nat) -> Option<(Seq<Seq<u8>>, nat)>
    decreases n,
{
    if n == 0 {
        Some((Seq::empty(), 0))
    } else {
        match parse_items(s, (n - 1) as nat) {
            Some((xs, k)) => match parse_bytes(rest(s, k)) {
                Some((x, j)) => Some((xs.push(x), k + j)),
                None => None,
            },
            None => None,
        }
    }
}

pub open spec fn parse_list(s: Seq<u8>) -> Option<(Seq<Seq<u8>>, nat)> {
    match parse_u32(s) {
        Some((n, k)) => match parse_items(rest(s, k), n as nat) {
            Some((xs, j)) => Some((xs, k + j)),
            None => None,
        },
        None => None,
    }
}

/// Parse one pair of byte strings.
pub open spec fn parse_pair(s: Seq<u8>) -> Option<((Seq<u8>, Seq<u8>), nat)> {
    match parse_bytes(s) {
        Some((a, k)) => match parse_bytes(rest(s, k)) {
            Some((b, j)) => Some(((a, b), k + j)),
            None => None,
        },
        None => None,
    }
}

/// Parse `n` pairs of byte strings one after the other.
pub open spec fn parse_pair_items(s: Seq<u8>, n: nat) -> Option<(Seq<(Seq<u8>, Seq<u8>)>, nat)>
    decreases n,
{
    if n == 0 {
        Some((Seq::empty(), 0))
    } else {
        match parse_pair_items(s, (n - 1) as nat) {
            Some((ps, k)) => match parse_pair(rest(s, k)) {
                Some((p, j)) => Some((ps.push(p), k + j)),
                None => None,
            },
            None => None,
        }
    }
}

pub open spec fn parse_pairs(s: Seq<u8>) -> Option<(Seq<(Seq<u8>, Seq<u8>)>, nat)> {
    match parse_u32(s) {
        Some((n, k)) => match parse_pair_items(rest(s, k), n as nat) {
            Some((ps, j)) => Some((ps, k + j)),
            None => None,
        },
        None => None,
    }
}

/// The views of a sequence of byte vectors.
pub open spec fn items_view(v: Seq<Vec<u8>>) -> Seq<Seq<u8>> {
    Seq::new(v.len(), |i: int| v[i]@)
}

/// The views of a sequence of pairs of byte vectors.
pub open spec fn pairs_view(v: Seq<(Vec<u8>, Vec<u8>)>) -> Seq<(Seq<u8>, Seq<u8>)> {
    Seq::new(v.len(), |i: int| (v[i].0@, v[i].1@))
}

/// Every string in `xs` has a length that a `u32` holds, and so has `xs`.
pub open spec fn items_fit(xs: Seq<Seq<u8>>) -> bool {
    &&& xs.len() <= u32::MAX
    &&& forall|i: int| 0 <= i < xs.len() ==> #[trigger] xs[i].len() <= u32::MAX
}

pub open spec fn pairs_fit(ps: Seq<(Seq<u8>, Seq<u8>)>) -> bool {
    &&& ps.len() <= u32::MAX
    &&& forall|i: int|
        0 <= i < ps.len() ==> (#[trigger] ps[i]).0.len() <= u32::MAX && ps[i].1.len() <= u32::MAX
}

// Round trips of the framing.

pub(crate) proof fn lemma_u16_round_trip(x: u16, r: Seq<u8>)
    ensures
        enc_u16(x).len() == 2,
        parse_u16(enc_u16(x) + r) == Some((x, 2nat)),
{
    lemma_auto_spec_u16_to_from_le_bytes();
    assert((enc_u16(x) + r).subrange(0, 2) =~= enc_u16(x));
}

pub(crate) proof fn lemma_u32_round_trip(x: u32, r: Seq<u8>)
    ensures
        enc_u32(x).len() == 4,
        parse_u32(enc_u32(x) + r) == Some((x, 4nat)),
{
    lemma_auto_spec_u32_to_from_le_bytes();
    assert((enc_u32(x) + r).subrange(0, 4) =~= enc_u32(x));
}

pub(crate) proof fn lemma_u64_round_trip(x: u64, r: Seq<u8>)
    ensures
        enc_u64(x).len() == 8,
        parse_u64(enc_u64(x) + r) == Some((x, 8nat)),
{
    lemma_auto_spec_u64_to_from_le_bytes();
    assert((enc_u64(x) + r).subrange(0, 8) =~= enc_u64(x));
}

pub(crate) proof fn lemma_bytes_round_trip(x: Seq<u8>, r: Seq<u8>)
    requires
        x.len() <= u32::MAX,
    ensures
        enc_bytes(x).len() == 4 + x.len(),
        parse_bytes(enc_bytes(x) + r) == Some((x, (4 + x.len()) as nat)),
{
    let e = enc_u32(x.len() as u32);
    lemma_u32_round_trip(x.len() as u32, x + r);
    assert(enc_bytes(x) + r =~= e + (x + r));
    assert((enc_bytes(x) + r).subrange(4, 4 + x.len() as int) =~= x);
}

/// What follows a prefix `a` in `a + b`.
pub(crate) proof fn lemma_rest_concat(a: Seq<u8>, b: Seq<u8>)
    ensures
        rest(a + b, a.len()) == b,
{
    assert(rest(a + b, a.len()) =~= b);
}

proof fn lemma_items_round_trip(xs: Seq<Seq<u8>>, r: Seq<u8>)
    requires
        items_fit(xs),
    ensures
        parse_items(enc_items(xs) + r, xs.len()) == Some((xs, enc_items(xs).len())),
    decreases xs.len(),
{
    if xs.len() > 0 {
        let init = xs.drop_last();
        let last = xs.last();
        assert(last == xs[xs.len() - 1]);
        assert forall|i: int| 0 <= i < init.len() implies #[trigger] init[i].len() <= u32::MAX by {
            assert(init[i] == xs[i]);
        }
        let tail = enc_bytes(last) + r;
        lemma_items_round_trip(init, tail);
        assert(enc_items(xs) + r =~= enc_items(init) + tail);
        lemma_rest_concat(enc_items(init), tail);
        lemma_bytes_round_trip(last, r);
        assert(init.push(last) =~= xs);
    }
}

pub(crate) proof fn lemma_list_round_trip(xs: Seq<Seq<u8>>, r: Seq<u8>)
    requires
        items_fit(xs),
    ensures
        parse_list(enc_list(xs) + r) == Some((xs, enc_list(xs).len())),
{
    let tail = enc_items(xs) + r;
    lemma_u32_round_trip(xs.len() as u32, tail);
    assert(enc_list(xs) + r =~= enc_u32(xs.len() as u32) + tail);
    lemma_rest_concat(enc_u32(xs.len() as u32), tail);
    lemma_items_round_trip(xs, r);
}

proof fn lemma_pair_items_round_trip(ps: Seq<(Seq<u8>, Seq<u8>)>, r: Seq<u8>)
    requires
        pairs_fit(ps),
    ensures
        parse_pair_items(enc_pair_items(ps) + r, ps.len()) == Some((ps, enc_pair_items(ps).len())),
    decreases ps.len(),
{
    if ps.len() > 0 {
        let init = ps.drop_last();
        let last = ps.last();
        assert(last == ps[ps.len() - 1]);
        assert forall|i: int| 0 <= i < init.len() implies (#[trigger] init[i]).0.len() <= u32::MAX
            && init[i].1.len() <= u32::MAX by {
            assert(init[i] == ps[i]);
        }
        let tail = enc_bytes(last.0) + enc_bytes(last.1) + r;
        lemma_pair_items_round_trip(init, tail);
        assert(enc_pair_items(ps) + r =~= enc_pair_items(init) + tail);
        lemma_rest_concat(enc_pair_items(init), tail);
        lemma_bytes_round_trip(last.0, enc_bytes(last.1) + r);
        assert(tail =~= enc_bytes(last.0) + (enc_bytes(last.1) + r));
        lemma_rest_concat(enc_bytes(last.0), enc_bytes(last.1) + r);
        lemma_bytes_round_trip(last.1, r);
        assert(init.push(last) =~= ps);
    }
}

pub(crate) proof fn lemma_pairs_round_trip(ps: Seq<(Seq<u8>, Seq<u8>)>, r: Seq<u8>)
    requires
        pairs_fit(ps),
    ensures
        parse_pairs(enc_pairs(ps) + r) == Some((ps, enc_pairs(ps).len())),
{
    let tail = enc_pair_items(ps) + r;
    lemma_u32_round_trip(ps.len() as u32, tail);
    assert(enc_pairs(ps) + r =~= enc_u32(ps.len() as u32) + tail);
    lemma_rest_concat(enc_u32(ps.len() as u32), tail);
    lemma_pair_items_round_trip(ps, r);
}

// Writers.

pub(crate) fn write_u16(out: &mut Vec<u8>, x: u16)
    ensures
        final(out)@ == old(out)@ + enc_u16(x),
{
    let mut b = u16_to_le_bytes(x);
    out.append(&mut b);
}

pub(crate) fn write_u32(out: &mut Vec<u8>, x: u32)
    ensures
        final(out)@ == old(out)@ + enc_u32(x),
{
    let mut b = u32_to_le_bytes(x);
    out.append(&mut b);
}

pub(crate) fn write_u64(out: &mut Vec<u8>, x: u64)
    ensures
        final(out)@ == old(out)@ + enc_u64(x),
{
    let mut b = u64_to_le_bytes(x);
    out.append(&mut b);
}

pub(crate) fn write_bytes(out: &mut Vec<u8>, x: &Vec<u8>)
    ensures
        final(out)@ == old(out)@ + enc_bytes(x@),
{
    write_u32(out, x.len() as u32);
    let ghost start = out@;
    let mut i: usize = 0;
    while i < x.len()
        invariant
            i <= x.len(),
            out@ == start + x@.subrange(0, i as int),
        decreases x.len() - i,
    {
        out.push(x[i]);
        i = i + 1;
        assert(out@ =~= start + x@.subrange(0, i as int));
    }
    assert(x@.subrange(0, x.len() as int) =~= x@);
    assert(out@ =~= old(out)@ + enc_bytes(x@));
}

pub(crate) fn write_list(out: &mut Vec<u8>, xs: &Vec<Vec<u8>>)
    ensures
        final(out)@ == old(out)@ + enc_list(items_view(xs@)),
{
    write_u32(out, xs.len() as u32);
    let ghost start = out@;
    let mut i: usize = 0;
    while i < xs.len()
        invariant
            i <= xs.len(),
            out@ == start + enc_items(items_view(xs@.subrange(0, i as int))),
        decreases xs.len() - i,
    {
        write_bytes(out, &xs[i]);
        let ghost done = items_view(xs@.subrange(0, i + 1));
        assert(done.drop_last() =~= items_view(xs@.subrange(0, i as int)));
        i = i + 1;
        assert(out@ =~= start + enc_items(items_view(xs@.subrange(0, i as int))));
    }
    assert(xs@.subrange(0, xs.len() as int) =~= xs@);
    assert(items_view(xs@).len() == xs.len());
    assert(out@ =~= old(out)@ + enc_list(items_view(xs@)));
}

pub(crate) fn write_pairs(out: &mut Vec<u8>, ps: &Vec<(Vec<u8>, Vec<u8>)>)
    ensures
        final(out)@ == old(out)@ + enc_pairs(pairs_view(ps@)),
{
    write_u32(out, ps.len() as u32);
    let ghost start = out@;
    let mut i: usize = 0;
    while i < ps.len()
        invariant
            i <= ps.len(),
            out@ == start + enc_pair_items(pairs_view(ps@.subrange(0, i as int))),
        decreases ps.len() - i,
    {
        write_bytes(out, &ps[i].0);
        write_bytes(out, &ps[i].1);
        let ghost done = pairs_view(ps@.subrange(0, i + 1));
        assert(done.drop_last() =~= pairs_view(ps@.subrange(0, i as int)));
        i = i + 1;
        assert(out@ =~= start + enc_pair_items(pairs_view(ps@.subrange(0, i as int))));
    }
    assert(ps@.subrange(0, ps.len() as int) =~= ps@);
    assert(pairs_view(ps@).len() == ps.len());
    assert(out@ =~= old(out)@ + enc_pairs(pairs_view(ps@)));
}

// Readers. Each reads from the start of `s` and says how many bytes it took.

pub(crate) fn read_u16(s: &[u8]) -> (r: Option<(u16, usize)>)
    ensures
        r.is_some() == parse_u16(s@).is_some(),
        r.is_some() ==> r.unwrap().0 == parse_u16(s@).unwrap().0 && r.unwrap().1
            == parse_u16(s@).unwrap().1,
{
    if s.len() >= 2 {
        Some((u16_from_le_bytes(slice_subrange(s, 0, 2)), 2))
    } else {
        None
    }
}

pub(crate) fn read_u32(s: &[u8]) -> (r: Option<(u32, usize)>)
    ensures
        r.is_some() == parse_u32(s@).is_some(),
        r.is_some() ==> r.unwrap().0 == parse_u32(s@).unwrap().0 && r.unwrap().1
            == parse_u32(s@).unwrap().1,
{
    if s.len() >= 4 {
        Some((u32_from_le_bytes(slice_subrange(s, 0, 4)), 4))
    } else {
        None
    }
}

pub(crate) fn read_u64(s: &[u8]) -> (r: Option<(u64, usize)>)
    ensures
        r.is_some() == parse_u64(s@).is_some(),
        r.is_some() ==> r.unwrap().0 == parse_u64(s@).unwrap().0 && r.unwrap().1
            == parse_u64(s@).unwrap().1,
{
    if s.len() >= 8 {
        Some((u64_from_le_bytes(slice_subrange(s, 0, 8)), 8))
    } else {
        None
    }
}

pub(crate) fn read_bytes(s: &[u8]) -> (r: Option<(Vec<u8>, usize)>)
    ensures
        r.is_some() == parse_bytes(s@).is_some(),
        r.is_some() ==> r.unwrap().0@ == parse_bytes(s@).unwrap().0 && r.unwrap().1
            == parse_bytes(s@).unwrap().1,
        r.is_some() ==> r.unwrap().1 <= s@.len(),
{
    match read_u32(s) {
        None => None,
        Some((n, k)) => {
            if n as usize <= s.len() - k {
                let end = k + n as usize;
                let mut v: Vec<u8> = Vec::new();
                let mut i: usize = k;
                while i < end
                    invariant
                        k <= i <= end <= s@.len(),
                        v@ == s@.subrange(k as int, i as int),
                    decreases end - i,
                {
                    v.push(s[i]);
                    i = i + 1;
                    assert(v@ =~= s@.subrange(k as int, i as int));
                }
                Some((v, end))
            } else {
                None
            }
        },
    }
}

proof fn lemma_items_stay_none(s: Seq<u8>, i: nat, n: nat)
    requires
        i <= n,
        parse_items(s, i).is_none(),
    ensures
        parse_items(s, n).is_none(),
    decreases n - i,
{
    if i < n {
        lemma_items_stay_none(s, i, (n - 1) as nat);
    }
}

proof fn lemma_pair_items_stay_none(s: Seq<u8>, i: nat, n: nat)
    requires
        i <= n,
        parse_pair_items(s, i).is_none(),
    ensures
        parse_pair_items(s, n).is_none(),
    decreases n - i,
{
    if i < n {
        lemma_pair_items_stay_none(s, i, (n - 1) as nat);
    }
}

pub(crate) fn read_list(s: &[u8]) -> (r: Option<(Vec<Vec<u8>>, usize)>)
    ensures
        r.is_some() == parse_list(s@).is_some(),
        r.is_some() ==> items_view(r.unwrap().0@) == parse_list(s@).unwrap().0 && r.unwrap().1
            == parse_list(s@).unwrap().1,
        r.is_some() ==> r.unwrap().1 <= s@.len(),
{
    let (n, k) = match read_u32(s) {
        None => return None,
        Some(p) => p,
    };
    let body = slice_subrange(s, k, s.len());
    let ghost b = body@;
    assert(b == rest(s@, k as nat));
    let mut acc: Vec<Vec<u8>> = Vec::new();
    let mut pos: usize = 0;
    let mut i: u32 = 0;
    while i < n
        invariant
            i <= n,
            pos <= b.len(),
            body@ == b,
            b == rest(s@, k as nat),
            parse_u32(s@) == Some((n, k as nat)),
            parse_items(b, i as nat) == Some((items_view(acc@), pos as nat)),
        decreases n - i,
    {
        let sub = slice_subrange(body, pos, body.len());
        match read_bytes(sub) {
            None => {
                proof {
                    assert(sub@ == rest(b, pos as nat));
                    assert(parse_items(b, (i + 1) as nat).is_none());
                    lemma_items_stay_none(b, (i + 1) as nat, n as nat);
                    assert(parse_u32(s@) == Some((n, k as nat)));
                    assert(parse_items(rest(s@, k as nat), n as nat).is_none());
                }
                return None;
            },
            Some((x, j)) => {
                let ghost old_acc = items_view(acc@);
                acc.push(x);
                assert(items_view(acc@) =~= old_acc.push(x@));
                pos = pos + j;
                i = i + 1;
            },
        }
    }
    Some((acc, k + pos))
}

pub(crate) fn read_pair(s: &[u8]) -> (r: Option<((Vec<u8>, Vec<u8>), usize)>)
    ensures
        r.is_some() == parse_pair(s@).is_some(),
        r.is_some() ==> (r.unwrap().0.0@, r.unwrap().0.1@) == parse_pair(s@).unwrap().0
            && r.unwrap().1 == parse_pair(s@).unwrap().1,
        r.is_some() ==> r.unwrap().1 <= s@.len(),
{
    let (a, k) = match read_bytes(s) {
        None => return None,
        Some(p) => p,
    };
    let sub = slice_subrange(s, k, s.len());
    assert(sub@ == rest(s@, k as nat));
    match read_bytes(sub) {
        None => None,
        Some((b, j)) => Some(((a, b), k + j)),
    }
}

pub(crate) fn read_pairs(s: &[u8]) -> (r: Option<(Vec<(Vec<u8>, Vec<u8>)>, usize)>)
    ensures
        r.is_some() == parse_pairs(s@).is_some(),
        r.is_some() ==> pairs_view(r.unwrap().0@) == parse_pairs(s@).unwrap().0 && r.unwrap().1
            == parse_pairs(s@).unwrap().1,
        r.is_some() ==> r.unwrap().1 <= s@.len(),
{
    let (n, k) = match read_u32(s) {
        None => return None,
        Some(p) => p,
    };
    let body = slice_subrange(s, k, s.len());
    let ghost b = body@;
    let mut acc: Vec<(Vec<u8>, Vec<u8>)> = Vec::new();
    let mut pos: usize = 0;
    let mut i: u32 = 0;
    while i < n
        invariant
            i <= n,
            pos <= b.len(),
            body@ == b,
            b == rest(s@, k as nat),
            parse_u32(s@) == Some((n, k as nat)),
            parse_pair_items(b, i as nat) == Some((pairs_view(acc@), pos as nat)),
        decreases n - i,
    {
        let sub = slice_subrange(body, pos, body.len());
        assert(sub@ == rest(b, pos as nat));
        match read_pair(sub) {
            None => {
                proof {
                    assert(parse_pair_items(b, (i + 1) as nat).is_none());
                    lemma_pair_items_stay_none(b, (i + 1) as nat, n as nat);
                }
                return None;
            },
            Some((p, j)) => {
                let ghost old_acc = pairs_view(acc@);
                acc.push(p);
                assert(pairs_view(acc@) =~= old_acc.push((p.0@, p.1@)));
                pos = pos + j;
                i = i + 1;
            },
        }
    }
    Some((acc, k + pos))
}

} // verus!
