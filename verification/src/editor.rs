//! The editing operations behind the editor: where a signal's bits lie in its
//! frame, the first free bit, fresh ids and names for new objects.
use vstd::prelude::*;
use crate::model::{ByteOrder, Message, SignalView, Signal};

verus! {

// ---------------------------------------------------------------------------
// Bit positions.
/// One step of a big-endian (Motorola) signal toward its least significant
/// bit: down within a byte, wrapping to the top of the next byte.
pub open spec fn motorola_next(p: int) -> int {
    if p % 8 == 0 {
        p + 15
    } else {
        p - 1
    }
}

/// The `k`-th bit of a big-endian signal that starts at `start`.
pub open spec fn motorola_at(start: int, k: nat) -> int
    decreases k,
{
    if k == 0 {
        start
    } else {
        motorola_next(motorola_at(start, (k - 1) as nat))
    }
}

/// The flat bit positions (byte * 8 + bit in byte) a signal occupies, in the
/// order of its bits.
pub open spec fn positions_spec(s: SignalView) -> Seq<int> {
    match s.byte_order {
        ByteOrder::LittleEndian => Seq::new(s.size as nat, |i: int| s.start_bit + i),
        ByteOrder::BigEndian => if s.start_bit > i64::MAX {
            Seq::empty()
        } else {
            Seq::new(s.size as nat, |i: int| motorola_at(s.start_bit as int, i as nat))
        },
    }
}

/// The positions of a signal can be computed without overflow: a
/// little-endian signal ends within `u64`; a big-endian walk that starts
/// within `i64` never wraps to the next byte from above `i64::MAX - 15`.
pub open spec fn positions_fit(s: SignalView) -> bool {
    match s.byte_order {
        ByteOrder::LittleEndian => s.start_bit + s.size <= u64::MAX + 1,
        ByteOrder::BigEndian => s.start_bit > i64::MAX || forall|k: nat|
            k < s.size && #[trigger] motorola_at(s.start_bit as int, k) % 8 == 0
                ==> motorola_at(s.start_bit as int, k) + 15 <= i64::MAX,
    }
}

pub proof fn lemma_motorola_bounds(start: int, k: nat)
    requires
        start >= 0,
    ensures
        0 <= motorola_at(start, k) <= start + 15 * k,
    decreases k,
{
    if k > 0 {
        lemma_motorola_bounds(start, (k - 1) as nat);
    }
}

/// Bit `b` comes after bit `a` in a big-endian walk: in a later byte, or
/// lower in the same byte.
pub open spec fn walks_after(a: int, b: int) -> bool {
    b / 8 > a / 8 || (b / 8 == a / 8 && b < a)
}

/// One step of a big-endian walk goes down within a byte, or from its bit 0
/// to bit 7 of the next byte.
pub proof fn lemma_motorola_step(p: int)
    requires
        p >= 0,
    ensures
        motorola_next(p) >= 0,
        p % 8 == 0 ==> motorola_next(p) == 8 * (p / 8 + 1) + 7,
        p % 8 != 0 ==> motorola_next(p) == p - 1 && motorola_next(p) / 8 == p / 8,
        walks_after(p, motorola_next(p)),
{
}

/// The bits of a big-endian signal never repeat: each comes in a later byte,
/// or lower in the same byte, than every bit before it.
pub proof fn lemma_motorola_distinct(start: int, i: nat, j: nat)
    requires
        start >= 0,
        i < j,
    ensures
        walks_after(motorola_at(start, i), motorola_at(start, j)),
        motorola_at(start, i) != motorola_at(start, j),
    decreases j,
{
    let jm = (j - 1) as nat;
    lemma_motorola_bounds(start, jm);
    lemma_motorola_step(motorola_at(start, jm));
    if i < jm {
        lemma_motorola_distinct(start, i, jm);
    }
}

/// The positions of a signal are pairwise distinct.
pub proof fn lemma_positions_distinct(s: SignalView, i: int, j: int)
    requires
        0 <= i < j < positions_spec(s).len(),
    ensures
        positions_spec(s)[i] != positions_spec(s)[j],
{
    match s.byte_order {
        ByteOrder::LittleEndian => {},
        ByteOrder::BigEndian => {
            lemma_motorola_distinct(s.start_bit as int, i as nat, j as nat);
        },
    }
}

/// A big-endian walk from bit 7 of byte `b` covers that byte from bit 7 down
/// to bit 0, then the next byte from bit 7 down.
pub proof fn lemma_motorola_from_top(b: nat, k: nat)
    requires
        k < 16,
    ensures
        motorola_at((8 * b + 7) as int, k) == (if k < 8 {
            8 * b + 7 - k
        } else {
            8 * b + 23 - k
        }),
    decreases k,
{
    if k > 0 {
        lemma_motorola_from_top(b, (k - 1) as nat);
    }
}

/// A big-endian signal of 16 bits starting at bit 7 of byte `b` occupies
/// exactly bytes `b` and `b + 1`.
pub proof fn lemma_two_byte_signal(s: SignalView, b: nat)
    requires
        s.byte_order == ByteOrder::BigEndian,
        s.start_bit as int == 8 * b + 7,
        s.start_bit <= i64::MAX,
        s.size == 16,
    ensures
        positions_spec(s).len() == 16,
        forall|k: int| 0 <= k < 16 ==> 8 * b <= #[trigger] positions_spec(s)[k] < 8 * b + 16,
        forall|p: int| 8 * b <= p < 8 * b + 16 ==> positions_spec(s).contains(p),
{
    assert forall|k: int| 0 <= k < 16 implies 8 * b <= #[trigger] positions_spec(s)[k] < 8 * b
        + 16 by {
        lemma_motorola_from_top(b, k as nat);
    }
    assert forall|p: int| 8 * b <= p < 8 * b + 16 implies positions_spec(s).contains(p) by {
        let k: int = if p < 8 * b + 8 {
            8 * b + 7 - p
        } else {
            8 * b + 23 - p
        };
        lemma_motorola_from_top(b, k as nat);
        assert(positions_spec(s)[k] == p);
    }
}

/// `occupied_positions`: the flat bit positions a signal occupies.
pub fn occupied_positions(s: &Signal) -> (r: Vec<u64>)
    requires
        positions_fit(s@),
    ensures
        r.len() == positions_spec(s@).len(),
        forall|i: int| 0 <= i < r.len() ==> r[i] as int == #[trigger] positions_spec(s@)[i],
{
    let mut out: Vec<u64> = Vec::new();
    match s.byte_order {
        ByteOrder::LittleEndian => {
            let mut i: u64 = 0;
            while i < s.size
                invariant
                    s.byte_order == ByteOrder::LittleEndian,
                    positions_fit(s@),
                    i <= s.size,
                    out.len() == i,
                    forall|j: int| 0 <= j < i ==> out[j] as int == s.start_bit + j,
                decreases s.size - i,
            {
                out.push(s.start_bit + i);
                i += 1;
            }
        },
        ByteOrder::BigEndian => {
            if s.start_bit > i64::MAX as u64 {
                return out;
            }
            let start = s.start_bit as i64;
            let mut pos: i64 = start;
            let mut k: u64 = 0;
            while k < s.size
                invariant
                    s.byte_order == ByteOrder::BigEndian,
                    s.start_bit <= i64::MAX,
                    start == s.start_bit,
                    positions_fit(s@),
                    k <= s.size,
                    out.len() == k,
                    pos == motorola_at(start as int, k as nat),
                    forall|j: int| 0 <= j < k ==> out[j] as int == motorola_at(start as int, j as nat),
                decreases s.size - k,
            {
                proof {
                    lemma_motorola_bounds(start as int, k as nat);
                    if pos % 8 == 0 {
                        assert(motorola_at(s.start_bit as int, k as nat) % 8 == 0);
                        assert(motorola_at(s.start_bit as int, k as nat) + 15 <= i64::MAX);
                    }
                }
                out.push(pos as u64);
                if pos % 8 == 0 {
                    pos = pos + 15;
                } else {
                    pos = pos - 1;
                }
                k += 1;
            }
        },
    }
    out
}

/// Some signal of `sigs` occupies bit `p`.
pub open spec fn bit_used(sigs: Seq<SignalView>, p: int) -> bool {
    exists|i: int, j: int|
        #![trigger positions_spec(sigs[i])[j]]
        0 <= i < sigs.len() && 0 <= j < positions_spec(sigs[i]).len() && positions_spec(sigs[i])[j]
            == p
}

pub open spec fn all_positions_fit(sigs: Seq<SignalView>) -> bool {
    forall|i: int| 0 <= i < sigs.len() ==> positions_fit(#[trigger] sigs[i])
}

/// `b` is the lowest bit that no signal of `sigs` occupies.
pub open spec fn is_lowest_free(sigs: Seq<SignalView>, b: int) -> bool {
    &&& b >= 0
    &&& !bit_used(sigs, b)
    &&& forall|p: int| 0 <= p < b ==> bit_used(sigs, p)
}

/// The bit a new signal starts at: the lowest bit no signal occupies.
pub open spec fn free_bit(sigs: Seq<SignalView>) -> int {
    choose|b: int| is_lowest_free(sigs, b)
}

/// There is only one lowest free bit.
pub proof fn lemma_lowest_free_unique(sigs: Seq<SignalView>, b: int)
    requires
        is_lowest_free(sigs, b),
    ensures
        free_bit(sigs) == b,
{
    let c = free_bit(sigs);
    assert(is_lowest_free(sigs, c));
    if c < b {
        assert(bit_used(sigs, c));
    } else if b < c {
        assert(bit_used(sigs, b));
    }
}

/// `next_free_bit`: the lowest bit index that no signal of the message uses.
pub fn next_free_bit(m: &Message) -> (r: u64)
    requires
        all_positions_fit(m@.signals),
    ensures
        is_lowest_free(m@.signals, r as int),
        r == free_bit(m@.signals),
{
    let ghost sigs = m@.signals;
    // Every occupied position, signal after signal.
    let mut all: Vec<u64> = Vec::new();
    let mut si: usize = 0;
    while si < m.signals.len()
        invariant
            sigs == m@.signals,
            all_positions_fit(sigs),
            si <= m.signals.len(),
            forall|p: int|
                bit_used(sigs.take(si as int), p) <==> exists|k: int|
                    0 <= k < all.len() && #[trigger] all@[k] as int == p,
        decreases m.signals.len() - si,
    {
        assert(sigs[si as int] == m.signals@[si as int]@);
        let ps = occupied_positions(&m.signals[si]);
        let ghost before = sigs.take(si as int);
        let ghost now = sigs.take(si + 1);
        let ghost pv = positions_spec(sigs[si as int]);
        let ghost a0 = all@;
        let mut j: usize = 0;
        while j < ps.len()
            invariant
                ps.len() == pv.len(),
                forall|k: int| 0 <= k < ps.len() ==> ps[k] as int == #[trigger] pv[k],
                j <= ps.len(),
                all@ == a0 + ps@.take(j as int),
            decreases ps.len() - j,
        {
            all.push(ps[j]);
            j += 1;
            assert(all@ =~= a0 + ps@.take(j as int));
        }
        assert(ps@.take(ps.len() as int) =~= ps@);
        proof {
            assert(now.drop_last() =~= before);
            assert(now[si as int] == sigs[si as int]);
            assert forall|p: int|
                bit_used(now, p) <==> exists|k: int| 0 <= k < all.len() && #[trigger] all@[k] as int
                    == p by {
                if bit_used(now, p) {
                    let (a, b) = choose|a: int, b: int|
                        #![trigger positions_spec(now[a])[b]]
                        0 <= a < now.len() && 0 <= b < positions_spec(now[a]).len()
                            && positions_spec(now[a])[b] == p;
                    if a < si {
                        assert(before[a] == now[a]);
                        assert(positions_spec(before[a])[b] == p);
                        assert(bit_used(before, p));
                        let k = choose|k: int| 0 <= k < a0.len() && #[trigger] a0[k] as int == p;
                        assert(all@[k] == a0[k]);
                    } else {
                        assert(pv[b] == p);
                        assert(all@[a0.len() + b] == ps@[b]);
                    }
                }
                if exists|k: int| 0 <= k < all.len() && #[trigger] all@[k] as int == p {
                    let k = choose|k: int| 0 <= k < all.len() && #[trigger] all@[k] as int == p;
                    if k < a0.len() {
                        assert(a0[k] == all@[k]);
                        assert(bit_used(before, p));
                        let (a, b) = choose|a: int, b: int|
                            #![trigger positions_spec(before[a])[b]]
                            0 <= a < before.len() && 0 <= b < positions_spec(before[a]).len()
                                && positions_spec(before[a])[b] == p;
                        assert(now[a] == before[a]);
                        assert(positions_spec(now[a])[b] == p);
                    } else {
                        let b = k - a0.len();
                        assert(all@[k] == ps@[b]);
                        assert(positions_spec(now[si as int])[b] == p);
                    }
                }
            }
        }
        si += 1;
    }
    assert(sigs.take(m.signals.len() as int) =~= sigs);
    // Mark the positions below their count: the lowest free bit is among
    // them or is the count itself.
    let n = all.len();
    let mut used: Vec<bool> = Vec::new();
    while used.len() < n
        invariant
            used.len() <= n,
            forall|p: int| 0 <= p < used.len() ==> !used[p],
        decreases n - used.len(),
    {
        used.push(false);
    }
    let mut k: usize = 0;
    while k < n
        invariant
            n == all.len(),
            used.len() == n,
            k <= n,
            forall|p: int|
                0 <= p < n ==> (used[p] <==> exists|j: int|
                    0 <= j < k && #[trigger] all@[j] as int == p),
        decreases n - k,
    {
        let ghost u0 = used@;
        let ghost kk = k as int;
        if all[k] < n as u64 {
            used.set(all[k] as usize, true);
        }
        k += 1;
        proof {
            assert forall|p: int| 0 <= p < n implies (used@[p] <==> exists|j: int|
                0 <= j < k && #[trigger] all@[j] as int == p) by {
                if all@[kk] as int == p {
                    assert(used@[p]);
                } else {
                    assert(used@[p] == u0[p]);
                    if exists|j: int| 0 <= j < k && #[trigger] all@[j] as int == p {
                        let j = choose|j: int| 0 <= j < k && #[trigger] all@[j] as int == p;
                        assert(j != kk);
                        assert(exists|j: int| 0 <= j < kk && #[trigger] all@[j] as int == p);
                    }
                    if exists|j: int| 0 <= j < kk && #[trigger] all@[j] as int == p {
                        let j = choose|j: int| 0 <= j < kk && #[trigger] all@[j] as int == p;
                        assert(exists|j: int| 0 <= j < k && #[trigger] all@[j] as int == p);
                    }
                }
            }
        }
    }
    let mut i: usize = 0;
    while i < n && used[i]
        invariant
            used.len() == n,
            i <= n,
            forall|p: int| 0 <= p < i ==> used[p],
        decreases n - i,
    {
        i += 1;
    }
    proof {
        assert forall|p: int| 0 <= p < i implies bit_used(sigs, p) by {
            assert(used[p]);
        }
        if i < n {
            assert(!used[i as int]);
        } else if bit_used(sigs, i as int) {
            lemma_no_room(all@, n as int);
            let q = choose|q: int| 0 <= q <= n && !holds_value(all@, q);
            if q < n {
                assert(used[q]);
            }
            assert(holds_value(all@, q));
        }
        lemma_lowest_free_unique(sigs, i as int);
    }
    i as u64
}

/// Some value of `all` is `p`.
pub open spec fn holds_value(all: Seq<u64>, p: int) -> bool {
    exists|j: int| 0 <= j < all.len() && #[trigger] all[j] as int == p
}

/// `n` values leave one of `0..=n` out.
pub proof fn lemma_no_room(all: Seq<u64>, n: int)
    requires
        n == all.len(),
    ensures
        exists|p: int| 0 <= p <= n && !holds_value(all, p),
{
    broadcast use vstd::seq_lib::seq_to_set_is_finite;

    if forall|p: int| 0 <= p <= n ==> holds_value(all, p) {
        let vals = all.map_values(|x: u64| x as int);
        let s = vals.to_set();
        let r = vstd::set_lib::set_int_range(0, n + 1);
        vstd::set_lib::lemma_int_range(0, n + 1);
        vals.lemma_cardinality_of_set();
        assert forall|p: int| r.contains(p) implies s.contains(p) by {
            assert(holds_value(all, p));
            let j = choose|j: int| 0 <= j < all.len() && #[trigger] all[j] as int == p;
            assert(vals[j] == p);
        }
        assert(r.subset_of(s));
        vstd::set_lib::lemma_len_subset(r, s);
    }
}

/// The last signal of `sigs` that occupies bit `p`.
pub open spec fn last_owner(sigs: Seq<SignalView>, p: int) -> Option<int>
    decreases sigs.len(),
{
    if sigs.len() == 0 {
        None
    } else if positions_spec(sigs.last()).contains(p) {
        Some(sigs.len() - 1)
    } else {
        last_owner(sigs.drop_last(), p)
    }
}

/// The number of bits the layout of a message shows: its bytes, at least
/// one, and at least 64 bits.
pub open spec fn layout_bits(size: u64) -> int {
    let b = (if size > 0 { size as int } else { 1 }) * 8;
    if b > 64 {
        b
    } else {
        64
    }
}

/// The owner of each bit of a message's layout: the last signal that
/// occupies it, if any.
pub fn bit_owners(m: &Message) -> (r: Vec<Option<usize>>)
    requires
        all_positions_fit(m@.signals),
        m.size * 8 <= usize::MAX,
    ensures
        r.len() == layout_bits(m.size),
        forall|p: int|
            0 <= p < r.len() ==> #[trigger] r[p] == match last_owner(m@.signals, p) {
                Some(i) => Some(i as usize),
                None => None,
            },
{
    let ghost sigs = m@.signals;
    let bytes: u64 = if m.size > 0 {
        m.size
    } else {
        1
    };
    let bits: u64 = bytes * 8;
    let total: usize = if bits > 64 {
        bits as usize
    } else {
        64
    };
    let mut owner: Vec<Option<usize>> = Vec::new();
    while owner.len() < total
        invariant
            owner.len() <= total,
            forall|p: int| 0 <= p < owner.len() ==> owner[p] is None,
        decreases total - owner.len(),
    {
        owner.push(None);
    }
    let mut si: usize = 0;
    while si < m.signals.len()
        invariant
            sigs == m@.signals,
            all_positions_fit(sigs),
            si <= m.signals.len(),
            owner.len() == total,
            forall|p: int|
                0 <= p < total ==> #[trigger] owner[p] == match last_owner(sigs.take(si as int), p) {
                    Some(i) => Some(i as usize),
                    None => None,
                },
        decreases m.signals.len() - si,
    {
        assert(sigs[si as int] == m.signals@[si as int]@);
        let ps = occupied_positions(&m.signals[si]);
        let ghost before = sigs.take(si as int);
        let ghost now = sigs.take(si + 1);
        let ghost pv = positions_spec(sigs[si as int]);
        let mut j: usize = 0;
        while j < ps.len()
            invariant
                owner.len() == total,
                ps.len() == pv.len(),
                forall|k: int| 0 <= k < ps.len() ==> ps[k] as int == #[trigger] pv[k],
                j <= ps.len(),
                si < sigs.len(),
                forall|p: int|
                    0 <= p < total ==> #[trigger] owner[p] == if exists|k: int|
                        0 <= k < j && #[trigger] pv[k] == p {
                        Some(si)
                    } else {
                        match last_owner(before, p) {
                            Some(i) => Some(i as usize),
                            None => None,
                        }
                    },
            decreases ps.len() - j,
        {
            if ps[j] < total as u64 {
                owner.set(ps[j] as usize, Some(si));
            }
            proof {
                assert forall|p: int| 0 <= p < total implies #[trigger] owner[p] == if exists|k: int|
                    0 <= k < j + 1 && #[trigger] pv[k] == p {
                    Some(si)
                } else {
                    match last_owner(before, p) {
                        Some(i) => Some(i as usize),
                        None => None,
                    }
                } by {
                    if pv[j as int] == p {
                        assert(exists|k: int| 0 <= k < j + 1 && #[trigger] pv[k] == p);
                    } else if exists|k: int| 0 <= k < j + 1 && #[trigger] pv[k] == p {
                        let k = choose|k: int| 0 <= k < j + 1 && #[trigger] pv[k] == p;
                        assert(k < j);
                    }
                }
            }
            j += 1;
        }
        proof {
            assert(now.drop_last() =~= before);
            assert(now.last() == sigs[si as int]);
            assert forall|p: int| 0 <= p < total implies #[trigger] owner[p] == match last_owner(
                now,
                p,
            ) {
                Some(i) => Some(i as usize),
                None => None,
            } by {
                if pv.contains(p) {
                    let k = choose|k: int| 0 <= k < pv.len() && pv[k] == p;
                    assert(exists|k: int| 0 <= k < ps.len() && #[trigger] pv[k] == p);
                } else {
                    if exists|k: int| 0 <= k < ps.len() && #[trigger] pv[k] == p {
                        let k = choose|k: int| 0 <= k < ps.len() && #[trigger] pv[k] == p;
                        assert(pv.contains(p));
                    }
                }
            }
        }
        si += 1;
    }
    assert(sigs.take(m.signals.len() as int) =~= sigs);
    owner
}

// ---------------------------------------------------------------------------
// Message ids.
/// The extended-frame bit of an id, as a mask.
pub open spec fn extended_bits(id: u32) -> u32 {
    if id & crate::model::EXTENDED_FLAG != 0 {
        crate::model::EXTENDED_FLAG
    } else {
        0
    }
}

/// An id is its functional part and its extended flag.
pub proof fn lemma_id_parts(id: u32)
    ensures
        (id & 0x7fff_ffff) | extended_bits(id) == id,
{
    if id & 0x8000_0000 != 0 {
        assert((id & 0x7fff_ffff) | 0x8000_0000 == id) by (bit_vector)
            requires
                id & 0x8000_0000 != 0,
        ;
    } else {
        assert((id & 0x7fff_ffff) | 0 == id) by (bit_vector)
            requires
                id & 0x8000_0000 == 0,
        ;
    }
}

/// Setting the functional id keeps the extended flag, and reads back.
pub proof fn lemma_set_raw_id(id: u32, raw: u32)
    requires
        raw <= 0x7fff_ffff,
    ensures
        (raw | extended_bits(id)) & 0x7fff_ffff == raw,
        ((raw | extended_bits(id)) & crate::model::EXTENDED_FLAG != 0) == (id
            & crate::model::EXTENDED_FLAG != 0),
{
    if id & 0x8000_0000 != 0 {
        assert((raw | 0x8000_0000) & 0x7fff_ffff == raw && (raw | 0x8000_0000) & 0x8000_0000 != 0)
            by (bit_vector)
            requires
                raw <= 0x7fff_ffff,
        ;
    } else {
        assert((raw | 0) & 0x7fff_ffff == raw && (raw | 0) & 0x8000_0000 == 0) by (bit_vector)
            requires
                raw <= 0x7fff_ffff,
        ;
    }
}

/// Setting the extended flag keeps the functional id, and reads back.
pub proof fn lemma_set_extended(id: u32, ext: bool)
    ensures
        ((id & 0x7fff_ffff) | (if ext {
            crate::model::EXTENDED_FLAG
        } else {
            0
        })) & 0x7fff_ffff == id & 0x7fff_ffff,
        (((id & 0x7fff_ffff) | (if ext {
            crate::model::EXTENDED_FLAG
        } else {
            0
        })) & crate::model::EXTENDED_FLAG != 0) == ext,
{
    if ext {
        assert(((id & 0x7fff_ffff) | 0x8000_0000) & 0x7fff_ffff == id & 0x7fff_ffff && ((id
            & 0x7fff_ffff) | 0x8000_0000) & 0x8000_0000 != 0) by (bit_vector);
    } else {
        assert(((id & 0x7fff_ffff) | 0) & 0x7fff_ffff == id & 0x7fff_ffff && ((id & 0x7fff_ffff)
            | 0) & 0x8000_0000 == 0) by (bit_vector);
    }
}

impl Message {
    /// Sets the functional id, keeping the extended flag.
    pub fn set_raw_id(&mut self, raw: u32)
        ensures
            final(self)@ == (crate::model::MessageView {
                id: raw | extended_bits(old(self).id),
                ..old(self)@
            }),
    {
        let ext = self.is_extended();
        self.id = raw | if ext {
            crate::model::EXTENDED_FLAG
        } else {
            0
        };
    }

    /// Sets or clears the extended flag, keeping the functional id.
    pub fn set_extended(&mut self, ext: bool)
        ensures
            final(self)@ == (crate::model::MessageView {
                id: (old(self).id & 0x7fff_ffff) | (if ext {
                    crate::model::EXTENDED_FLAG
                } else {
                    0
                }),
                ..old(self)@
            }),
    {
        self.id = self.raw_id() | if ext {
            crate::model::EXTENDED_FLAG
        } else {
            0
        };
    }
}

// ---------------------------------------------------------------------------
// New objects.
/// `prefix` followed by the decimal text of `n`.
fn numbered_name(prefix: &str, n: u64) -> (r: String)
    ensures
        r@ == prefix@ + crate::numbers::nat_text(n as nat),
{
    let mut v = crate::text::chars_of(prefix);
    let d = crate::numbers::u64_chars(n);
    crate::text::push_all(&mut v, &d);
    crate::text::to_string(&v)
}

/// The largest functional id of the messages.
pub open spec fn max_raw_id(ms: Seq<crate::model::MessageView>) -> Option<int>
    decreases ms.len(),
{
    if ms.len() == 0 {
        None
    } else {
        let r = (ms.last().id & 0x7fff_ffff) as int;
        match max_raw_id(ms.drop_last()) {
            Some(m) => Some(if m > r {
                m
            } else {
                r
            }),
            None => Some(r),
        }
    }
}

/// The id of a new message: one past the largest functional id, 256 in an
/// empty database.
pub open spec fn next_id_spec(ms: Seq<crate::model::MessageView>) -> int {
    match max_raw_id(ms) {
        Some(m) => m + 1,
        None => 256,
    }
}

pub proof fn lemma_max_raw_id_bound(ms: Seq<crate::model::MessageView>)
    ensures
        max_raw_id(ms) matches Some(m) ==> 0 <= m <= 0x7fff_ffff,
    decreases ms.len(),
{
    if ms.len() > 0 {
        lemma_max_raw_id_bound(ms.drop_last());
        let id = ms.last().id;
        assert(id & 0x7fff_ffff <= 0x7fff_ffff) by (bit_vector);
    }
}

/// The largest functional id is one of the messages' and none is larger.
pub proof fn lemma_max_raw_id_is_max(ms: Seq<crate::model::MessageView>)
    ensures
        ms.len() == 0 <==> max_raw_id(ms) is None,
        max_raw_id(ms) matches Some(m) ==> (forall|i: int|
            0 <= i < ms.len() ==> m >= (#[trigger] ms[i].id & 0x7fff_ffff) as int) && exists|i: int|
            0 <= i < ms.len() && m == (#[trigger] ms[i].id & 0x7fff_ffff) as int,
    decreases ms.len(),
{
    if ms.len() > 0 {
        let ys = ms.drop_last();
        lemma_max_raw_id_is_max(ys);
        let r = (ms.last().id & 0x7fff_ffff) as int;
        let l = ms.len() - 1;
        assert(ms[l] == ms.last());
        match max_raw_id(ys) {
            Some(m) => {
                assert forall|i: int| 0 <= i < ms.len() implies max_raw_id(ms).unwrap() >= (
                #[trigger] ms[i].id & 0x7fff_ffff) as int by {
                    if i < l {
                        assert(ms[i] == ys[i]);
                    }
                }
                let j = choose|j: int| 0 <= j < ys.len() && m == (#[trigger] ys[j].id & 0x7fff_ffff) as int;
                assert(ms[j] == ys[j]);
                if m > r {
                    assert(max_raw_id(ms).unwrap() == (ms[j].id & 0x7fff_ffff) as int);
                } else {
                    assert(max_raw_id(ms).unwrap() == (ms[l].id & 0x7fff_ffff) as int);
                }
            },
            None => {
                assert(ys.len() == 0);
                assert(max_raw_id(ms).unwrap() == (ms[l].id & 0x7fff_ffff) as int);
            },
        }
    }
}

/// The id of a new message is greater than the functional id of every
/// message present, so it is none of their functional ids; it is one past the largest of
/// them, and 256 when there are none.
pub proof fn lemma_next_id_fresh(ms: Seq<crate::model::MessageView>)
    ensures
        forall|i: int| 0 <= i < ms.len() ==> next_id_spec(ms) > (#[trigger] ms[i].id & 0x7fff_ffff) as int,
        ms.len() > 0 ==> exists|i: int| 0 <= i < ms.len() && next_id_spec(ms) == (#[trigger] ms[i].id
            & 0x7fff_ffff) as int + 1,
        ms.len() == 0 ==> next_id_spec(ms) == 256,
        next_id_spec(ms) <= 0x8000_0000,
{
    lemma_max_raw_id_is_max(ms);
    lemma_max_raw_id_bound(ms);
}

/// The last message with the most signals.
pub open spec fn richest(ms: Seq<crate::model::MessageView>) -> Option<int>
    decreases ms.len(),
{
    if ms.len() == 0 {
        None
    } else {
        match richest(ms.drop_last()) {
            Some(i) => if ms.last().signals.len() >= ms[i].signals.len() {
                Some(ms.len() - 1)
            } else {
                Some(i)
            },
            None => Some(ms.len() - 1),
        }
    }
}

pub proof fn lemma_richest(ms: Seq<crate::model::MessageView>)
    ensures
        richest(ms) matches Some(i) ==> 0 <= i < ms.len(),
        ms.len() > 0 ==> richest(ms) is Some,
    decreases ms.len(),
{
    if ms.len() > 0 {
        lemma_richest(ms.drop_last());
    }
}

impl crate::model::Dbc {
    /// The id for a new message: one past the largest functional id in use,
    /// or 256.
    pub fn next_message_id(&self) -> (r: u32)
        ensures
            r as int == next_id_spec(self@.messages),
    {
        let ghost ms = self@.messages;
        let mut best: Option<u32> = None;
        let mut i: usize = 0;
        while i < self.messages.len()
            invariant
                ms == self@.messages,
                i <= self.messages.len(),
                match max_raw_id(ms.take(i as int)) {
                    Some(m) => best == Some(m as u32) && m <= 0x7fff_ffff,
                    None => best is None,
                },
            decreases self.messages.len() - i,
        {
            proof {
                lemma_max_raw_id_bound(ms.take(i + 1));
                assert(ms.take(i + 1).drop_last() =~= ms.take(i as int));
                assert(ms[i as int] == self.messages@[i as int]@);
            }
            let r = self.messages[i].raw_id();
            best = match best {
                Some(m) => if m > r {
                    Some(m)
                } else {
                    Some(r)
                },
                None => Some(r),
            };
            i += 1;
        }
        assert(ms.take(self.messages.len() as int) =~= ms);
        match best {
            Some(m) => m + 1,
            None => 256,
        }
    }

    /// Adds a message with a fresh id named after it, and returns its index.
    pub fn add_message(&mut self) -> (r: usize)
        requires
            old(self).messages.len() < usize::MAX,
        ensures
            final(self)@ == (crate::model::DbcView {
                messages: old(self)@.messages.push(
                    crate::model::MessageView {
                        id: next_id_spec(old(self)@.messages) as u32,
                        name: "NEW_MSG_"@ + crate::numbers::nat_text(
                            next_id_spec(old(self)@.messages) as nat,
                        ),
                        size: 8,
                        transmitter: crate::model::vector_xxx(),
                        signals: Seq::empty(),
                        comment: None,
                    },
                ),
                ..old(self)@
            }),
            r == old(self).messages.len(),
    {
        let id = self.next_message_id();
        let name = numbered_name("NEW_MSG_", id as u64);
        let m = Message::new(id, name);
        self.messages.push(m);
        assert(crate::model::messages_view(self.messages@) =~= crate::model::messages_view(
            old(self).messages@,
        ).push(m@));
        self.messages.len() - 1
    }

    /// Adds a node named `NODE_<count>`.
    pub fn add_node(&mut self)
        requires
            old(self).nodes.len() < u64::MAX,
        ensures
            final(self)@ == (crate::model::DbcView {
                nodes: old(self)@.nodes.push(
                    crate::model::NodeView {
                        name: "NODE_"@ + crate::numbers::nat_text((old(self).nodes.len() + 1) as nat),
                        comment: None,
                    },
                ),
                ..old(self)@
            }),
    {
        let n = self.nodes.len() as u64 + 1;
        let name = numbered_name("NODE_", n);
        let node = crate::model::Node { name, comment: None };
        self.nodes.push(node);
        assert(crate::model::nodes_view(self.nodes@) =~= crate::model::nodes_view(old(self).nodes@).push(
            node@,
        ));
    }

    /// Adds a value table `Table_<count>` with the entries `0 "off"` and
    /// `1 "on"`.
    pub fn add_value_table(&mut self)
        requires
            old(self).value_tables.len() < u64::MAX,
        ensures
            final(self)@ == (crate::model::DbcView {
                value_tables: old(self)@.value_tables.push(
                    crate::model::ValueTableView {
                        name: "Table_"@ + crate::numbers::nat_text(
                            (old(self).value_tables.len() + 1) as nat,
                        ),
                        values: seq![(0i64, "off"@), (1i64, "on"@)],
                    },
                ),
                ..old(self)@
            }),
    {
        let n = self.value_tables.len() as u64 + 1;
        let name = numbered_name("Table_", n);
        let values = vec![(0i64, String::from_str("off")), (1i64, String::from_str("on"))];
        let t = crate::model::ValueTable { name, values };
        self.value_tables.push(t);
        assert(crate::model::pairs(t.values@) =~= seq![(0i64, "off"@), (1i64, "on"@)]);
        assert(crate::model::tables_view(self.value_tables@) =~= crate::model::tables_view(
            old(self).value_tables@,
        ).push(t@));
    }

    /// A new database: no version, one node `ECU`, nothing else.
    pub fn new_database() -> (r: crate::model::Dbc)
        ensures
            r@ == (crate::model::DbcView {
                version: Seq::empty(),
                new_symbols: Seq::empty(),
                nodes: seq![(crate::model::NodeView { name: "ECU"@, comment: None })],
                value_tables: Seq::empty(),
                messages: Seq::empty(),
                comment: None,
                extra: Seq::empty(),
            }),
    {
        let mut d = crate::model::Dbc::default();
        let node = crate::model::Node { name: String::from_str("ECU"), comment: None };
        d.nodes.push(node);
        proof {
            reveal_strlit("ECU");
        }
        assert(crate::model::nodes_view(d.nodes@) =~= seq![
            crate::model::NodeView { name: "ECU"@, comment: None },
        ]);
        d
    }

    /// Removes the node at `idx`.
    pub fn remove_node(&mut self, idx: usize)
        requires
            idx < old(self).nodes.len(),
        ensures
            final(self)@ == (crate::model::DbcView {
                nodes: old(self)@.nodes.remove(idx as int),
                ..old(self)@
            }),
    {
        self.nodes.remove(idx);
        assert(crate::model::nodes_view(self.nodes@) =~= crate::model::nodes_view(
            old(self).nodes@,
        ).remove(idx as int));
    }

    /// Removes the value table at `idx`.
    pub fn remove_value_table(&mut self, idx: usize)
        requires
            idx < old(self).value_tables.len(),
        ensures
            final(self)@ == (crate::model::DbcView {
                value_tables: old(self)@.value_tables.remove(idx as int),
                ..old(self)@
            }),
    {
        self.value_tables.remove(idx);
        assert(crate::model::tables_view(self.value_tables@) =~= crate::model::tables_view(
            old(self).value_tables@,
        ).remove(idx as int));
    }

    /// Removes message `idx` and returns the message to show next: the one
    /// now at `idx`, the new last one, or none when no message is left.
    pub fn remove_message(&mut self, idx: usize) -> (r: Option<usize>)
        requires
            idx < old(self).messages.len(),
        ensures
            final(self)@ == (crate::model::DbcView {
                messages: old(self)@.messages.remove(idx as int),
                ..old(self)@
            }),
            r == (if old(self).messages.len() == 1 {
                None
            } else if idx < old(self).messages.len() - 1 {
                Some(idx)
            } else {
                Some((old(self).messages.len() - 2) as usize)
            }),
    {
        self.messages.remove(idx);
        assert(crate::model::messages_view(self.messages@) =~= crate::model::messages_view(
            old(self).messages@,
        ).remove(idx as int));
        if self.messages.len() == 0 {
            None
        } else if idx < self.messages.len() - 1 {
            Some(idx)
        } else {
            Some(self.messages.len() - 1)
        }
    }

    /// The message with the most signals (the last of those with as many).
    pub fn richest_message(&self) -> (r: Option<usize>)
        ensures
            r == (match richest(self@.messages) {
                Some(i) => Some(i as usize),
                None => None,
            }),
    {
        let ghost ms = self@.messages;
        let mut best: Option<usize> = None;
        let mut i: usize = 0;
        while i < self.messages.len()
            invariant
                ms == self@.messages,
                i <= self.messages.len(),
                best == (match richest(ms.take(i as int)) {
                    Some(j) => Some(j as usize),
                    None => None,
                }),
                forall|j: int| 0 <= j < ms.len() ==> #[trigger] ms[j].signals.len()
                    == self.messages@[j].signals.len(),
            decreases self.messages.len() - i,
        {
            proof {
                lemma_richest(ms.take(i as int));
                assert(ms.take(i + 1).drop_last() =~= ms.take(i as int));
                assert(ms[i as int] == self.messages@[i as int]@);
                match richest(ms.take(i as int)) {
                    Some(j) => {
                        assert(ms.take(i + 1)[j] == ms[j]);
                        assert(ms.take(i + 1).last() == ms[i as int]);
                    },
                    None => {},
                }
            }
            best = match best {
                Some(j) => if self.messages[i].signals.len() >= self.messages[j].signals.len() {
                    Some(i)
                } else {
                    Some(j)
                },
                None => Some(i),
            };
            i += 1;
        }
        assert(ms.take(self.messages.len() as int) =~= ms);
        best
    }
}

impl Message {
    /// Removes the signal at `idx`.
    pub fn remove_signal(&mut self, idx: usize)
        requires
            idx < old(self).signals.len(),
        ensures
            final(self)@ == (crate::model::MessageView {
                signals: old(self)@.signals.remove(idx as int),
                ..old(self)@
            }),
    {
        self.signals.remove(idx);
        assert(crate::model::signals_view(self.signals@) =~= crate::model::signals_view(
            old(self).signals@,
        ).remove(idx as int));
    }

    /// Moves the signal at `idx` one place up, swapping it with the one
    /// before.
    pub fn move_signal_up(&mut self, idx: usize)
        requires
            0 < idx < old(self).signals.len(),
        ensures
            final(self)@ == (crate::model::MessageView {
                signals: old(self)@.signals.update(idx - 1, old(self)@.signals[idx as int]).update(
                    idx as int,
                    old(self)@.signals[idx - 1],
                ),
                ..old(self)@
            }),
    {
        let ghost o = crate::model::signals_view(old(self).signals@);
        let s = self.signals.remove(idx);
        self.signals.insert(idx - 1, s);
        assert(crate::model::signals_view(self.signals@) =~= o.update(idx - 1, o[idx as int]).update(
            idx as int,
            o[idx - 1],
        ));
    }

    /// Adds a signal `NewSignal_<count>` at the first free bit.
    pub fn add_signal(&mut self)
        requires
            all_positions_fit(old(self)@.signals),
            old(self).signals.len() < u64::MAX,
        ensures
            final(self)@ == (crate::model::MessageView {
                signals: old(self)@.signals.push(
                    SignalView {
                        name: "NewSignal_"@ + crate::numbers::nat_text(
                            (old(self).signals.len() + 1) as nat,
                        ),
                        multiplexer: crate::model::Multiplexer::Normal,
                        start_bit: free_bit(old(self)@.signals) as u64,
                        size: 8,
                        byte_order: ByteOrder::LittleEndian,
                        value_type: crate::model::ValueType::Unsigned,
                        factor: crate::decimal::NumberView::Finite {
                            negative: false,
                            digits: seq![1u8],
                            exponent: 0,
                        },
                        offset: crate::decimal::zero(),
                        min: crate::decimal::zero(),
                        max: crate::decimal::zero(),
                        unit: Seq::empty(),
                        receivers: seq![crate::model::vector_xxx()],
                        comment: None,
                        value_descriptions: Seq::empty(),
                    },
                ),
                ..old(self)@
            }),
    {
        let start = next_free_bit(self);
        let n = self.signals.len() as u64 + 1;
        let name = numbered_name("NewSignal_", n);
        let s = Signal::new(name, start);
        self.signals.push(s);
        assert(crate::model::signals_view(self.signals@) =~= crate::model::signals_view(
            old(self).signals@,
        ).push(s@));
    }
}

// ---------------------------------------------------------------------------
// Text fields.
/// The pieces of `xs` that are not empty, in order.
pub open spec fn nonempty_pieces(xs: Seq<Seq<char>>) -> Seq<Seq<char>>
    decreases xs.len(),
{
    if xs.len() == 0 {
        Seq::empty()
    } else if xs.last().len() == 0 {
        nonempty_pieces(xs.drop_last())
    } else {
        nonempty_pieces(xs.drop_last()).push(xs.last())
    }
}

/// The receivers a comma-separated list of names stands for: the trimmed,
/// non-empty names, or `Vector__XXX` when there are none.
pub open spec fn receivers_from_text(t: Seq<char>) -> Seq<Seq<char>> {
    let names = nonempty_pieces(
        crate::text::split_on(t, ',').map_values(|p: Seq<char>| crate::text::trim(p)),
    );
    if names.len() == 0 {
        seq![crate::model::vector_xxx()]
    } else {
        names
    }
}

/// Reads a comma-separated receiver list as the editor does.
pub fn parse_receivers(text: &str) -> (r: Vec<String>)
    ensures
        crate::model::texts(r@) == receivers_from_text(text@),
{
    let chars = crate::text::chars_of(text);
    let pieces = crate::text::split_on_char(&chars, ',');
    let ghost tp = crate::text::split_on(text@, ',').map_values(|p: Seq<char>| crate::text::trim(p));
    assert(pieces@.map_values(|t: Vec<char>| t@) == crate::text::split_on(chars@, ','));
    let mut out: Vec<String> = Vec::new();
    let mut i: usize = 0;
    while i < pieces.len()
        invariant
            i <= pieces.len(),
            tp.len() == pieces.len(),
            forall|k: int| 0 <= k < pieces.len() ==> #[trigger] tp[k] == crate::text::trim(pieces@[k]@),
            crate::model::texts(out@) == nonempty_pieces(tp.take(i as int)),
        decreases pieces.len() - i,
    {
        let t = crate::text::trim_chars(&pieces[i]);
        assert(tp.take(i + 1).drop_last() =~= tp.take(i as int));
        assert(tp.take(i + 1).last() == tp[i as int]);
        let ghost before = out@;
        if t.len() > 0 {
            let s = crate::text::to_string(&t);
            out.push(s);
            assert(crate::model::texts(out@) =~= crate::model::texts(before).push(s@));
        }
        i += 1;
    }
    assert(tp.take(pieces.len() as int) =~= tp);
    if out.len() == 0 {
        out.push(crate::model::vector_xxx_string());
        assert(crate::model::texts(out@) =~= seq![crate::model::vector_xxx()]);
    }
    out
}

/// Index of the last `/` or `\\` of `s`.
pub open spec fn last_path_sep(s: Seq<char>) -> Option<int>
    decreases s.len(),
{
    if s.len() == 0 {
        None
    } else if s.last() == '/' || s.last() == '\\' {
        Some(s.len() - 1)
    } else {
        last_path_sep(s.drop_last())
    }
}

/// The last component of a path: the text after its last `/` or `\\`.
pub open spec fn base_name_spec(s: Seq<char>) -> Seq<char> {
    match last_path_sep(s) {
        Some(k) => s.subrange(k + 1, s.len() as int),
        None => s,
    }
}

/// The file name of a dropped file's path.
pub fn base_name(path: &str) -> (r: String)
    ensures
        r@ == base_name_spec(path@),
{
    let v = crate::text::chars_of(path);
    let mut i: usize = v.len();
    assert(v@.take(v.len() as int) =~= v@);
    while i > 0 && v[i - 1] != '/' && v[i - 1] != '\\'
        invariant
            i <= v.len(),
            v@ == path@,
            last_path_sep(v@) == last_path_sep(v@.take(i as int)),
        decreases i,
    {
        assert(v@.take(i as int).drop_last() =~= v@.take(i - 1));
        i -= 1;
    }
    if i == 0 {
        assert(v@.take(0) =~= Seq::<char>::empty());
        crate::text::to_string(&v)
    } else {
        assert(v@.take(i as int).last() == v@[i - 1]);
        assert(v@.take(i as int).len() == i);
        let r = crate::text::slice(&v, i, v.len());
        crate::text::to_string(&r)
    }
}

/// The value a new value/label pair gets: one past the last value, or 0.
pub open spec fn next_pair_value(ps: Seq<(i64, String)>) -> int {
    if ps.len() == 0 {
        0
    } else {
        ps.last().0 + 1
    }
}

/// Removes the value/label pair at `idx`.
pub fn remove_value_pair(pairs: &mut Vec<(i64, String)>, idx: usize)
    requires
        idx < old(pairs).len(),
    ensures
        final(pairs)@ == old(pairs)@.remove(idx as int),
{
    pairs.remove(idx);
}

/// Adds a value/label pair with an empty label after the last one.
pub fn add_value_pair(pairs: &mut Vec<(i64, String)>)
    requires
        old(pairs).len() > 0 ==> old(pairs)@.last().0 < i64::MAX,
    ensures
        final(pairs).len() == old(pairs).len() + 1,
        forall|k: int| 0 <= k < old(pairs).len() ==> #[trigger] final(pairs)@[k] == old(pairs)@[k],
        final(pairs)@.last().0 == next_pair_value(old(pairs)@),
        final(pairs)@.last().1@ == Seq::<char>::empty(),
{
    let next: i64 = if pairs.len() == 0 {
        0
    } else {
        pairs[pairs.len() - 1].0 + 1
    };
    pairs.push((next, String::new()));
}

/// Whether the positions of a signal can be computed (see `positions_fit`).
pub fn signal_positions_fit(s: &Signal) -> (r: bool)
    ensures
        r == positions_fit(s@),
{
    match s.byte_order {
        ByteOrder::LittleEndian => s.size == 0 || s.start_bit <= u64::MAX - (s.size - 1),
        ByteOrder::BigEndian => {
            if s.start_bit > i64::MAX as u64 {
                return true;
            }
            let ghost start = s.start_bit as int;
            let mut pos: i64 = s.start_bit as i64;
            let mut k: u64 = 0;
            while k < s.size
                invariant
                    s.byte_order == ByteOrder::BigEndian,
                    0 <= start <= i64::MAX,
                    start == s.start_bit as int,
                    k <= s.size,
                    pos == motorola_at(start, k as nat),
                    forall|j: nat|
                        j < k && #[trigger] motorola_at(start, j) % 8 == 0 ==> motorola_at(start, j)
                            + 15 <= i64::MAX,
                decreases s.size - k,
            {
                proof {
                    lemma_motorola_bounds(start, k as nat);
                }
                if pos % 8 == 0 {
                    if pos > i64::MAX - 15 {
                        let ghost kn = k as nat;
                        assert(motorola_at(s.start_bit as int, kn) % 8 == 0);
                        assert(motorola_at(s.start_bit as int, kn) + 15 > i64::MAX);
                        assert(kn < s@.size);
                        assert(s@.byte_order == ByteOrder::BigEndian);
                        assert(s@.start_bit <= i64::MAX);
                        assert(!positions_fit(s@));
                        return false;
                    }
                    pos = pos + 15;
                } else {
                    pos = pos - 1;
                }
                proof {
                    assert forall|j: nat|
                        j < k + 1 && #[trigger] motorola_at(start, j) % 8 == 0 implies motorola_at(
                            start,
                            j,
                        ) + 15 <= i64::MAX by {
                        if j == k {
                        }
                    }
                }
                k += 1;
            }
            true
        },
    }
}

// ---------------------------------------------------------------------------
// The message filter.
/// The lower-case hexadecimal digit of `d`.
pub open spec fn hex_digit(d: nat) -> char {
    if d < 10 {
        (d + '0' as nat) as char
    } else {
        (d - 10 + 'a' as nat) as char
    }
}

/// Lower-case hexadecimal text of `n`, as `{:x}` prints it.
pub open spec fn hex_text(n: nat) -> Seq<char>
    decreases n,
{
    if n < 16 {
        seq![hex_digit(n)]
    } else {
        hex_text(n / 16).push(hex_digit(n % 16))
    }
}

/// The value of a hexadecimal digit character: `0`-`9` as 0-9, `a`-`f` as
/// 10-15.
pub open spec fn hex_char_value(c: char) -> int {
    if '0' <= c && c <= '9' {
        c as int - '0' as int
    } else {
        c as int - 'a' as int + 10
    }
}

/// `c` is a lower-case hexadecimal digit.
pub open spec fn is_hex_char(c: char) -> bool {
    ('0' <= c && c <= '9') || ('a' <= c && c <= 'f')
}

/// The number a base-16 numeral stands for.
pub open spec fn hex_numeral_value(s: Seq<char>) -> int
    decreases s.len(),
{
    if s.len() == 0 {
        0
    } else {
        hex_numeral_value(s.drop_last()) * 16 + hex_char_value(s.last())
    }
}

/// Each digit below 16 is written as the one character that reads back as
/// it, so no two digits share a character.
pub proof fn lemma_hex_digit_reads_back(d: nat)
    requires
        d < 16,
    ensures
        is_hex_char(hex_digit(d)),
        hex_char_value(hex_digit(d)) == d,
{
}

/// `hex_text(n)` is the base-16 numeral of `n`: lower-case hexadecimal
/// digits, with no leading zero but for `n == 0` itself, that read back as
/// `n`.
pub proof fn lemma_hex_text_numeral(n: nat)
    ensures
        hex_numeral_value(hex_text(n)) == n,
        hex_text(n).len() > 0,
        forall|i: int| 0 <= i < hex_text(n).len() ==> is_hex_char(#[trigger] hex_text(n)[i]),
        n > 0 ==> hex_text(n)[0] != '0',
    decreases n,
{
    if n < 16 {
        lemma_hex_digit_reads_back(n);
        assert(hex_text(n) == seq![hex_digit(n)]);
        assert(hex_text(n).drop_last() =~= Seq::<char>::empty());
        assert(hex_text(n).last() == hex_digit(n));
        assert(hex_numeral_value(Seq::<char>::empty()) == 0);
    } else {
        lemma_hex_text_numeral(n / 16);
        lemma_hex_digit_reads_back(n % 16);
        let t = hex_text(n / 16);
        assert(hex_text(n).drop_last() =~= t);
        assert forall|i: int| 0 <= i < hex_text(n).len() implies is_hex_char(#[trigger] hex_text(n)[i]) by {
            if i < t.len() {
                assert(hex_text(n)[i] == t[i]);
            }
        }
        assert(hex_text(n)[0] == t[0]);
        assert(hex_text(n).last() == hex_digit(n % 16));
        assert((n / 16) * 16 + n % 16 == n);
    }
}

pub fn hex_chars(n: u32) -> (r: Vec<char>)
    ensures
        r@ == hex_text(n as nat),
    decreases n,
{
    let d = n % 16;
    let c: char = match d {
        0 => '0',
        1 => '1',
        2 => '2',
        3 => '3',
        4 => '4',
        5 => '5',
        6 => '6',
        7 => '7',
        8 => '8',
        9 => '9',
        10 => 'a',
        11 => 'b',
        12 => 'c',
        13 => 'd',
        14 => 'e',
        _ => 'f',
    };
    if n < 16 {
        vec![c]
    } else {
        let mut v = hex_chars(n / 16);
        v.push(c);
        v
    }
}

/// `needle` occurs in `hay` at some position.
pub open spec fn contains_text(hay: Seq<char>, needle: Seq<char>) -> bool {
    exists|i: int|
        0 <= i <= hay.len() - needle.len() && #[trigger] hay.subrange(i, i + needle.len()) == needle
}

/// `str::contains` for text.
pub fn contains_chars(hay: &Vec<char>, needle: &Vec<char>) -> (r: bool)
    ensures
        r == contains_text(hay@, needle@),
{
    if needle.len() > hay.len() {
        return false;
    }
    let mut i: usize = 0;
    while i <= hay.len() - needle.len()
        invariant
            needle.len() <= hay.len(),
            i <= hay.len() - needle.len() + 1,
            forall|k: int| 0 <= k < i ==> #[trigger] hay@.subrange(k, k + needle.len()) != needle@,
        decreases hay.len() - needle.len() + 1 - i,
    {
        let mut j: usize = 0;
        while j < needle.len() && hay[i + j] == needle[j]
            invariant
                i <= hay.len() - needle.len(),
                needle.len() <= hay.len(),
                j <= needle.len(),
                forall|k: int| 0 <= k < j ==> hay@[i + k] == needle@[k],
            decreases needle.len() - j,
        {
            j += 1;
        }
        if j == needle.len() {
            assert(hay@.subrange(i as int, i + needle.len()) =~= needle@);
            return true;
        }
        assert(hay@.subrange(i as int, i + needle.len())[j as int] != needle@[j as int]);
        i += 1;
    }
    false
}

/// The lower-case form of a text, as `str::to_lowercase` gives it.
pub uninterp spec fn lowercase_text(s: Seq<char>) -> Seq<char>;

/// Calls `str::to_lowercase`, whose result is a function of its argument
/// alone (the Unicode case mapping), named `lowercase_text` here.
#[verifier::external_body]
fn lowercase(s: &str) -> (r: String)
    ensures
        r@ == lowercase_text(s@),
{
    s.to_lowercase()
}

/// Whether a message with lower-cased name `name` and functional id `raw_id`
/// is shown under the lower-cased filter `filter`: the filter is empty, or
/// occurs in the name or in the lower-case hexadecimal id.
pub fn matches_lowered(name: &Vec<char>, raw_id: u32, filter: &Vec<char>) -> (r: bool)
    ensures
        r == (filter@.len() == 0 || contains_text(name@, filter@) || contains_text(
            hex_text(raw_id as nat),
            filter@,
        )),
{
    if filter.len() == 0 {
        return true;
    }
    if contains_chars(name, filter) {
        return true;
    }
    let hex = hex_chars(raw_id);
    contains_chars(&hex, filter)
}

/// Whether a message is shown under the search text `search`, both
/// lower-cased: the search is empty, or occurs in the name or in the
/// lower-case hexadecimal functional id.
pub fn message_matches(m: &Message, search: &str) -> (r: bool)
    ensures
        r == ({
            let f = lowercase_text(search@);
            f.len() == 0 || contains_text(lowercase_text(m.name@), f) || contains_text(
                hex_text((m.id & 0x7fff_ffff) as nat),
                f,
            )
        }),
{
    let f = crate::text::chars_of(lowercase(search).as_str());
    let name = crate::text::chars_of(lowercase(m.name.as_str()).as_str());
    matches_lowered(&name, m.raw_id(), &f)
}

} // verus!
