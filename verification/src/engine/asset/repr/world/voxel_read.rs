use vstd::prelude::*;
use crate::engine::asset::repr::world::voxel::{
    attachment_entries, distinct_keys, le32, lookup_blocks, lookup_pointer, lookups_view, node_bytes,
    nodes_bytes, raw_blocks, raw_pointer, raws_view, thc_bytes, words_bytes, lemma_entries_len,
    lemma_lookup_monotone, lemma_lookup_prefix, lemma_nodes_len, lemma_raw_monotone, lemma_raw_prefix,
    lemma_words_len,
};

verus! {

/// The number stored in the four bytes of `b` from `p` on, lowest first.
pub open spec fn u32_at(b: Seq<u8>, p: int) -> u32 {
    (b[p] as int + 256 * b[p + 1] as int + 65536 * b[p + 2] as int + 16777216 * b[p + 3] as int) as u32
}

/// The tree node stored at `p`: its pointer, then the low and the high half
/// of its mask.
pub open spec fn node_at(b: Seq<u8>, p: int) -> (u32, u64) {
    (u32_at(b, p), ((u32_at(b, p + 8) as u64) << 32u64) | (u32_at(b, p + 4) as u64))
}

/// The `n` tree nodes stored one after another from `p` on.
pub open spec fn nodes_at(b: Seq<u8>, p: int, n: nat) -> Seq<(u32, u64)> {
    Seq::new(n, |j: int| node_at(b, p + 12 * j))
}

/// The `n` words stored one after another from `p` on.
pub open spec fn words_at(b: Seq<u8>, p: int, n: nat) -> Seq<u32> {
    Seq::new(n, |j: int| u32_at(b, p + 4 * j))
}

fn read_u32(b: &Vec<u8>, p: usize) -> (r: u32)
    requires
        p + 4 <= b@.len(),
    ensures
        r == u32_at(b@, p as int),
{
    let len = b.len();
    assert(p + 3 < len);
    b[p] as u32 + 256 * (b[p + 1] as u32) + 65536 * (b[p + 2] as u32) + 16777216 * (b[p + 3] as u32)
}

fn read_nodes(b: &Vec<u8>, p: usize, n: usize) -> (r: Vec<(u32, u64)>)
    requires
        p + 12 * n <= b@.len(),
    ensures
        r@ == nodes_at(b@, p as int, n as nat),
{
    let len = b.len();
    let mut out: Vec<(u32, u64)> = Vec::new();
    let mut j: usize = 0;
    let mut x: usize = p;
    while j < n
        invariant
            j <= n,
            len == b@.len(),
            p + 12 * n <= len,
            x == p + 12 * j,
            out@ =~= nodes_at(b@, p as int, j as nat),
        decreases n - j,
    {
        let ptr = read_u32(b, x);
        let low = read_u32(b, x + 4);
        let high = read_u32(b, x + 8);
        out.push((ptr, ((high as u64) << 32u64) | (low as u64)));
        j = j + 1;
        x = x + 12;
    }
    out
}

fn read_words(b: &Vec<u8>, p: usize, n: usize) -> (r: Vec<u32>)
    requires
        p + 4 * n <= b@.len(),
    ensures
        r@ == words_at(b@, p as int, n as nat),
{
    let len = b.len();
    let mut out: Vec<u32> = Vec::new();
    let mut j: usize = 0;
    let mut x: usize = p;
    while j < n
        invariant
            j <= n,
            len == b@.len(),
            p + 4 * n <= len,
            x == p + 4 * j,
            out@ =~= words_at(b@, p as int, j as nat),
        decreases n - j,
    {
        out.push(read_u32(b, x));
        j = j + 1;
        x = x + 4;
    }
    out
}

/// Why a tree model file could not be read.
#[derive(Clone, Copy, Debug, PartialEq, Eq, Structural)]
pub enum ThcReadError {
    /// The file does not start with "THC ".
    BadHeader,
    /// The file ends before a number or a block that it announces.
    Truncated,
}

/// The index of the last entry of `s` equal to `v`, or -1 when there is none.
pub open spec fn last_index_of(s: Seq<u32>, v: u32) -> int
    decreases s.len(),
{
    if s.len() == 0 {
        -1
    } else if s.last() == v {
        s.len() - 1
    } else {
        last_index_of(s.drop_last(), v)
    }
}

proof fn lemma_last_index_range(s: Seq<u32>, v: u32)
    ensures
        -1 <= last_index_of(s, v) < s.len(),
        last_index_of(s, v) >= 0 ==> s[last_index_of(s, v)] == v,
    decreases s.len(),
{
    if s.len() > 0 && s.last() != v {
        lemma_last_index_range(s.drop_last(), v);
    }
}

/// The blocks `s` keyed by attachment id with the block of `k` set to `v`:
/// replaced where `k` has one, else added at the end.
pub open spec fn map_insert<V>(s: Seq<(u8, V)>, k: u8, v: V) -> Seq<(u8, V)> {
    if exists|i: int| 0 <= i < s.len() && s[i].0 == k {
        s.update(choose|i: int| 0 <= i < s.len() && s[i].0 == k, (k, v))
    } else {
        s.push((k, v))
    }
}

/// The lookup blocks read from `pos` on, added to `acc`, and the position
/// after them: a block is read while the position is the lookup pointer of
/// an attachment (the last one of the info block with that pointer), which
/// it belongs to.
pub open spec fn lookups_from(
    b: Seq<u8>,
    ids: Seq<u8>,
    pres: Seq<u32>,
    pos: int,
    acc: Seq<(u8, Seq<(u32, u64)>)>,
) -> Result<(Seq<(u8, Seq<(u32, u64)>)>, int), ThcReadError>
    decreases b.len() - pos,
{
    let i = last_index_of(pres, pos as u32);
    if i < 0 || pos < 0 {
        Ok((acc, pos))
    } else if pos + 4 > b.len() {
        Err(ThcReadError::Truncated)
    } else {
        let m = u32_at(b, pos);
        let next = pos + 4 + 12 * m;
        if next > b.len() {
            Err(ThcReadError::Truncated)
        } else {
            lookups_from(b, ids, pres, next, map_insert(acc, ids[i], nodes_at(b, pos + 4, m as nat)))
        }
    }
}

/// The raw data blocks read from `pos` on, added to `acc`, and the position
/// after them, as for the lookup blocks with the raw pointers; nothing when
/// a block holds fewer words than its count (the reader aborts there).
pub open spec fn raws_from(
    b: Seq<u8>,
    ids: Seq<u8>,
    datap: Seq<u32>,
    pos: int,
    acc: Seq<(u8, Seq<u32>)>,
) -> Option<Result<(Seq<(u8, Seq<u32>)>, int), ThcReadError>>
    decreases b.len() - pos,
{
    let i = last_index_of(datap, pos as u32);
    if i < 0 || pos < 0 {
        Some(Ok((acc, pos)))
    } else if pos + 4 > b.len() {
        Some(Err(ThcReadError::Truncated))
    } else {
        let m = u32_at(b, pos);
        let next = pos + 4 + 4 * m;
        if next > b.len() {
            None
        } else {
            raws_from(b, ids, datap, next, map_insert(acc, ids[i], words_at(b, pos + 4, m as nat)))
        }
    }
}

/// The attachment ids of the first `c` entries of the info block.
pub open spec fn info_ids(b: Seq<u8>, c: nat) -> Seq<u8> {
    Seq::new(c, |i: int| b[16 + 9 * i])
}

/// The lookup pointers of the first `c` entries of the info block.
pub open spec fn info_lookup_pointers(b: Seq<u8>, c: nat) -> Seq<u32> {
    Seq::new(c, |i: int| u32_at(b, 17 + 9 * i))
}

/// The raw pointers of the first `c` entries of the info block.
pub open spec fn info_raw_pointers(b: Seq<u8>, c: nat) -> Seq<u32> {
    Seq::new(c, |i: int| u32_at(b, 21 + 9 * i))
}

/// The bytes "THC ".
pub open spec fn thc_magic() -> Seq<u8> {
    seq![0x54u8, 0x48u8, 0x43u8, 0x20u8]
}

/// What reading the tree model file `b` gives: the side length, the
/// attachment ids of the info block, the tree nodes, and the lookup and raw
/// blocks keyed by attachment id; or the error; or nothing where the reader
/// aborts (a version other than 1, or raw data shorter than its count).
pub open spec fn thc_read(b: Seq<u8>) -> Option<
    Result<(u32, Seq<u8>, Seq<(u32, u64)>, Seq<(u8, Seq<(u32, u64)>)>, Seq<(u8, Seq<u32>)>), ThcReadError>,
> {
    if b.len() < 4 {
        Some(Err(ThcReadError::Truncated))
    } else if b.subrange(0, 4) != thc_magic() {
        Some(Err(ThcReadError::BadHeader))
    } else if b.len() < 8 {
        Some(Err(ThcReadError::Truncated))
    } else if u32_at(b, 4) != 1 {
        None
    } else if b.len() < 16 {
        Some(Err(ThcReadError::Truncated))
    } else {
        let side = u32_at(b, 8);
        let c = u32_at(b, 12) as int;
        let q = 16 + 9 * c;
        if q + 4 > b.len() {
            Some(Err(ThcReadError::Truncated))
        } else {
            let n = u32_at(b, q) as int;
            let p0 = q + 4 + 12 * n;
            if p0 > b.len() {
                Some(Err(ThcReadError::Truncated))
            } else {
                let ids = info_ids(b, c as nat);
                let pres = info_lookup_pointers(b, c as nat);
                let datap = info_raw_pointers(b, c as nat);
                match lookups_from(b, ids, pres, p0, Seq::empty()) {
                    Err(e) => Some(Err(e)),
                    Ok((ls, p1)) => match raws_from(b, ids, datap, p1, Seq::empty()) {
                        None => None,
                        Some(Err(e)) => Some(Err(e)),
                        Some(Ok((rs, _))) => Some(Ok((side, ids, nodes_at(b, q + 4, n as nat), ls, rs))),
                    },
                }
            }
        }
    }
}

fn last_index(s: &Vec<u32>, v: u32) -> (r: Option<usize>)
    ensures
        match r {
            Some(i) => i == last_index_of(s@, v) && i < s@.len(),
            None => last_index_of(s@, v) < 0,
        },
{
    let mut i = s.len();
    proof {
        assert(s@.take(i as int) =~= s@);
    }
    while i > 0
        invariant
            i <= s@.len(),
            last_index_of(s@, v) == last_index_of(s@.take(i as int), v),
        decreases i,
    {
        proof {
            assert(s@.take(i as int).last() == s@[i - 1]);
            assert(s@.take(i as int).drop_last() =~= s@.take(i - 1));
        }
        if s[i - 1] == v {
            return Some(i - 1);
        }
        i = i - 1;
    }
    None
}

fn find_key<V>(s: &Vec<(u8, V)>, k: u8) -> (r: Option<usize>)
    ensures
        match r {
            Some(i) => i < s@.len() && s@[i as int].0 == k,
            None => forall|j: int| 0 <= j < s@.len() ==> s@[j].0 != k,
        },
{
    let mut i: usize = 0;
    while i < s.len()
        invariant
            i <= s@.len(),
            forall|j: int| 0 <= j < i ==> s@[j].0 != k,
        decreases s@.len() - i,
    {
        if s[i].0 == k {
            return Some(i);
        }
        i = i + 1;
    }
    None
}
proof fn lemma_insert_found<V>(s: Seq<(u8, V)>, i: int, k: u8, v: V)
    requires
        distinct_keys(s),
        0 <= i < s.len(),
        s[i].0 == k,
    ensures
        map_insert(s, k, v) == s.update(i, (k, v)),
        distinct_keys(s.update(i, (k, v))),
{
    let c = choose|c: int| 0 <= c < s.len() && s[c].0 == k;
    assert(0 <= c < s.len() && s[c].0 == k);
    if c != i {
        if c < i {
            assert(s[c].0 != s[i].0);
        } else {
            assert(s[i].0 != s[c].0);
        }
    }
}

proof fn lemma_insert_new<V>(s: Seq<(u8, V)>, k: u8, v: V)
    requires
        distinct_keys(s),
        forall|j: int| 0 <= j < s.len() ==> s[j].0 != k,
    ensures
        map_insert(s, k, v) == s.push((k, v)),
        distinct_keys(s.push((k, v))),
{
}

fn read_lookups(b: &Vec<u8>, ids: &Vec<u8>, pres: &Vec<u32>, start: usize) -> (r: Result<
    (Vec<(u8, Vec<(u32, u64)>)>, usize),
    ThcReadError,
>)
    requires
        ids@.len() == pres@.len(),
        start <= b@.len(),
    ensures
        match r {
            Ok((v, p)) => lookups_from(b@, ids@, pres@, start as int, Seq::empty()) == Ok::<
                (Seq<(u8, Seq<(u32, u64)>)>, int),
                ThcReadError,
            >((lookups_view(v@), p as int)) && p <= b@.len(),
            Err(e) => lookups_from(b@, ids@, pres@, start as int, Seq::empty()) == Err::<
                (Seq<(u8, Seq<(u32, u64)>)>, int),
                ThcReadError,
            >(e),
        },
{
    let len = b.len();
    let mut acc: Vec<(u8, Vec<(u32, u64)>)> = Vec::new();
    let mut pos = start;
    proof {
        assert(lookups_view(acc@) =~= Seq::<(u8, Seq<(u32, u64)>)>::empty());
    }
    loop
        invariant
            len == b@.len(),
            ids@.len() == pres@.len(),
            pos <= len,
            distinct_keys(lookups_view(acc@)),
            lookups_from(b@, ids@, pres@, start as int, Seq::empty()) == lookups_from(
                b@,
                ids@,
                pres@,
                pos as int,
                lookups_view(acc@),
            ),
        decreases len - pos,
    {
        let ghost before = lookups_view(acc@);
        proof {
            lemma_last_index_range(pres@, pos as u32);
        }
        let i = match last_index(pres, pos as u32) {
            None => {
                return Ok((acc, pos));
            },
            Some(i) => i,
        };
        if len - pos < 4 {
            return Err(ThcReadError::Truncated);
        }
        let m = read_u32(b, pos);
        if (len - pos - 4) / 12 < m as usize {
            return Err(ThcReadError::Truncated);
        }
        let nodes = read_nodes(b, pos + 4, m as usize);
        let ghost nv = nodes@;
        let k = ids[i];
        match find_key(&acc, k) {
            Some(j) => {
                proof {
                    assert(before[j as int].0 == k);
                    lemma_insert_found(before, j as int, k, nv);
                }
                acc.set(j, (k, nodes));
                proof {
                    assert(lookups_view(acc@) =~= before.update(j as int, (k, nv)));
                }
            },
            None => {
                proof {
                    lemma_insert_new(before, k, nv);
                }
                acc.push((k, nodes));
                proof {
                    assert(lookups_view(acc@) =~= before.push((k, nv)));
                }
            },
        }
        pos = pos + 4 + 12 * (m as usize);
    }
}
fn read_raws(b: &Vec<u8>, ids: &Vec<u8>, datap: &Vec<u32>, start: usize) -> (r: Option<
    Result<(Vec<(u8, Vec<u32>)>, usize), ThcReadError>,
>)
    requires
        ids@.len() == datap@.len(),
        start <= b@.len(),
    ensures
        match r {
            None => raws_from(b@, ids@, datap@, start as int, Seq::empty()) is None,
            Some(Ok((v, p))) => raws_from(b@, ids@, datap@, start as int, Seq::empty()) == Some(
                Ok::<(Seq<(u8, Seq<u32>)>, int), ThcReadError>((raws_view(v@), p as int)),
            ),
            Some(Err(e)) => raws_from(b@, ids@, datap@, start as int, Seq::empty()) == Some(
                Err::<(Seq<(u8, Seq<u32>)>, int), ThcReadError>(e),
            ),
        },
{
    let len = b.len();
    let mut acc: Vec<(u8, Vec<u32>)> = Vec::new();
    let mut pos = start;
    proof {
        assert(raws_view(acc@) =~= Seq::<(u8, Seq<u32>)>::empty());
    }
    loop
        invariant
            len == b@.len(),
            ids@.len() == datap@.len(),
            pos <= len,
            distinct_keys(raws_view(acc@)),
            raws_from(b@, ids@, datap@, start as int, Seq::empty()) == raws_from(
                b@,
                ids@,
                datap@,
                pos as int,
                raws_view(acc@),
            ),
        decreases len - pos,
    {
        let ghost before = raws_view(acc@);
        proof {
            lemma_last_index_range(datap@, pos as u32);
        }
        let i = match last_index(datap, pos as u32) {
            None => {
                return Some(Ok((acc, pos)));
            },
            Some(i) => i,
        };
        if len - pos < 4 {
            return Some(Err(ThcReadError::Truncated));
        }
        let m = read_u32(b, pos);
        if (len - pos - 4) / 4 < m as usize {
            return None;
        }
        let words = read_words(b, pos + 4, m as usize);
        let ghost wv = words@;
        let k = ids[i];
        match find_key(&acc, k) {
            Some(j) => {
                proof {
                    assert(before[j as int].0 == k);
                    lemma_insert_found(before, j as int, k, wv);
                }
                acc.set(j, (k, words));
                proof {
                    assert(raws_view(acc@) =~= before.update(j as int, (k, wv)));
                }
            },
            None => {
                proof {
                    lemma_insert_new(before, k, wv);
                }
                acc.push((k, words));
                proof {
                    assert(raws_view(acc@) =~= before.push((k, wv)));
                }
            },
        }
        pos = pos + 4 + 4 * (m as usize);
    }
}

/// A tree model as read from its file.
pub struct ThcModel {
    pub side_length: u32,
    /// The attachment ids of the info block, in order.
    pub ids: Vec<u8>,
    pub nodes: Vec<(u32, u64)>,
    /// The lookup nodes of each attachment that has them.
    pub lookups: Vec<(u8, Vec<(u32, u64)>)>,
    /// The raw data of each attachment that has it.
    pub raws: Vec<(u8, Vec<u32>)>,
}

impl ThcModel {
    /// The model's parts, each list taken as a sequence.
    pub open spec fn parts(&self) -> (u32, Seq<u8>, Seq<(u32, u64)>, Seq<(u8, Seq<(u32, u64)>)>, Seq<(u8, Seq<u32>)>) {
        (self.side_length, self.ids@, self.nodes@, lookups_view(self.lookups@), raws_view(self.raws@))
    }
}

/// Reads a "THC " tree model file: header and version, side length,
/// attachment info block, tree nodes, then the lookup and raw blocks that
/// the info block points at (see `thc_read`). Nothing where the reader
/// refuses the file outright: a version other than 1, or raw data shorter
/// than its count.
pub fn decode_thc(b: &Vec<u8>) -> (r: Option<Result<ThcModel, ThcReadError>>)
    ensures
        match r {
            None => thc_read(b@) is None,
            Some(Ok(m)) => thc_read(b@) == Some(
                Ok::<(u32, Seq<u8>, Seq<(u32, u64)>, Seq<(u8, Seq<(u32, u64)>)>, Seq<(u8, Seq<u32>)>), ThcReadError>(
                    m.parts(),
                ),
            ),
            Some(Err(e)) => thc_read(b@) == Some(
                Err::<(u32, Seq<u8>, Seq<(u32, u64)>, Seq<(u8, Seq<(u32, u64)>)>, Seq<(u8, Seq<u32>)>), ThcReadError>(
                    e,
                ),
            ),
        },
{
    let len = b.len();
    if len < 4 {
        return Some(Err(ThcReadError::Truncated));
    }
    if !(b[0] == 0x54u8 && b[1] == 0x48u8 && b[2] == 0x43u8 && b[3] == 0x20u8) {
        proof {
            if b@.subrange(0, 4) == thc_magic() {
                assert(b@.subrange(0, 4)[0] == b@[0]);
                assert(b@.subrange(0, 4)[1] == b@[1]);
                assert(b@.subrange(0, 4)[2] == b@[2]);
                assert(b@.subrange(0, 4)[3] == b@[3]);
            }
        }
        return Some(Err(ThcReadError::BadHeader));
    }
    proof {
        assert(b@.subrange(0, 4) =~= thc_magic());
    }
    if len < 8 {
        return Some(Err(ThcReadError::Truncated));
    }
    if read_u32(b, 4) != 1 {
        return None;
    }
    if len < 16 {
        return Some(Err(ThcReadError::Truncated));
    }
    let side_length = read_u32(b, 8);
    let c = read_u32(b, 12) as usize;
    if len < 20 || (len - 20) / 9 < c {
        return Some(Err(ThcReadError::Truncated));
    }
    let q = 16 + 9 * c;
    let n = read_u32(b, q) as usize;
    if (len - q - 4) / 12 < n {
        return Some(Err(ThcReadError::Truncated));
    }
    let p0 = q + 4 + 12 * n;
    let mut ids: Vec<u8> = Vec::new();
    let mut pres: Vec<u32> = Vec::new();
    let mut datap: Vec<u32> = Vec::new();
    let mut i: usize = 0;
    while i < c
        invariant
            i <= c,
            len == b@.len(),
            q == 16 + 9 * c,
            q + 4 <= len,
            ids@ =~= info_ids(b@, i as nat),
            pres@ =~= info_lookup_pointers(b@, i as nat),
            datap@ =~= info_raw_pointers(b@, i as nat),
        decreases c - i,
    {
        let x = 16 + 9 * i;
        ids.push(b[x]);
        pres.push(read_u32(b, x + 1));
        datap.push(read_u32(b, x + 5));
        i = i + 1;
    }
    let nodes = read_nodes(b, q + 4, n);
    match read_lookups(b, &ids, &pres, p0) {
        Err(e) => Some(Err(e)),
        Ok((lookups, p1)) => match read_raws(b, &ids, &datap, p1) {
            None => None,
            Some(Err(e)) => Some(Err(e)),
            Some(Ok((raws, _))) => Some(Ok(ThcModel { side_length, ids, nodes, lookups, raws })),
        },
    }
}

proof fn lemma_u32_at_le32(b: Seq<u8>, p: int, v: u32)
    requires
        0 <= p,
        p + 4 <= b.len(),
        b.subrange(p, p + 4) == le32(v),
    ensures
        u32_at(b, p) == v,
{
    let w = b.subrange(p, p + 4);
    assert(w[0] == b[p] && w[1] == b[p + 1] && w[2] == b[p + 2] && w[3] == b[p + 3]);
    let b0 = (v & 0xffu32) as u8;
    let b1 = ((v >> 8u32) & 0xffu32) as u8;
    let b2 = ((v >> 16u32) & 0xffu32) as u8;
    let b3 = ((v >> 24u32) & 0xffu32) as u8;
    assert(b[p] == b0 && b[p + 1] == b1 && b[p + 2] == b2 && b[p + 3] == b3);
    assert(b0 as int + 256 * b1 as int + 65536 * b2 as int + 16777216 * b3 as int == v as int) by (bit_vector)
        requires
            b0 == (v & 0xffu32) as u8,
            b1 == ((v >> 8u32) & 0xffu32) as u8,
            b2 == ((v >> 16u32) & 0xffu32) as u8,
            b3 == ((v >> 24u32) & 0xffu32) as u8,
    ;
}

proof fn lemma_mask_halves(m: u64)
    ensures
        ((((m >> 32u64) as u32) as u64) << 32u64) | ((m as u32) as u64) == m,
{
    assert(((((m >> 32u64) as u32) as u64) << 32u64) | ((m as u32) as u64) == m) by (bit_vector);
}

proof fn lemma_nodes_bytes_at(ns: Seq<(u32, u64)>, j: int)
    requires
        0 <= j < ns.len(),
    ensures
        nodes_bytes(ns).subrange(12 * j, 12 * j + 12) == node_bytes(ns[j]),
    decreases ns.len(),
{
    let d = ns.drop_last();
    lemma_nodes_len(d);
    lemma_nodes_len(ns);
    if j < ns.len() - 1 {
        lemma_nodes_bytes_at(d, j);
        assert(nodes_bytes(ns).subrange(12 * j, 12 * j + 12) =~= nodes_bytes(d).subrange(12 * j, 12 * j + 12));
    } else {
        assert(nodes_bytes(ns).subrange(12 * j, 12 * j + 12) =~= node_bytes(ns.last()));
    }
}

proof fn lemma_words_bytes_at(ws: Seq<u32>, j: int)
    requires
        0 <= j < ws.len(),
    ensures
        words_bytes(ws).subrange(4 * j, 4 * j + 4) == le32(ws[j]),
    decreases ws.len(),
{
    let d = ws.drop_last();
    lemma_words_len(d);
    lemma_words_len(ws);
    if j < ws.len() - 1 {
        lemma_words_bytes_at(d, j);
        assert(words_bytes(ws).subrange(4 * j, 4 * j + 4) =~= words_bytes(d).subrange(4 * j, 4 * j + 4));
    } else {
        assert(words_bytes(ws).subrange(4 * j, 4 * j + 4) =~= le32(ws.last()));
    }
}

proof fn lemma_entries_at(
    ids: Seq<u8>,
    ls: Seq<(u8, Seq<(u32, u64)>)>,
    rs: Seq<(u8, Seq<u32>)>,
    lb: int,
    rb: int,
    i: int,
)
    requires
        0 <= i < ids.len(),
    ensures
        attachment_entries(ids, ls, rs, lb, rb).subrange(9 * i, 9 * i + 9) == seq![ids[i]] + le32(
            lookup_pointer(ls, ids[i], lb),
        ) + le32(raw_pointer(rs, ids[i], rb)),
    decreases ids.len(),
{
    let d = ids.drop_last();
    lemma_entries_len(d, ls, rs, lb, rb);
    lemma_entries_len(ids, ls, rs, lb, rb);
    let e = attachment_entries(ids, ls, rs, lb, rb);
    if i < ids.len() - 1 {
        lemma_entries_at(d, ls, rs, lb, rb, i);
        assert(e.subrange(9 * i, 9 * i + 9) =~= attachment_entries(d, ls, rs, lb, rb).subrange(9 * i, 9 * i + 9));
    } else {
        assert(e.subrange(9 * i, 9 * i + 9) =~= seq![ids.last()] + le32(lookup_pointer(ls, ids.last(), lb)) + le32(
            raw_pointer(rs, ids.last(), rb),
        ));
    }
}

proof fn lemma_lookup_block_at(ls: Seq<(u8, Seq<(u32, u64)>)>, k: int)
    requires
        0 <= k < ls.len(),
    ensures
        lookup_blocks(ls.take(k + 1)).len() <= lookup_blocks(ls).len(),
        lookup_blocks(ls).subrange(lookup_blocks(ls.take(k)).len() as int, lookup_blocks(ls.take(k + 1)).len() as int)
            == le32(ls[k].1.len() as u32) + nodes_bytes(ls[k].1),
    decreases ls.len(),
{
    lemma_lookup_prefix(ls, k);
    lemma_lookup_monotone(ls, k + 1);
    let d = ls.drop_last();
    let a = lookup_blocks(ls.take(k)).len() as int;
    let z = lookup_blocks(ls.take(k + 1)).len() as int;
    if k < ls.len() - 1 {
        lemma_lookup_block_at(d, k);
        assert(d.take(k) =~= ls.take(k));
        assert(d.take(k + 1) =~= ls.take(k + 1));
        assert(d[k] == ls[k]);
        assert(lookup_blocks(ls).subrange(a, z) =~= lookup_blocks(d).subrange(a, z));
    } else {
        assert(ls.take(k + 1) =~= ls);
        assert(lookup_blocks(ls).subrange(a, z) =~= le32(ls[k].1.len() as u32) + nodes_bytes(ls[k].1));
    }
}

proof fn lemma_raw_block_at(rs: Seq<(u8, Seq<u32>)>, k: int)
    requires
        0 <= k < rs.len(),
    ensures
        raw_blocks(rs.take(k + 1)).len() <= raw_blocks(rs).len(),
        raw_blocks(rs).subrange(raw_blocks(rs.take(k)).len() as int, raw_blocks(rs.take(k + 1)).len() as int)
            == le32(rs[k].1.len() as u32) + words_bytes(rs[k].1),
    decreases rs.len(),
{
    lemma_raw_prefix(rs, k);
    lemma_raw_monotone(rs, k + 1);
    let d = rs.drop_last();
    let a = raw_blocks(rs.take(k)).len() as int;
    let z = raw_blocks(rs.take(k + 1)).len() as int;
    if k < rs.len() - 1 {
        lemma_raw_block_at(d, k);
        assert(d.take(k) =~= rs.take(k));
        assert(d.take(k + 1) =~= rs.take(k + 1));
        assert(d[k] == rs[k]);
        assert(raw_blocks(rs).subrange(a, z) =~= raw_blocks(d).subrange(a, z));
    } else {
        assert(rs.take(k + 1) =~= rs);
        assert(raw_blocks(rs).subrange(a, z) =~= le32(rs[k].1.len() as u32) + words_bytes(rs[k].1));
    }
}

proof fn lemma_node_read(b: Seq<u8>, p: int, n: (u32, u64))
    requires
        0 <= p,
        p + 12 <= b.len(),
        b.subrange(p, p + 12) == node_bytes(n),
    ensures
        node_at(b, p) == n,
{
    let w = b.subrange(p, p + 12);
    assert(b.subrange(p, p + 4) =~= w.subrange(0, 4));
    assert(b.subrange(p + 4, p + 8) =~= w.subrange(4, 8));
    assert(b.subrange(p + 8, p + 12) =~= w.subrange(8, 12));
    assert(w.subrange(0, 4) =~= le32(n.0));
    assert(w.subrange(4, 8) =~= le32(n.1 as u32));
    assert(w.subrange(8, 12) =~= le32((n.1 >> 32u64) as u32));
    lemma_u32_at_le32(b, p, n.0);
    lemma_u32_at_le32(b, p + 4, n.1 as u32);
    lemma_u32_at_le32(b, p + 8, (n.1 >> 32u64) as u32);
    lemma_mask_halves(n.1);
}

proof fn lemma_nodes_read(b: Seq<u8>, p: int, ns: Seq<(u32, u64)>)
    requires
        0 <= p,
        p + 12 * ns.len() <= b.len(),
        b.subrange(p, p + 12 * ns.len()) == nodes_bytes(ns),
    ensures
        nodes_at(b, p, ns.len()) == ns,
{
    assert forall|j: int| 0 <= j < ns.len() implies #[trigger] node_at(b, p + 12 * j) == ns[j] by {
        lemma_nodes_bytes_at(ns, j);
        assert(b.subrange(p + 12 * j, p + 12 * j + 12) =~= nodes_bytes(ns).subrange(12 * j, 12 * j + 12));
        lemma_node_read(b, p + 12 * j, ns[j]);
    }
    assert(nodes_at(b, p, ns.len()) =~= ns);
}

proof fn lemma_words_read(b: Seq<u8>, p: int, ws: Seq<u32>)
    requires
        0 <= p,
        p + 4 * ws.len() <= b.len(),
        b.subrange(p, p + 4 * ws.len()) == words_bytes(ws),
    ensures
        words_at(b, p, ws.len()) == ws,
{
    assert forall|j: int| 0 <= j < ws.len() implies #[trigger] u32_at(b, p + 4 * j) == ws[j] by {
        lemma_words_bytes_at(ws, j);
        assert(b.subrange(p + 4 * j, p + 4 * j + 4) =~= words_bytes(ws).subrange(4 * j, 4 * j + 4));
        lemma_u32_at_le32(b, p + 4 * j, ws[j]);
    }
    assert(words_at(b, p, ws.len()) =~= ws);
}

proof fn lemma_last_index_none(s: Seq<u32>, v: u32)
    requires
        forall|i: int| 0 <= i < s.len() ==> s[i] != v,
    ensures
        last_index_of(s, v) < 0,
    decreases s.len(),
{
    if s.len() > 0 {
        lemma_last_index_none(s.drop_last(), v);
    }
}

proof fn lemma_last_index_found(s: Seq<u32>, v: u32, j: int)
    requires
        0 <= j < s.len(),
        s[j] == v,
    ensures
        last_index_of(s, v) >= j,
    decreases s.len(),
{
    if j < s.len() - 1 && s.last() != v {
        lemma_last_index_found(s.drop_last(), v, j);
    }
}

proof fn lemma_lookup_strict(ls: Seq<(u8, Seq<(u32, u64)>)>, k1: int, k2: int)
    requires
        0 <= k1 < k2 <= ls.len(),
    ensures
        lookup_blocks(ls.take(k1)).len() + 4 <= lookup_blocks(ls.take(k2)).len(),
    decreases k2 - k1,
{
    lemma_lookup_prefix(ls, k2 - 1);
    if k1 < k2 - 1 {
        lemma_lookup_strict(ls, k1, k2 - 1);
    }
}

proof fn lemma_raw_strict(rs: Seq<(u8, Seq<u32>)>, k1: int, k2: int)
    requires
        0 <= k1 < k2 <= rs.len(),
    ensures
        raw_blocks(rs.take(k1)).len() + 4 <= raw_blocks(rs.take(k2)).len(),
    decreases k2 - k1,
{
    lemma_raw_prefix(rs, k2 - 1);
    if k1 < k2 - 1 {
        lemma_raw_strict(rs, k1, k2 - 1);
    }
}

proof fn lemma_lookup_pointer_is(ls: Seq<(u8, Seq<(u32, u64)>)>, k: int, lb: int)
    requires
        distinct_keys(ls),
        0 <= k < ls.len(),
    ensures
        lookup_pointer(ls, ls[k].0, lb) == (lb + lookup_blocks(ls.take(k)).len()) as u32,
{
    assert(0 <= k < ls.len() && ls[k].0 == ls[k].0);
    let c = choose|c: int| 0 <= c < ls.len() && ls[c].0 == ls[k].0;
    if c < k {
        assert(ls[c].0 != ls[k].0);
    } else if c > k {
        assert(ls[k].0 != ls[c].0);
    }
}

proof fn lemma_raw_pointer_is(rs: Seq<(u8, Seq<u32>)>, k: int, rb: int)
    requires
        distinct_keys(rs),
        0 <= k < rs.len(),
    ensures
        raw_pointer(rs, rs[k].0, rb) == (rb + raw_blocks(rs.take(k)).len()) as u32,
{
    assert(0 <= k < rs.len() && rs[k].0 == rs[k].0);
    let c = choose|c: int| 0 <= c < rs.len() && rs[c].0 == rs[k].0;
    if c < k {
        assert(rs[c].0 != rs[k].0);
    } else if c > k {
        assert(rs[k].0 != rs[c].0);
    }
}

proof fn lemma_lookup_block_read(b: Seq<u8>, ls: Seq<(u8, Seq<(u32, u64)>)>, lb: int, k: int)
    requires
        0 < lb,
        lb + lookup_blocks(ls).len() <= b.len(),
        b.len() <= u32::MAX,
        b.subrange(lb, lb + lookup_blocks(ls).len()) == lookup_blocks(ls),
        0 <= k < ls.len(),
    ensures
        ({
            let pos = lb + lookup_blocks(ls.take(k)).len();
            let cnt = ls[k].1.len();
            &&& pos + 4 + 12 * cnt == lb + lookup_blocks(ls.take(k + 1)).len()
            &&& pos + 4 + 12 * cnt <= b.len()
            &&& u32_at(b, pos) as int == cnt
            &&& nodes_at(b, pos + 4, cnt) == ls[k].1
        }),
{
    lemma_lookup_monotone(ls, k);
    lemma_lookup_block_at(ls, k);
    lemma_lookup_prefix(ls, k);
    lemma_nodes_len(ls[k].1);
    let a = lookup_blocks(ls.take(k)).len() as int;
    let z = lookup_blocks(ls.take(k + 1)).len() as int;
    let pos = lb + a;
    let cnt = ls[k].1.len() as int;
    let w = b.subrange(lb + a, lb + z);
    assert(w =~= lookup_blocks(ls).subrange(a, z));
    assert(b.subrange(pos, pos + 4) =~= w.subrange(0, 4));
    assert(w.subrange(0, 4) =~= le32(cnt as u32));
    lemma_u32_at_le32(b, pos, cnt as u32);
    assert(b.subrange(pos + 4, pos + 4 + 12 * cnt) =~= w.subrange(4, 4 + 12 * cnt));
    assert(w.subrange(4, 4 + 12 * cnt) =~= nodes_bytes(ls[k].1));
    lemma_nodes_read(b, pos + 4, ls[k].1);
}

proof fn lemma_lookup_owner(ids: Seq<u8>, pres: Seq<u32>, ls: Seq<(u8, Seq<(u32, u64)>)>, lb: int, k: int)
    requires
        0 < lb,
        lb + lookup_blocks(ls).len() <= u32::MAX,
        pres.len() == ids.len(),
        forall|i: int| 0 <= i < ids.len() ==> pres[i] == lookup_pointer(ls, #[trigger] ids[i], lb),
        distinct_keys(ls),
        forall|j: int| 0 <= j < ls.len() ==> ids.contains(#[trigger] ls[j].0),
        0 <= k < ls.len(),
    ensures
        ({
            let pos = lb + lookup_blocks(ls.take(k)).len();
            &&& 0 <= last_index_of(pres, pos as u32) < ids.len()
            &&& ids[last_index_of(pres, pos as u32)] == ls[k].0
        }),
{
    lemma_lookup_monotone(ls, k);
    let pos = lb + lookup_blocks(ls.take(k)).len();
    let key = ls[k].0;
    assert(ids.contains(ls[k].0));
    let i0 = choose|i: int| 0 <= i < ids.len() && ids[i] == key;
    lemma_lookup_pointer_is(ls, k, lb);
    assert(pres[i0] == lookup_pointer(ls, ids[i0], lb));
    lemma_last_index_found(pres, pos as u32, i0);
    lemma_last_index_range(pres, pos as u32);
    let i = last_index_of(pres, pos as u32);
    assert(pres[i] == lookup_pointer(ls, ids[i], lb));
    if exists|c: int| 0 <= c < ls.len() && ls[c].0 == ids[i] {
        let c = choose|c: int| 0 <= c < ls.len() && ls[c].0 == ids[i];
        lemma_lookup_pointer_is(ls, c, lb);
        lemma_lookup_monotone(ls, c);
        if c < k {
            lemma_lookup_strict(ls, c, k);
        } else if c > k {
            lemma_lookup_strict(ls, k, c);
        }
        assert(c == k);
    }
}

proof fn lemma_lookup_end(ids: Seq<u8>, pres: Seq<u32>, ls: Seq<(u8, Seq<(u32, u64)>)>, lb: int)
    requires
        0 < lb,
        lb + lookup_blocks(ls).len() <= u32::MAX,
        pres.len() == ids.len(),
        forall|i: int| 0 <= i < ids.len() ==> pres[i] == lookup_pointer(ls, #[trigger] ids[i], lb),
        distinct_keys(ls),
    ensures
        last_index_of(pres, (lb + lookup_blocks(ls).len()) as u32) < 0,
{
    let pos = lb + lookup_blocks(ls).len();
    assert forall|i: int| 0 <= i < pres.len() implies pres[i] != (pos as u32) by {
        let id = ids[i];
        assert(pres[i] == lookup_pointer(ls, ids[i], lb));
        assert(ls.take(ls.len() as int) =~= ls);
        if exists|c: int| 0 <= c < ls.len() && ls[c].0 == id {
            let c = choose|k: int| 0 <= k < ls.len() && ls[k].0 == id;
            lemma_lookup_pointer_is(ls, c, lb);
            lemma_lookup_strict(ls, c, ls.len() as int);
            lemma_lookup_monotone(ls, c);
            let x = lb + lookup_blocks(ls.take(c)).len();
            assert(lookup_pointer(ls, id, lb) == x as u32);
            assert(0 <= x < pos <= u32::MAX);
            assert(x as u32 == x);
            assert(pos as u32 == pos);
        } else {
            assert(lookup_pointer(ls, id, lb) == 0);
            assert(pos as u32 == pos);
        }
    }
    lemma_last_index_none(pres, pos as u32);
}

proof fn lemma_lookups_loop(
    b: Seq<u8>,
    ids: Seq<u8>,
    pres: Seq<u32>,
    ls: Seq<(u8, Seq<(u32, u64)>)>,
    lb: int,
    k: int,
)
    requires
        0 < lb,
        lb + lookup_blocks(ls).len() <= b.len(),
        b.len() <= u32::MAX,
        b.subrange(lb, lb + lookup_blocks(ls).len()) == lookup_blocks(ls),
        pres.len() == ids.len(),
        forall|i: int| 0 <= i < ids.len() ==> pres[i] == lookup_pointer(ls, #[trigger] ids[i], lb),
        distinct_keys(ls),
        forall|j: int| 0 <= j < ls.len() ==> ids.contains(#[trigger] ls[j].0),
        0 <= k <= ls.len(),
    ensures
        lookups_from(b, ids, pres, lb + lookup_blocks(ls.take(k)).len(), ls.take(k)) == Ok::<
            (Seq<(u8, Seq<(u32, u64)>)>, int),
            ThcReadError,
        >((ls, lb + lookup_blocks(ls).len())),
    decreases ls.len() - k,
{
    lemma_lookup_monotone(ls, k);
    if k == ls.len() {
        assert(ls.take(k) =~= ls);
        lemma_lookup_end(ids, pres, ls, lb);
    } else {
        lemma_lookup_block_read(b, ls, lb, k);
        lemma_lookup_owner(ids, pres, ls, lb, k);
        let key = ls[k].0;
        assert forall|j: int| 0 <= j < ls.take(k).len() implies ls.take(k)[j].0 != key by {
            assert(ls[j].0 != ls[k].0);
        }
        assert(distinct_keys(ls.take(k)));
        lemma_insert_new(ls.take(k), key, ls[k].1);
        assert(ls.take(k).push((key, ls[k].1)) =~= ls.take(k + 1));
        lemma_lookups_loop(b, ids, pres, ls, lb, k + 1);
    }
}

proof fn lemma_raw_block_read(b: Seq<u8>, rs: Seq<(u8, Seq<u32>)>, rb: int, k: int)
    requires
        0 < rb,
        rb + raw_blocks(rs).len() <= b.len(),
        b.len() <= u32::MAX,
        b.subrange(rb, rb + raw_blocks(rs).len()) == raw_blocks(rs),
        0 <= k < rs.len(),
    ensures
        ({
            let pos = rb + raw_blocks(rs.take(k)).len();
            let cnt = rs[k].1.len();
            &&& pos + 4 + 4 * cnt == rb + raw_blocks(rs.take(k + 1)).len()
            &&& pos + 4 + 4 * cnt <= b.len()
            &&& u32_at(b, pos) as int == cnt
            &&& words_at(b, pos + 4, cnt) == rs[k].1
        }),
{
    lemma_raw_monotone(rs, k);
    lemma_raw_block_at(rs, k);
    lemma_raw_prefix(rs, k);
    lemma_words_len(rs[k].1);
    let a = raw_blocks(rs.take(k)).len() as int;
    let z = raw_blocks(rs.take(k + 1)).len() as int;
    let pos = rb + a;
    let cnt = rs[k].1.len() as int;
    let w = b.subrange(rb + a, rb + z);
    assert(w =~= raw_blocks(rs).subrange(a, z));
    assert(b.subrange(pos, pos + 4) =~= w.subrange(0, 4));
    assert(w.subrange(0, 4) =~= le32(cnt as u32));
    lemma_u32_at_le32(b, pos, cnt as u32);
    assert(b.subrange(pos + 4, pos + 4 + 4 * cnt) =~= w.subrange(4, 4 + 4 * cnt));
    assert(w.subrange(4, 4 + 4 * cnt) =~= words_bytes(rs[k].1));
    lemma_words_read(b, pos + 4, rs[k].1);
}

proof fn lemma_raw_owner(ids: Seq<u8>, datap: Seq<u32>, rs: Seq<(u8, Seq<u32>)>, rb: int, k: int)
    requires
        0 < rb,
        rb + raw_blocks(rs).len() <= u32::MAX,
        datap.len() == ids.len(),
        forall|i: int| 0 <= i < ids.len() ==> datap[i] == raw_pointer(rs, #[trigger] ids[i], rb),
        distinct_keys(rs),
        forall|j: int| 0 <= j < rs.len() ==> ids.contains(#[trigger] rs[j].0),
        0 <= k < rs.len(),
    ensures
        ({
            let pos = rb + raw_blocks(rs.take(k)).len();
            &&& 0 <= last_index_of(datap, pos as u32) < ids.len()
            &&& ids[last_index_of(datap, pos as u32)] == rs[k].0
        }),
{
    lemma_raw_monotone(rs, k);
    let pos = rb + raw_blocks(rs.take(k)).len();
    let key = rs[k].0;
    assert(ids.contains(rs[k].0));
    let i0 = choose|i: int| 0 <= i < ids.len() && ids[i] == key;
    lemma_raw_pointer_is(rs, k, rb);
    assert(datap[i0] == raw_pointer(rs, ids[i0], rb));
    lemma_last_index_found(datap, pos as u32, i0);
    lemma_last_index_range(datap, pos as u32);
    let i = last_index_of(datap, pos as u32);
    assert(datap[i] == raw_pointer(rs, ids[i], rb));
    if exists|c: int| 0 <= c < rs.len() && rs[c].0 == ids[i] {
        let c = choose|c: int| 0 <= c < rs.len() && rs[c].0 == ids[i];
        lemma_raw_pointer_is(rs, c, rb);
        lemma_raw_monotone(rs, c);
        if c < k {
            lemma_raw_strict(rs, c, k);
        } else if c > k {
            lemma_raw_strict(rs, k, c);
        }
        assert(c == k);
    }
}

proof fn lemma_raw_end(ids: Seq<u8>, datap: Seq<u32>, rs: Seq<(u8, Seq<u32>)>, rb: int)
    requires
        0 < rb,
        rb + raw_blocks(rs).len() <= u32::MAX,
        datap.len() == ids.len(),
        forall|i: int| 0 <= i < ids.len() ==> datap[i] == raw_pointer(rs, #[trigger] ids[i], rb),
        distinct_keys(rs),
    ensures
        last_index_of(datap, (rb + raw_blocks(rs).len()) as u32) < 0,
{
    let pos = rb + raw_blocks(rs).len();
    assert forall|i: int| 0 <= i < datap.len() implies datap[i] != (pos as u32) by {
        let id = ids[i];
        assert(datap[i] == raw_pointer(rs, ids[i], rb));
        assert(rs.take(rs.len() as int) =~= rs);
        if exists|c: int| 0 <= c < rs.len() && rs[c].0 == id {
            let c = choose|k: int| 0 <= k < rs.len() && rs[k].0 == id;
            lemma_raw_pointer_is(rs, c, rb);
            lemma_raw_strict(rs, c, rs.len() as int);
            lemma_raw_monotone(rs, c);
            let x = rb + raw_blocks(rs.take(c)).len();
            assert(raw_pointer(rs, id, rb) == x as u32);
            assert(0 <= x < pos <= u32::MAX);
            assert(x as u32 == x);
            assert(pos as u32 == pos);
        } else {
            assert(raw_pointer(rs, id, rb) == 0);
            assert(pos as u32 == pos);
        }
    }
    lemma_last_index_none(datap, pos as u32);
}

proof fn lemma_raws_loop(
    b: Seq<u8>,
    ids: Seq<u8>,
    datap: Seq<u32>,
    rs: Seq<(u8, Seq<u32>)>,
    rb: int,
    k: int,
)
    requires
        0 < rb,
        rb + raw_blocks(rs).len() <= b.len(),
        b.len() <= u32::MAX,
        b.subrange(rb, rb + raw_blocks(rs).len()) == raw_blocks(rs),
        datap.len() == ids.len(),
        forall|i: int| 0 <= i < ids.len() ==> datap[i] == raw_pointer(rs, #[trigger] ids[i], rb),
        distinct_keys(rs),
        forall|j: int| 0 <= j < rs.len() ==> ids.contains(#[trigger] rs[j].0),
        0 <= k <= rs.len(),
    ensures
        raws_from(b, ids, datap, rb + raw_blocks(rs.take(k)).len(), rs.take(k)) == Some(
            Ok::<(Seq<(u8, Seq<u32>)>, int), ThcReadError>((rs, rb + raw_blocks(rs).len())),
        ),
    decreases rs.len() - k,
{
    lemma_raw_monotone(rs, k);
    if k == rs.len() {
        assert(rs.take(k) =~= rs);
        lemma_raw_end(ids, datap, rs, rb);
    } else {
        lemma_raw_block_read(b, rs, rb, k);
        lemma_raw_owner(ids, datap, rs, rb, k);
        let key = rs[k].0;
        assert forall|j: int| 0 <= j < rs.take(k).len() implies rs.take(k)[j].0 != key by {
            assert(rs[j].0 != rs[k].0);
        }
        assert(distinct_keys(rs.take(k)));
        lemma_insert_new(rs.take(k), key, rs[k].1);
        assert(rs.take(k).push((key, rs[k].1)) =~= rs.take(k + 1));
        lemma_raws_loop(b, ids, datap, rs, rb, k + 1);
    }
}

proof fn lemma_prefix_parts<A>(w: Seq<A>, x: Seq<A>, y: Seq<A>)
    requires
        (x + y).len() <= w.len(),
        w.subrange(0, (x + y).len() as int) == x + y,
    ensures
        w.subrange(0, x.len() as int) == x,
        w.subrange(x.len() as int, (x.len() + y.len()) as int) == y,
{
    assert(w.subrange(0, x.len() as int) =~= x) by {
        assert forall|i: int| 0 <= i < x.len() implies w.subrange(0, x.len() as int)[i] == x[i] by {
            assert(w.subrange(0, (x + y).len() as int)[i] == (x + y)[i]);
        }
    }
    assert(w.subrange(x.len() as int, (x.len() + y.len()) as int) =~= y) by {
        assert forall|i: int| 0 <= i < y.len() implies w.subrange(x.len() as int, (x.len() + y.len()) as int)[i] == y[i] by {
            let k = x.len() + i;
            assert(w.subrange(0, (x + y).len() as int)[k] == (x + y)[k]);
            assert(w.subrange(0, (x + y).len() as int)[k] == w[k]);
            assert((x + y)[k] == y[i]);
            assert(w.subrange(x.len() as int, (x.len() + y.len()) as int)[i] == w[k]);
        }
    }
}

proof fn lemma_thc_layout(
    side: u32,
    ids: Seq<u8>,
    nodes: Seq<(u32, u64)>,
    ls: Seq<(u8, Seq<(u32, u64)>)>,
    rs: Seq<(u8, Seq<u32>)>,
)
    ensures
        ({
            let b = thc_bytes(side, ids, nodes, ls, rs);
            let c = ids.len() as int;
            let lb = 20 + 9 * c + 12 * nodes.len();
            let rb = lb + lookup_blocks(ls).len();
            &&& b.len() == rb + raw_blocks(rs).len()
            &&& b.subrange(0, 4) == thc_magic()
            &&& b.subrange(4, 8) == le32(1)
            &&& b.subrange(8, 12) == le32(side)
            &&& b.subrange(12, 16) == le32(c as u32)
            &&& b.subrange(16, 16 + 9 * c) == attachment_entries(ids, ls, rs, lb, rb)
            &&& b.subrange(16 + 9 * c, 20 + 9 * c) == le32(nodes.len() as u32)
            &&& b.subrange(20 + 9 * c, lb) == nodes_bytes(nodes)
            &&& b.subrange(lb, rb) == lookup_blocks(ls)
            &&& b.subrange(rb, b.len() as int) == raw_blocks(rs)
        }),
{
    let c = ids.len() as int;
    let lb = 20 + 9 * c + 12 * nodes.len();
    let rb = lb + lookup_blocks(ls).len();
    lemma_entries_len(ids, ls, rs, lb, rb);
    lemma_nodes_len(nodes);
    let b = thc_bytes(side, ids, nodes, ls, rs);
    let p1 = thc_magic();
    let p2 = p1 + le32(1);
    let p3 = p2 + le32(side);
    let p4 = p3 + le32(c as u32);
    let e = attachment_entries(ids, ls, rs, lb, rb);
    let p5 = p4 + e;
    let p6 = p5 + le32(nodes.len() as u32);
    let p7 = p6 + nodes_bytes(nodes);
    let p8 = p7 + lookup_blocks(ls);
    assert(b == p8 + raw_blocks(rs));
    assert(b.subrange(0, b.len() as int) =~= b);
    lemma_prefix_parts(b, p8, raw_blocks(rs));
    lemma_prefix_parts(b, p7, lookup_blocks(ls));
    lemma_prefix_parts(b, p6, nodes_bytes(nodes));
    lemma_prefix_parts(b, p5, le32(nodes.len() as u32));
    lemma_prefix_parts(b, p4, e);
    lemma_prefix_parts(b, p3, le32(c as u32));
    lemma_prefix_parts(b, p2, le32(side));
    lemma_prefix_parts(b, p1, le32(1));
}

proof fn lemma_info_read(
    b: Seq<u8>,
    ids: Seq<u8>,
    ls: Seq<(u8, Seq<(u32, u64)>)>,
    rs: Seq<(u8, Seq<u32>)>,
    lb: int,
    rb: int,
)
    requires
        16 + 9 * ids.len() <= b.len(),
        b.subrange(16, 16 + 9 * ids.len() as int) == attachment_entries(ids, ls, rs, lb, rb),
    ensures
        info_ids(b, ids.len()) == ids,
        forall|i: int| 0 <= i < ids.len() ==> #[trigger] info_lookup_pointers(b, ids.len())[i] == lookup_pointer(ls, ids[i], lb),
        forall|i: int| 0 <= i < ids.len() ==> #[trigger] info_raw_pointers(b, ids.len())[i] == raw_pointer(rs, ids[i], rb),
{
    let c = ids.len() as int;
    let e = attachment_entries(ids, ls, rs, lb, rb);
    lemma_entries_len(ids, ls, rs, lb, rb);
    assert forall|i: int| 0 <= i < c implies b[16 + 9 * i] == ids[i] && u32_at(b, 17 + 9 * i) == lookup_pointer(ls, ids[i], lb)
        && u32_at(b, 21 + 9 * i) == raw_pointer(rs, ids[i], rb) by {
        lemma_entries_at(ids, ls, rs, lb, rb, i);
        let w = b.subrange(16 + 9 * i, 16 + 9 * i + 9);
        assert(w =~= e.subrange(9 * i, 9 * i + 9));
        let lp = lookup_pointer(ls, ids[i], lb);
        let rp = raw_pointer(rs, ids[i], rb);
        assert(w =~= seq![ids[i]] + le32(lp) + le32(rp));
        assert(b[16 + 9 * i] == w[0]);
        assert(b.subrange(17 + 9 * i, 21 + 9 * i) =~= w.subrange(1, 5));
        assert(w.subrange(1, 5) =~= le32(lp));
        assert(b.subrange(21 + 9 * i, 25 + 9 * i) =~= w.subrange(5, 9));
        assert(w.subrange(5, 9) =~= le32(rp));
        lemma_u32_at_le32(b, 17 + 9 * i, lp);
        lemma_u32_at_le32(b, 21 + 9 * i, rp);
    }
    assert(info_ids(b, ids.len()) =~= ids);
}

/// A tree model written as a "THC " file reads back as the same model: the
/// side length, the attachment ids, the tree nodes and each attachment's
/// lookup and raw blocks. This holds where the blocks name each attachment
/// at most once and only attachments of the info block (the saver writes
/// from maps keyed by the registered attachments), and where the file is
/// small enough for its positions to fit the four-byte pointers.
pub proof fn law_thc_round_trip(
    side: u32,
    ids: Seq<u8>,
    nodes: Seq<(u32, u64)>,
    ls: Seq<(u8, Seq<(u32, u64)>)>,
    rs: Seq<(u8, Seq<u32>)>,
)
    requires
        distinct_keys(ls),
        distinct_keys(rs),
        forall|k: int| 0 <= k < ls.len() ==> ids.contains(#[trigger] ls[k].0),
        forall|k: int| 0 <= k < rs.len() ==> ids.contains(#[trigger] rs[k].0),
        thc_bytes(side, ids, nodes, ls, rs).len() <= u32::MAX,
    ensures
        thc_read(thc_bytes(side, ids, nodes, ls, rs)) == Some(
            Ok::<(u32, Seq<u8>, Seq<(u32, u64)>, Seq<(u8, Seq<(u32, u64)>)>, Seq<(u8, Seq<u32>)>), ThcReadError>(
                (side, ids, nodes, ls, rs),
            ),
        ),
{
    lemma_thc_layout(side, ids, nodes, ls, rs);
    let b = thc_bytes(side, ids, nodes, ls, rs);
    let c = ids.len() as int;
    let n = nodes.len() as int;
    let lb = 20 + 9 * c + 12 * n;
    let rb = lb + lookup_blocks(ls).len();
    lemma_nodes_len(nodes);
    lemma_u32_at_le32(b, 4, 1);
    lemma_u32_at_le32(b, 8, side);
    lemma_u32_at_le32(b, 12, c as u32);
    lemma_u32_at_le32(b, 16 + 9 * c, n as u32);
    assert(u32_at(b, 12) as int == c);
    assert(u32_at(b, 16 + 9 * c) as int == n);
    lemma_nodes_read(b, 20 + 9 * c, nodes);
    lemma_info_read(b, ids, ls, rs, lb, rb);
    let pres = info_lookup_pointers(b, c as nat);
    let datap = info_raw_pointers(b, c as nat);
    assert(ls.take(0) =~= Seq::<(u8, Seq<(u32, u64)>)>::empty());
    assert(rs.take(0) =~= Seq::<(u8, Seq<u32>)>::empty());
    lemma_lookups_loop(b, ids, pres, ls, lb, 0);
    lemma_raws_loop(b, ids, datap, rs, rb, 0);
}

} // verus!
