use vstd::prelude::*;

verus! {

/// The four bytes of `v`, lowest first.
pub open spec fn le32(v: u32) -> Seq<u8> {
    seq![
        (v & 0xffu32) as u8,
        ((v >> 8u32) & 0xffu32) as u8,
        ((v >> 16u32) & 0xffu32) as u8,
        ((v >> 24u32) & 0xffu32) as u8,
    ]
}

/// A tree node as stored: its pointer, then the low and the high half of
/// its mask.
pub open spec fn node_bytes(n: (u32, u64)) -> Seq<u8> {
    le32(n.0) + le32(n.1 as u32) + le32((n.1 >> 32u64) as u32)
}

/// Nodes stored one after another.
pub open spec fn nodes_bytes(ns: Seq<(u32, u64)>) -> Seq<u8>
    decreases ns.len(),
{
    if ns.len() == 0 {
        Seq::empty()
    } else {
        nodes_bytes(ns.drop_last()) + node_bytes(ns.last())
    }
}

/// Words stored one after another.
pub open spec fn words_bytes(ws: Seq<u32>) -> Seq<u8>
    decreases ws.len(),
{
    if ws.len() == 0 {
        Seq::empty()
    } else {
        words_bytes(ws.drop_last()) + le32(ws.last())
    }
}

/// The lookup blocks: for each attachment, its node count and its nodes.
pub open spec fn lookup_blocks(ls: Seq<(u8, Seq<(u32, u64)>)>) -> Seq<u8>
    decreases ls.len(),
{
    if ls.len() == 0 {
        Seq::empty()
    } else {
        lookup_blocks(ls.drop_last()) + le32(ls.last().1.len() as u32) + nodes_bytes(ls.last().1)
    }
}

/// The raw data blocks: for each attachment, its word count and its words.
pub open spec fn raw_blocks(rs: Seq<(u8, Seq<u32>)>) -> Seq<u8>
    decreases rs.len(),
{
    if rs.len() == 0 {
        Seq::empty()
    } else {
        raw_blocks(rs.drop_last()) + le32(rs.last().1.len() as u32) + words_bytes(rs.last().1)
    }
}

/// The position of the lookup block of attachment `id` when the lookup
/// blocks start at `base`, or 0 when it has none.
pub open spec fn lookup_pointer(ls: Seq<(u8, Seq<(u32, u64)>)>, id: u8, base: int) -> u32 {
    if exists|k: int| 0 <= k < ls.len() && ls[k].0 == id {
        let k = choose|k: int| 0 <= k < ls.len() && ls[k].0 == id;
        (base + lookup_blocks(ls.take(k)).len()) as u32
    } else {
        0
    }
}

/// The position of the raw block of attachment `id` when the raw blocks
/// start at `base`, or 0 when it has none.
pub open spec fn raw_pointer(rs: Seq<(u8, Seq<u32>)>, id: u8, base: int) -> u32 {
    if exists|k: int| 0 <= k < rs.len() && rs[k].0 == id {
        let k = choose|k: int| 0 <= k < rs.len() && rs[k].0 == id;
        (base + raw_blocks(rs.take(k)).len()) as u32
    } else {
        0
    }
}

/// The attachment info entries: each id with the positions of its lookup
/// and raw blocks.
pub open spec fn attachment_entries(
    ids: Seq<u8>,
    ls: Seq<(u8, Seq<(u32, u64)>)>,
    rs: Seq<(u8, Seq<u32>)>,
    lookup_base: int,
    raw_base: int,
) -> Seq<u8>
    decreases ids.len(),
{
    if ids.len() == 0 {
        Seq::empty()
    } else {
        attachment_entries(ids.drop_last(), ls, rs, lookup_base, raw_base) + seq![ids.last()] + le32(
            lookup_pointer(ls, ids.last(), lookup_base),
        ) + le32(raw_pointer(rs, ids.last(), raw_base))
    }
}

/// The "THC " file of a tree model: header and version 1, side length,
/// attachment info block, tree nodes, attachment lookup blocks and raw
/// attachment blocks, every number four bytes, lowest byte first.
pub open spec fn thc_bytes(
    side_length: u32,
    ids: Seq<u8>,
    nodes: Seq<(u32, u64)>,
    ls: Seq<(u8, Seq<(u32, u64)>)>,
    rs: Seq<(u8, Seq<u32>)>,
) -> Seq<u8> {
    let lookup_base: int = (16 + 9 * ids.len() + 4 + 12 * nodes.len()) as int;
    let raw_base: int = lookup_base + lookup_blocks(ls).len() as int;
    seq![0x54u8, 0x48u8, 0x43u8, 0x20u8] + le32(1) + le32(side_length) + le32(ids.len() as u32)
        + attachment_entries(ids, ls, rs, lookup_base, raw_base) + le32(nodes.len() as u32) + nodes_bytes(nodes)
        + lookup_blocks(ls) + raw_blocks(rs)
}

/// The lookup data with each node list taken as a sequence.
pub open spec fn lookups_view(v: Seq<(u8, Vec<(u32, u64)>)>) -> Seq<(u8, Seq<(u32, u64)>)> {
    v.map_values(|p: (u8, Vec<(u32, u64)>)| (p.0, p.1@))
}

/// The raw data with each word list taken as a sequence.
pub open spec fn raws_view(v: Seq<(u8, Vec<u32>)>) -> Seq<(u8, Seq<u32>)> {
    v.map_values(|p: (u8, Vec<u32>)| (p.0, p.1@))
}

fn push_u32(buf: &mut Vec<u8>, v: u32)
    ensures
        final(buf)@ == old(buf)@ + le32(v),
{
    buf.push((v & 0xff) as u8);
    buf.push(((v >> 8) & 0xff) as u8);
    buf.push(((v >> 16) & 0xff) as u8);
    buf.push(((v >> 24) & 0xff) as u8);
    assert(buf@ =~= old(buf)@ + le32(v));
}

pub(crate) proof fn lemma_nodes_len(ns: Seq<(u32, u64)>)
    ensures
        nodes_bytes(ns).len() == 12 * ns.len(),
    decreases ns.len(),
{
    if ns.len() > 0 {
        lemma_nodes_len(ns.drop_last());
    }
}

pub(crate) proof fn lemma_words_len(ws: Seq<u32>)
    ensures
        words_bytes(ws).len() == 4 * ws.len(),
    decreases ws.len(),
{
    if ws.len() > 0 {
        lemma_words_len(ws.drop_last());
    }
}

fn push_nodes(buf: &mut Vec<u8>, nodes: &Vec<(u32, u64)>)
    ensures
        final(buf)@ == old(buf)@ + nodes_bytes(nodes@),
{
    let mut i: usize = 0;
    assert(nodes@.take(0) =~= Seq::<(u32, u64)>::empty());
    assert(buf@ =~= old(buf)@ + nodes_bytes(nodes@.take(0)));
    while i < nodes.len()
        invariant
            i <= nodes@.len(),
            buf@ == old(buf)@ + nodes_bytes(nodes@.take(i as int)),
        decreases nodes@.len() - i,
    {
        let (p, m) = nodes[i];
        push_u32(buf, p);
        push_u32(buf, m as u32);
        push_u32(buf, (m >> 32) as u32);
        proof {
            assert(nodes@.take(i + 1).drop_last() =~= nodes@.take(i as int));
            assert(nodes@.take(i + 1).last() == nodes@[i as int]);
            assert(buf@ =~= old(buf)@ + nodes_bytes(nodes@.take(i + 1)));
        }
        i = i + 1;
    }
    assert(nodes@.take(i as int) =~= nodes@);
}

fn push_words(buf: &mut Vec<u8>, words: &Vec<u32>)
    ensures
        final(buf)@ == old(buf)@ + words_bytes(words@),
{
    let mut i: usize = 0;
    assert(words@.take(0) =~= Seq::<u32>::empty());
    assert(buf@ =~= old(buf)@ + words_bytes(words@.take(0)));
    while i < words.len()
        invariant
            i <= words@.len(),
            buf@ == old(buf)@ + words_bytes(words@.take(i as int)),
        decreases words@.len() - i,
    {
        push_u32(buf, words[i]);
        proof {
            assert(words@.take(i + 1).drop_last() =~= words@.take(i as int));
            assert(words@.take(i + 1).last() == words@[i as int]);
            assert(buf@ =~= old(buf)@ + words_bytes(words@.take(i + 1)));
        }
        i = i + 1;
    }
    assert(words@.take(i as int) =~= words@);
}


/// Attachment ids appear at most once among the blocks.
pub open spec fn distinct_keys<V>(s: Seq<(u8, V)>) -> bool {
    forall|a: int, b: int| 0 <= a < b < s.len() ==> s[a].0 != s[b].0
}

pub(crate) proof fn lemma_lookup_prefix(ls: Seq<(u8, Seq<(u32, u64)>)>, k: int)
    requires
        0 <= k < ls.len(),
    ensures
        lookup_blocks(ls.take(k + 1)).len() == lookup_blocks(ls.take(k)).len() + 4 + 12 * ls[k].1.len(),
        lookup_blocks(ls.take(k + 1)) == lookup_blocks(ls.take(k)) + le32(ls[k].1.len() as u32) + nodes_bytes(ls[k].1),
{
    assert(ls.take(k + 1).drop_last() =~= ls.take(k));
    assert(ls.take(k + 1).last() == ls[k]);
    lemma_nodes_len(ls[k].1);
}

pub(crate) proof fn lemma_raw_prefix(rs: Seq<(u8, Seq<u32>)>, k: int)
    requires
        0 <= k < rs.len(),
    ensures
        raw_blocks(rs.take(k + 1)).len() == raw_blocks(rs.take(k)).len() + 4 + 4 * rs[k].1.len(),
        raw_blocks(rs.take(k + 1)) == raw_blocks(rs.take(k)) + le32(rs[k].1.len() as u32) + words_bytes(rs[k].1),
{
    assert(rs.take(k + 1).drop_last() =~= rs.take(k));
    assert(rs.take(k + 1).last() == rs[k]);
    lemma_words_len(rs[k].1);
}

pub(crate) proof fn lemma_lookup_monotone(ls: Seq<(u8, Seq<(u32, u64)>)>, k: int)
    requires
        0 <= k <= ls.len(),
    ensures
        lookup_blocks(ls.take(k)).len() <= lookup_blocks(ls).len(),
    decreases ls.len() - k,
{
    if k < ls.len() {
        lemma_lookup_prefix(ls, k);
        lemma_lookup_monotone(ls, k + 1);
    } else {
        assert(ls.take(k) =~= ls);
    }
}

pub(crate) proof fn lemma_raw_monotone(rs: Seq<(u8, Seq<u32>)>, k: int)
    requires
        0 <= k <= rs.len(),
    ensures
        raw_blocks(rs.take(k)).len() <= raw_blocks(rs).len(),
    decreases rs.len() - k,
{
    if k < rs.len() {
        lemma_raw_prefix(rs, k);
        lemma_raw_monotone(rs, k + 1);
    } else {
        assert(rs.take(k) =~= rs);
    }
}

pub(crate) proof fn lemma_entries_len(
    ids: Seq<u8>,
    ls: Seq<(u8, Seq<(u32, u64)>)>,
    rs: Seq<(u8, Seq<u32>)>,
    lb: int,
    rb: int,
)
    ensures
        attachment_entries(ids, ls, rs, lb, rb).len() == 9 * ids.len(),
    decreases ids.len(),
{
    if ids.len() > 0 {
        lemma_entries_len(ids.drop_last(), ls, rs, lb, rb);
    }
}

/// The "THC " file of a tree model of side `side_length` with the nodes
/// `nodes`, the attachments `ids`, their lookup nodes `lookups` and their raw
/// data `raws`, each block of the last two in the order given; see
/// `thc_bytes`.
pub fn encode_thc(
    side_length: u32,
    ids: &Vec<u8>,
    nodes: &Vec<(u32, u64)>,
    lookups: &Vec<(u8, Vec<(u32, u64)>)>,
    raws: &Vec<(u8, Vec<u32>)>,
) -> (r: Vec<u8>)
    requires
        distinct_keys(lookups@),
        distinct_keys(raws@),
        forall|k: int| 0 <= k < lookups@.len() ==> ids@.contains(#[trigger] lookups@[k].0),
        forall|k: int| 0 <= k < raws@.len() ==> ids@.contains(#[trigger] raws@[k].0),
        thc_bytes(side_length, ids@, nodes@, lookups_view(lookups@), raws_view(raws@)).len() <= usize::MAX,
    ensures
        r@ == thc_bytes(side_length, ids@, nodes@, lookups_view(lookups@), raws_view(raws@)),
{
    let ghost ls = lookups_view(lookups@);
    let ghost rs = raws_view(raws@);
    let ghost lbase: int = (16 + 9 * ids@.len() + 4 + 12 * nodes@.len()) as int;
    let ghost rbase: int = lbase + lookup_blocks(ls).len() as int;
    proof {
        lemma_entries_len(ids@, ls, rs, lbase, rbase);
        lemma_nodes_len(nodes@);
        assert(thc_bytes(side_length, ids@, nodes@, ls, rs).len() == rbase + raw_blocks(rs).len());
    }
    let lookup_base: usize = 16 + 9 * ids.len() + 4 + 12 * nodes.len();
    let mut loffs: Vec<usize> = Vec::new();
    let mut off: usize = lookup_base;
    let mut k: usize = 0;
    proof {
        assert(ls.take(0) =~= Seq::<(u8, Seq<(u32, u64)>)>::empty());
    }
    while k < lookups.len()
        invariant
            k <= lookups@.len(),
            ls == lookups_view(lookups@),
            ls.len() == lookups@.len(),
            lookup_base == lbase,
            rbase + raw_blocks(rs).len() <= usize::MAX,
            rbase == lbase + lookup_blocks(ls).len(),
            loffs@.len() == k,
            off == lbase + lookup_blocks(ls.take(k as int)).len(),
            forall|j: int| 0 <= j < k ==> #[trigger] loffs@[j] == lbase + lookup_blocks(ls.take(j)).len(),
        decreases lookups@.len() - k,
    {
        loffs.push(off);
        proof {
            lemma_lookup_prefix(ls, k as int);
            lemma_lookup_monotone(ls, k + 1);
            assert(ls[k as int].1 == lookups@[k as int].1@);
        }
        off = off + 4 + 12 * lookups[k].1.len();
        k = k + 1;
    }
    proof {
        assert(ls.take(k as int) =~= ls);
    }
    let raw_base: usize = off;
    let mut roffs: Vec<usize> = Vec::new();
    let mut k: usize = 0;
    proof {
        assert(rs.take(0) =~= Seq::<(u8, Seq<u32>)>::empty());
    }
    while k < raws.len()
        invariant
            k <= raws@.len(),
            rs == raws_view(raws@),
            rs.len() == raws@.len(),
            raw_base == rbase,
            rbase + raw_blocks(rs).len() <= usize::MAX,
            roffs@.len() == k,
            off == rbase + raw_blocks(rs.take(k as int)).len(),
            forall|j: int| 0 <= j < k ==> #[trigger] roffs@[j] == rbase + raw_blocks(rs.take(j)).len(),
        decreases raws@.len() - k,
    {
        roffs.push(off);
        proof {
            lemma_raw_prefix(rs, k as int);
            lemma_raw_monotone(rs, k + 1);
            assert(rs[k as int].1 == raws@[k as int].1@);
        }
        off = off + 4 + 4 * raws[k].1.len();
        k = k + 1;
    }
    let mut buf: Vec<u8> = Vec::new();
    buf.push(0x54);
    buf.push(0x48);
    buf.push(0x43);
    buf.push(0x20);
    push_u32(&mut buf, 1);
    push_u32(&mut buf, side_length);
    push_u32(&mut buf, ids.len() as u32);
    let ghost head = buf@;
    let mut i: usize = 0;
    proof {
        assert(ids@.take(0) =~= Seq::<u8>::empty());
        assert(buf@ =~= head + attachment_entries(ids@.take(0), ls, rs, lbase, rbase));
    }
    while i < ids.len()
        invariant
            i <= ids@.len(),
            ls == lookups_view(lookups@),
            rs == raws_view(raws@),
            distinct_keys(lookups@),
            distinct_keys(raws@),
            loffs@.len() == lookups@.len(),
            roffs@.len() == raws@.len(),
            forall|j: int| 0 <= j < lookups@.len() ==> #[trigger] loffs@[j] == lbase + lookup_blocks(ls.take(j)).len(),
            forall|j: int| 0 <= j < raws@.len() ==> #[trigger] roffs@[j] == rbase + raw_blocks(rs.take(j)).len(),
            buf@ == head + attachment_entries(ids@.take(i as int), ls, rs, lbase, rbase),
        decreases ids@.len() - i,
    {
        let id = ids[i];
        let mut lp: u32 = 0;
        let mut j: usize = 0;
        while j < lookups.len()
            invariant
                j <= lookups@.len(),
                ls == lookups_view(lookups@),
                distinct_keys(lookups@),
                loffs@.len() == lookups@.len(),
                forall|q: int| 0 <= q < lookups@.len() ==> #[trigger] loffs@[q] == lbase + lookup_blocks(ls.take(q)).len(),
                (forall|q: int| 0 <= q < j ==> lookups@[q].0 != id) ==> lp == 0,
                (exists|q: int| 0 <= q < j && lookups@[q].0 == id) ==> lp == lookup_pointer(ls, id, lbase),
            decreases lookups@.len() - j,
        {
            if lookups[j].0 == id {
                proof {
                    assert(ls[j as int].0 == id);
                    let c = choose|q: int| 0 <= q < ls.len() && ls[q].0 == id;
                    if c != j as int {
                        assert(ls[c].0 == lookups@[c].0);
                        if c < j { assert(lookups@[c].0 != lookups@[j as int].0); }
                        else { assert(lookups@[j as int].0 != lookups@[c].0); }
                    }
                }
                lp = loffs[j] as u32;
            }
            j = j + 1;
        }
        proof {
            if !(exists|q: int| 0 <= q < ls.len() && ls[q].0 == id) {
                assert forall|q: int| 0 <= q < j implies lookups@[q].0 != id by {
                    assert(ls[q].0 == lookups@[q].0);
                }
            } else {
                let c = choose|q: int| 0 <= q < ls.len() && ls[q].0 == id;
                assert(lookups@[c].0 == id);
            }
        }
        let mut rp: u32 = 0;
        let mut j: usize = 0;
        while j < raws.len()
            invariant
                j <= raws@.len(),
                rs == raws_view(raws@),
                distinct_keys(raws@),
                roffs@.len() == raws@.len(),
                forall|q: int| 0 <= q < raws@.len() ==> #[trigger] roffs@[q] == rbase + raw_blocks(rs.take(q)).len(),
                (forall|q: int| 0 <= q < j ==> raws@[q].0 != id) ==> rp == 0,
                (exists|q: int| 0 <= q < j && raws@[q].0 == id) ==> rp == raw_pointer(rs, id, rbase),
            decreases raws@.len() - j,
        {
            if raws[j].0 == id {
                proof {
                    assert(rs[j as int].0 == id);
                    let c = choose|q: int| 0 <= q < rs.len() && rs[q].0 == id;
                    if c != j as int {
                        assert(rs[c].0 == raws@[c].0);
                        if c < j { assert(raws@[c].0 != raws@[j as int].0); }
                        else { assert(raws@[j as int].0 != raws@[c].0); }
                    }
                }
                rp = roffs[j] as u32;
            }
            j = j + 1;
        }
        proof {
            if !(exists|q: int| 0 <= q < rs.len() && rs[q].0 == id) {
                assert forall|q: int| 0 <= q < j implies raws@[q].0 != id by {
                    assert(rs[q].0 == raws@[q].0);
                }
            } else {
                let c = choose|q: int| 0 <= q < rs.len() && rs[q].0 == id;
                assert(raws@[c].0 == id);
            }
        }
        buf.push(id);
        push_u32(&mut buf, lp);
        push_u32(&mut buf, rp);
        proof {
            let t = ids@.take(i + 1);
            assert(t.drop_last() =~= ids@.take(i as int));
            assert(t.last() == id);
            assert(buf@ =~= head + attachment_entries(t, ls, rs, lbase, rbase));
        }
        i = i + 1;
    }
    proof {
        assert(ids@.take(i as int) =~= ids@);
    }
    push_u32(&mut buf, nodes.len() as u32);
    push_nodes(&mut buf, nodes);
    let ghost mid = buf@;
    let mut k: usize = 0;
    proof {
        assert(buf@ =~= mid + lookup_blocks(ls.take(0)));
    }
    while k < lookups.len()
        invariant
            k <= lookups@.len(),
            ls == lookups_view(lookups@),
            buf@ == mid + lookup_blocks(ls.take(k as int)),
        decreases lookups@.len() - k,
    {
        push_u32(&mut buf, lookups[k].1.len() as u32);
        push_nodes(&mut buf, &lookups[k].1);
        proof {
            lemma_lookup_prefix(ls, k as int);
            assert(ls[k as int].1 == lookups@[k as int].1@);
            assert(buf@ =~= mid + lookup_blocks(ls.take(k + 1)));
        }
        k = k + 1;
    }
    proof {
        assert(ls.take(k as int) =~= ls);
    }
    let ghost mid2 = buf@;
    let mut k: usize = 0;
    proof {
        assert(buf@ =~= mid2 + raw_blocks(rs.take(0)));
    }
    while k < raws.len()
        invariant
            k <= raws@.len(),
            rs == raws_view(raws@),
            buf@ == mid2 + raw_blocks(rs.take(k as int)),
        decreases raws@.len() - k,
    {
        push_u32(&mut buf, raws[k].1.len() as u32);
        push_words(&mut buf, &raws[k].1);
        proof {
            lemma_raw_prefix(rs, k as int);
            assert(rs[k as int].1 == raws@[k as int].1@);
            assert(buf@ =~= mid2 + raw_blocks(rs.take(k + 1)));
        }
        k = k + 1;
    }
    proof {
        assert(rs.take(k as int) =~= rs);
        assert(buf@ =~= thc_bytes(side_length, ids@, nodes@, ls, rs));
    }
    buf
}

} // verus!
